use vstd::prelude::*;
use vstd::utf8::{encode_scalar, encode_utf8};

use crate::text::{chars_of, is_whitespace, push_all, string_from_chars, unicode_whitespace};

verus! {

/// The number of bytes of a character in UTF-8.
pub open spec fn utf8_width(c: char) -> nat {
    if (c as int) < 0x80 {
        1
    } else if (c as int) < 0x800 {
        2
    } else if (c as int) < 0x10000 {
        3
    } else {
        4
    }
}

/// The number of bytes of a text in UTF-8, which `str::len` gives.
pub open spec fn utf8_len(s: Seq<char>) -> nat
    decreases s.len(),
{
    if s.len() == 0 {
        0
    } else {
        utf8_len(s.drop_last()) + utf8_width(s.last())
    }
}

/// Whether a character separates the words of a name: whitespace or `-`.
pub open spec fn is_separator(c: char) -> bool {
    unicode_whitespace(c) || c == '-'
}

/// The pieces of `s` between separators, as `str::split` gives them (empty pieces
/// included).
pub open spec fn pieces(s: Seq<char>) -> Seq<Seq<char>>
    decreases s.len(),
{
    if s.len() == 0 {
        seq![Seq::empty()]
    } else {
        let p = pieces(s.drop_last());
        if is_separator(s.last()) {
            p.push(Seq::empty())
        } else {
            p.update(p.len() - 1, p.last().push(s.last()))
        }
    }
}

/// The words of `s`: its non-empty pieces.
pub open spec fn words(s: Seq<char>) -> Seq<Seq<char>> {
    pieces(s).filter(|w: Seq<char>| w.len() > 0)
}

/// Words joined with single spaces.
pub open spec fn join_words(ws: Seq<Seq<char>>) -> Seq<char>
    decreases ws.len(),
{
    if ws.len() == 0 {
        Seq::empty()
    } else if ws.len() == 1 {
        ws[0]
    } else {
        join_words(ws.drop_last()) + seq![' '] + ws.last()
    }
}

/// The first `k` words (from `k = start + 1` on) whose joined text is longer than five
/// bytes, or all the words.
pub open spec fn short_prefix(ws: Seq<Seq<char>>, start: int) -> Seq<char>
    decreases ws.len() - start,
{
    if start >= ws.len() || start < 0 {
        join_words(ws)
    } else if utf8_len(join_words(ws.take(start + 1))) > 5 {
        join_words(ws.take(start + 1))
    } else {
        short_prefix(ws, start + 1)
    }
}

/// A short form of a name: names under ten bytes stay as they are; longer ones keep
/// just enough of their first words (split at whitespace and `-`, joined with single
/// spaces) to be longer than five bytes.
pub open spec fn shortened(name: Seq<char>) -> Seq<char> {
    if utf8_len(name) < 10 {
        name
    } else {
        short_prefix(words(name), 0)
    }
}

/// Whether a character is whitespace or `-`.
pub open spec fn splits_words(c: char) -> bool {
    unicode_whitespace(c) || c == '-'
}

/// A name is cut into pieces at each whitespace character and each `-`, and nowhere else:
/// there is one piece more than such characters, no piece holds one of them, and the
/// pieces put back together give the name without them.
pub proof fn law_pieces_cut_at_whitespace_and_hyphens(s: Seq<char>)
    ensures
        forall|i: int, j: int|
            0 <= i < pieces(s).len() && 0 <= j < pieces(s)[i].len() ==> !splits_words(
                #[trigger] pieces(s)[i][j],
            ),
        pieces(s).len() == 1 + s.filter(|c: char| splits_words(c)).len(),
        pieces(s).flatten() == s.filter(|c: char| !splits_words(c)),
    decreases s.len(),
{
    if s.len() == 0 {
        assert(pieces(s) =~= seq![Seq::<char>::empty()]);
        assert(seq![Seq::<char>::empty()].flatten() =~= Seq::<char>::empty()) by {
            seq![Seq::<char>::empty()].lemma_flatten_one_element();
        }
    } else {
        let t = s.drop_last();
        let c = s.last();
        law_pieces_cut_at_whitespace_and_hyphens(t);
        assert(t.push(c) =~= s);
        t.lemma_filter_push(c, |c: char| splits_words(c));
        t.lemma_filter_push(c, |c: char| !splits_words(c));
        let p = pieces(t);
        if splits_words(c) {
            assert(pieces(s) == p.push(Seq::empty()));
            p.lemma_flatten_push(Seq::empty());
            assert(p.flatten() + Seq::<char>::empty() =~= p.flatten());
        } else {
            let q = p.drop_last();
            assert(p.len() > 0);
            assert(q.push(p.last()) =~= p);
            let u = p.update(p.len() - 1, p.last().push(c));
            assert(pieces(s) == u);
            assert(u =~= q.push(p.last().push(c)));
            q.lemma_flatten_push(p.last());
            q.lemma_flatten_push(p.last().push(c));
            assert(q.flatten() + p.last().push(c) =~= (q.flatten() + p.last()).push(c));
            assert forall|i: int, j: int|
                0 <= i < u.len() && 0 <= j < u[i].len() implies !splits_words(#[trigger] u[i][j]) by {
                if i < u.len() - 1 {
                    assert(u[i] == p[i]);
                } else if j < p.last().len() {
                    assert(u[i][j] == p[p.len() - 1][j]);
                }
            }
        }
    }
}

/// A name longer than nine bytes that holds no whitespace and no `-` is one word, which
/// its short form keeps whole.
pub proof fn law_single_word_is_kept(name: Seq<char>)
    requires
        name.len() > 0,
        forall|i: int| 0 <= i < name.len() ==> !splits_words(#[trigger] name[i]),
    ensures
        shortened(name) == name,
{
    law_pieces_cut_at_whitespace_and_hyphens(name);
    assert(name.filter(|c: char| splits_words(c)).len() == 0) by {
        if name.filter(|c: char| splits_words(c)).len() > 0 {
            name.lemma_filter_pred(|c: char| splits_words(c), 0);
            let x = name.filter(|c: char| splits_words(c))[0];
            assert(name.filter(|c: char| splits_words(c)).contains(x));
            name.lemma_filter_contains_rev(|c: char| splits_words(c), x);
        }
    }
    assert(name.filter(|c: char| !splits_words(c)) =~= name) by {
        name.lemma_filter_len(|c: char| splits_words(c));
        lemma_filter_keeps_all(name);
    }
    let p = pieces(name);
    assert(p.len() == 1);
    assert(p =~= seq![p[0]]);
    p.lemma_flatten_one_element();
    assert(p[0] == name);
    let ws = words(name);
    Seq::<Seq<char>>::empty().lemma_filter_push(p[0], |w: Seq<char>| w.len() > 0);
    assert(Seq::<Seq<char>>::empty().push(p[0]) =~= p);
    assert(Seq::<Seq<char>>::empty().filter(|w: Seq<char>| w.len() > 0) =~= Seq::<Seq<char>>::empty());
    assert(ws =~= seq![name]);
    assert(ws.take(1) =~= ws);
    assert(join_words(ws) == name);
}

proof fn lemma_filter_keeps_all(s: Seq<char>)
    requires
        forall|i: int| 0 <= i < s.len() ==> !splits_words(#[trigger] s[i]),
    ensures
        s.filter(|c: char| !splits_words(c)) == s,
    decreases s.len(),
{
    if s.len() > 0 {
        let t = s.drop_last();
        assert forall|i: int| 0 <= i < t.len() implies !splits_words(#[trigger] t[i]) by {
            assert(t[i] == s[i]);
        }
        lemma_filter_keeps_all(t);
        assert(t.push(s.last()) =~= s);
        t.lemma_filter_push(s.last(), |c: char| !splits_words(c));
        assert(!splits_words(s[s.len() - 1]));
    }
}

fn char_width(c: char) -> (r: usize)
    ensures
        r == utf8_width(c),
{
    let code = c as u32;
    if code < 0x80 {
        1
    } else if code < 0x800 {
        2
    } else if code < 0x10000 {
        3
    } else {
        4
    }
}

proof fn lemma_utf8_len_append(a: Seq<char>, b: Seq<char>)
    ensures
        utf8_len(a + b) == utf8_len(a) + utf8_len(b),
    decreases b.len(),
{
    if b.len() > 0 {
        lemma_utf8_len_append(a, b.drop_last());
        assert((a + b).drop_last() =~= a + b.drop_last());
    } else {
        assert(a + b =~= a);
    }
}

proof fn lemma_utf8_len_bound(a: Seq<char>)
    ensures
        utf8_len(a) <= 4 * a.len(),
    decreases a.len(),
{
    if a.len() > 0 {
        lemma_utf8_len_bound(a.drop_last());
    }
}

proof fn lemma_utf8_width_is_encoding_length(c: char)
    ensures
        utf8_width(c) == encode_scalar(c as u32).len(),
{
}

/// `utf8_len` counts the bytes of the UTF-8 encoding.
proof fn lemma_utf8_len_is_encoding_length(s: Seq<char>)
    ensures
        utf8_len(s) == encode_utf8(s).len(),
    decreases s.len(),
{
    if s.len() > 0 {
        lemma_utf8_len_is_encoding_length(s.drop_first());
        lemma_utf8_len_append(seq![s[0]], s.drop_first());
        assert(seq![s[0]] + s.drop_first() =~= s);
        assert(seq![s[0]].drop_last() =~= Seq::<char>::empty());
        assert(utf8_len(seq![s[0]]) == utf8_len(Seq::<char>::empty()) + utf8_width(s[0]));
        lemma_utf8_width_is_encoding_length(s[0]);
        assert(encode_utf8(s) == encode_scalar(s[0] as u32) + encode_utf8(s.drop_first()));
    }
}

/// A name of fewer than ten bytes (in UTF-8, as `str::len` counts them) is its own short
/// form.
pub proof fn law_short_names_are_kept(name: Seq<char>)
    requires
        encode_utf8(name).len() < 10,
    ensures
        shortened(name) == name,
{
    lemma_utf8_len_is_encoding_length(name);
}

/// The number of bytes of `v` in UTF-8, or any value from 10 on when it has at least
/// 10 bytes.
fn utf8_len_capped(v: &Vec<char>) -> (r: usize)
    ensures
        r < 10 ==> r == utf8_len(v@),
        r >= 10 <==> utf8_len(v@) >= 10,
{
    let mut total: usize = 0;
    let mut i: usize = 0;
    while i < v.len()
        invariant
            i <= v@.len(),
            total == utf8_len(v@.take(i as int)),
            total < 10,
        decreases v.len() - i,
    {
        proof {
            assert(v@.take(i + 1).drop_last() =~= v@.take(i as int));
        }
        total = total + char_width(v[i]);
        i = i + 1;
        if total >= 10 {
            proof {
                lemma_utf8_len_append(v@.take(i as int), v@.skip(i as int));
                assert(v@.take(i as int) + v@.skip(i as int) =~= v@);
            }
            return total;
        }
    }
    proof {
        assert(v@.take(v@.len() as int) =~= v@);
    }
    total
}

/// The texts of a list of character vectors.
pub open spec fn texts(v: Seq<Vec<char>>) -> Seq<Seq<char>> {
    v.map_values(|w: Vec<char>| w@)
}

/// The words of `chars`, each as a vector.
fn split_words(chars: &Vec<char>) -> (r: Vec<Vec<char>>)
    ensures
        texts(r@) == words(chars@),
{
    let mut done: Vec<Vec<char>> = Vec::new();
    let mut current: Vec<char> = Vec::new();
    let mut i: usize = 0;
    proof {
        assert(chars@.take(0) =~= Seq::<char>::empty());
        assert(texts(done@).push(current@) =~= pieces(chars@.take(0)));
    }
    while i < chars.len()
        invariant
            i <= chars@.len(),
            texts(done@).push(current@) == pieces(chars@.take(i as int)),
        decreases chars.len() - i,
    {
        let c = chars[i];
        proof {
            assert(chars@.take(i + 1).drop_last() =~= chars@.take(i as int));
        }
        if is_whitespace(c) || c == '-' {
            let ghost before = texts(done@);
            let piece = current;
            done.push(piece);
            current = Vec::new();
            proof {
                assert(texts(done@) =~= before.push(piece@));
                assert(texts(done@).push(current@) =~= pieces(chars@.take(i + 1)));
            }
        } else {
            let ghost before = current@;
            current.push(c);
            proof {
                assert(texts(done@).push(current@) =~= pieces(chars@.take(i as int)).update(
                    pieces(chars@.take(i as int)).len() - 1,
                    before.push(c),
                ));
            }
        }
        i = i + 1;
    }
    proof {
        assert(chars@.take(chars@.len() as int) =~= chars@);
    }
    let ghost all_pieces = texts(done@).push(current@);
    done.push(current);
    assert(texts(done@) =~= all_pieces);
    let mut out: Vec<Vec<char>> = Vec::new();
    let mut k: usize = 0;
    while k < done.len()
        invariant
            k <= done@.len(),
            texts(done@) == pieces(chars@),
            texts(out@) == texts(done@).take(k as int).filter(|w: Seq<char>| w.len() > 0),
        decreases done.len() - k,
    {
        proof {
            assert(texts(done@).take(k + 1) =~= texts(done@).take(k as int).push(done@[k as int]@));
            texts(done@).take(k as int).lemma_filter_push(done@[k as int]@, |w: Seq<char>| w.len() > 0);
        }
        if done[k].len() > 0 {
            let ghost before = texts(out@);
            out.push(done[k].clone());
            proof {
                assert(texts(out@) =~= before.push(done@[k as int]@));
            }
        }
        k = k + 1;
    }
    proof {
        assert(texts(done@).take(done@.len() as int) =~= texts(done@));
    }
    out
}

/// The first `k` words joined with single spaces.
fn join_first(ws: &Vec<Vec<char>>, k: usize) -> (r: Vec<char>)
    requires
        k <= ws@.len(),
    ensures
        r@ == join_words(texts(ws@).take(k as int)),
{
    let mut r: Vec<char> = Vec::new();
    let mut j: usize = 0;
    while j < k
        invariant
            j <= k <= ws@.len(),
            r@ == join_words(texts(ws@).take(j as int)),
        decreases k - j,
    {
        proof {
            assert(texts(ws@).take(j + 1).drop_last() =~= texts(ws@).take(j as int));
        }
        if j > 0 {
            r.push(' ');
        }
        push_all(&mut r, &ws[j]);
        proof {
            if j == 0 {
                assert(r@ =~= texts(ws@).take(1)[0]);
            }
        }
        j = j + 1;
    }
    r
}

/// A short form of a name for the wheel: names under ten bytes stay as they are; longer
/// ones keep just enough of their first words (split at whitespace and `-`, joined with
/// single spaces) to be longer than five bytes.
pub fn shorten_name(name: &str) -> (r: String)
    ensures
        r@ == shortened(name@),
        name@.len() > 0 && (forall|i: int| 0 <= i < name@.len() ==> !splits_words(#[trigger] name@[i]))
            ==> r@ == name@,
        encode_utf8(name@).len() < 10 ==> r@ == name@,
{
    proof {
        if encode_utf8(name@).len() < 10 {
            law_short_names_are_kept(name@);
        }
        if name@.len() > 0 && (forall|i: int| 0 <= i < name@.len() ==> !splits_words(#[trigger] name@[i])) {
            law_single_word_is_kept(name@);
        }
    }
    let chars = chars_of(name);
    if utf8_len_capped(&chars) < 10 {
        return string_from_chars(&chars);
    }
    let ws = split_words(&chars);
    let mut k: usize = 0;
    while k < ws.len()
        invariant
            k <= ws@.len(),
            texts(ws@) == words(name@),
            utf8_len(name@) >= 10,
            short_prefix(texts(ws@), 0) == short_prefix(texts(ws@), k as int),
            name@.len() > 0 && (forall|i: int| 0 <= i < name@.len() ==> !splits_words(#[trigger] name@[i]))
                ==> shortened(name@) == name@,
            encode_utf8(name@).len() < 10 ==> shortened(name@) == name@,
        decreases ws.len() - k,
    {
        let ret = join_first(&ws, k + 1);
        if utf8_len_capped(&ret) > 5 {
            return string_from_chars(&ret);
        }
        k = k + 1;
    }
    let all = join_first(&ws, ws.len());
    proof {
        assert(texts(ws@).take(ws@.len() as int) =~= texts(ws@));
    }
    string_from_chars(&all)
}

/// A size in whole units.
#[derive(Clone, Copy, Debug, PartialEq, Eq, Structural)]
pub struct IntegerSize2D {
    pub width: i32,
    pub height: i32,
}

/// The page of a wheel: its size, the width of the ring and the margin around it.
#[derive(Clone, Copy, Debug, PartialEq, Eq, Structural)]
pub struct Page {
    pub total_size: IntegerSize2D,
    pub wheel_width: i32,
    pub margin: i32,
}

/// Half of `m`, rounded toward zero as the division of `i32` does.
pub open spec fn half_toward_zero(m: int) -> int {
    if m >= 0 {
        m / 2
    } else {
        -((-m) / 2)
    }
}

/// The outer radius of the ring: half the smaller side of the page, less the margin.
pub open spec fn outer_radius(page: Page) -> int {
    let w = page.total_size.width as int;
    let h = page.total_size.height as int;
    half_toward_zero(if w < h { w } else { h }) - page.margin
}

/// The inner radius of the ring: the outer radius less the width of the ring.
pub open spec fn inner_radius(page: Page) -> int {
    outer_radius(page) - page.wheel_width
}

fn half_i32(m: i32) -> (r: i32)
    ensures
        r == half_toward_zero(m as int),
{
    if m >= 0 {
        ((m as u32) / 2) as i32
    } else {
        let a: u32 = (-(m as i64)) as u32;
        -(((a / 2) as i64) as i32)
    }
}

impl Page {
    /// The size of the page.
    pub fn size(&self) -> (r: IntegerSize2D)
        ensures
            r == self.total_size,
    {
        IntegerSize2D { width: self.total_size.width, height: self.total_size.height }
    }

    /// The outer radius of the ring: half the smaller side of the page, less the margin.
    pub fn wheel_outer_radius(&self) -> (r: i32)
        requires
            i32::MIN <= outer_radius(*self) <= i32::MAX,
        ensures
            r == outer_radius(*self),
    {
        let size = self.size();
        let smaller = if size.width < size.height { size.width } else { size.height };
        half_i32(smaller) - self.margin
    }

    /// The inner radius of the ring: the outer radius less the width of the ring.
    pub fn wheel_inner_radius(&self) -> (r: i32)
        requires
            i32::MIN <= outer_radius(*self) <= i32::MAX,
            i32::MIN <= inner_radius(*self) <= i32::MAX,
        ensures
            r == inner_radius(*self),
    {
        self.wheel_outer_radius() - self.wheel_width
    }
}

/// The side of the ring where a text stands.
#[derive(Clone, Copy, Debug, PartialEq, Eq, Structural)]
pub enum Region {
    Inner,
    Outer,
}

/// The text anchor for a label in one of the eight zones of the ring (numbered from 1, by
/// steps of 45 degrees from the top, clockwise): the top and bottom zones are centred;
/// on the right, inner labels end at their point and outer ones start there; on the
/// left, the other way round.
pub open spec fn spec_zone_anchor(zone: usize, region: Region) -> Seq<char> {
    if zone == 1 || zone == 5 {
        "middle"@
    } else if 2 <= zone <= 4 {
        if region == Region::Inner { "end"@ } else { "start"@ }
    } else {
        if region == Region::Inner { "start"@ } else { "end"@ }
    }
}

/// The text anchor of a label in zone `zone` of the ring (see `spec_zone_anchor`).
pub fn zone_anchor(zone: usize, region: Region) -> (r: String)
    ensures
        r@ == spec_zone_anchor(zone, region),
{
    match region {
        Region::Inner => {
            if zone == 1 || zone == 5 {
                "middle".to_owned()
            } else if 2 <= zone && zone <= 4 {
                "end".to_owned()
            } else {
                "start".to_owned()
            }
        },
        Region::Outer => {
            if zone == 1 || zone == 5 {
                "middle".to_owned()
            } else if 2 <= zone && zone <= 4 {
                "start".to_owned()
            } else {
                "end".to_owned()
            }
        },
    }
}

} // verus!
