use vstd::prelude::*;
use vstd::string::StringExecFns;
use vstd::utf8::encode_utf8;

use crate::text::{chars_of, decimal, decimal_digits, occurs_at, push_all, string_from_chars};

verus! {

/// `s` with each non-overlapping occurrence of `pat`, taken from the left, replaced by
/// `rep`: what `str::replace` gives for a non-empty pattern.
pub open spec fn replaced(s: Seq<char>, pat: Seq<char>, rep: Seq<char>) -> Seq<char>
    decreases s.len(),
{
    if s.len() == 0 {
        Seq::empty()
    } else if 0 < pat.len() <= s.len() && s.subrange(0, pat.len() as int) == pat {
        rep + replaced(s.skip(pat.len() as int), pat, rep)
    } else {
        seq![s[0]] + replaced(s.skip(1), pat, rep)
    }
}

/// Replaces each non-overlapping occurrence of `pat` in `s`, taken from the left, by `rep`.
pub fn replace_text(s: &str, pat: &str, rep: &str) -> (r: String)
    requires
        pat@.len() > 0,
    ensures
        r@ == replaced(s@, pat@, rep@),
{
    let v = chars_of(s);
    let p = chars_of(pat);
    let q = chars_of(rep);
    let mut out: Vec<char> = Vec::new();
    let mut i: usize = 0;
    assert(v@.skip(0) =~= v@);
    while i < v.len()
        invariant
            i <= v@.len(),
            p@.len() > 0,
            replaced(v@, p@, q@) == out@ + replaced(v@.skip(i as int), p@, q@),
        decreases v.len() - i,
    {
        let ghost rest = v@.skip(i as int);
        if occurs_at(&v, i, &p) {
            proof {
                assert(rest.subrange(0, p@.len() as int) =~= v@.subrange(i as int, i + p@.len()));
                assert(rest.skip(p@.len() as int) =~= v@.skip(i + p@.len()));
                assert(out@ + q@ + replaced(v@.skip(i + p@.len()), p@, q@) =~= out@ + (q@
                    + replaced(v@.skip(i + p@.len()), p@, q@)));
            }
            push_all(&mut out, &q);
            i = i + p.len();
        } else {
            proof {
                if 0 < p@.len() <= rest.len() {
                    assert(rest.subrange(0, p@.len() as int) =~= v@.subrange(
                        i as int,
                        i + p@.len(),
                    ));
                }
                assert(rest.skip(1) =~= v@.skip(i + 1));
                assert(out@.push(v@[i as int]) + replaced(v@.skip(i + 1), p@, q@) =~= out@ + (seq![
                    rest[0],
                ] + replaced(rest.skip(1), p@, q@)));
            }
            out.push(v[i]);
            i = i + 1;
        }
    }
    proof {
        assert(out@ + Seq::<char>::empty() =~= out@);
    }
    string_from_chars(&out)
}

/// The decimal values of the bytes, separated by commas.
pub open spec fn joined_bytes(b: Seq<u8>) -> Seq<char>
    decreases b.len(),
{
    if b.len() == 0 {
        Seq::empty()
    } else if b.len() == 1 {
        decimal(b[0] as nat)
    } else {
        joined_bytes(b.drop_last()) + seq![','] + decimal(b.last() as nat)
    }
}

/// The Typst expression of a byte string: `bytes((` then the values of the bytes, separated
/// by commas, then `))`.
pub open spec fn typst_bytes(b: Seq<u8>) -> Seq<char> {
    "bytes(("@ + joined_bytes(b) + "))"@
}

/// The Typst expression of the UTF-8 bytes of `utf8`, such as `bytes((104,105))` for `hi`.
pub fn get_typst_bytes(utf8: &str) -> (r: String)
    ensures
        r@ == typst_bytes(encode_utf8(utf8@)),
{
    let bytes = utf8.as_bytes();
    let mut out: Vec<char> = Vec::new();
    let mut i: usize = 0;
    while i < bytes.len()
        invariant
            i <= bytes@.len(),
            bytes@ == encode_utf8(utf8@),
            out@ == joined_bytes(bytes@.take(i as int)),
        decreases bytes.len() - i,
    {
        let ghost before = out@;
        if i > 0 {
            out.push(',');
        }
        let digits = decimal_digits(bytes[i] as u64);
        push_all(&mut out, &digits);
        proof {
            let t = bytes@.take(i + 1);
            assert(t.drop_last() =~= bytes@.take(i as int));
            if i == 0 {
                assert(before =~= Seq::<char>::empty());
                assert(out@ =~= decimal(t[0] as nat));
            } else {
                assert(out@ =~= before + seq![','] + decimal(t.last() as nat));
            }
        }
        i = i + 1;
    }
    assert(bytes@.take(bytes@.len() as int) =~= bytes@);
    let mut r = "bytes((".to_owned();
    r.append(string_from_chars(&out).as_str());
    r.append("))");
    r
}

/// The templates of the Typst document: its header, the page of a segment and the table
/// of its points.
pub struct Templates {
    pub header: String,
    pub table_large: String,
    pub table_points: String,
}

impl Templates {
    /// The templates, from the texts of `header.typ`, `table-large.typ` and
    /// `table-points.typ`.
    pub fn new(header: &str, table_large: &str, table_points: &str) -> (r: Templates)
        ensures
            r.header@ == header@,
            r.table_large@ == table_large@,
            r.table_points@ == table_points@,
    {
        Templates {
            header: header.to_owned(),
            table_large: table_large.to_owned(),
            table_points: table_points.to_owned(),
        }
    }
}

/// The page of a segment: the large table template with its three places filled.
pub open spec fn linked_page(
    table_large: Seq<char>,
    profilesvg: Seq<char>,
    mapsvg: Seq<char>,
    points_table: Seq<char>,
) -> Seq<char> {
    let t1 = replaced(table_large, "{table-points}"@, points_table);
    let t2 = replaced(t1, "{profile.svg}"@, typst_bytes(encode_utf8(profilesvg)));
    replaced(t2, "{map.svg}"@, typst_bytes(encode_utf8(mapsvg)))
}

/// Appends to `document` the page of a segment: the large table template with the table
/// of points, the profile and the map put in their places.
pub fn link(
    templates: &Templates,
    profilesvg: &str,
    mapsvg: &str,
    points_table: &String,
    document: &mut String,
)
    ensures
        final(document)@ == old(document)@ + linked_page(
            templates.table_large@,
            profilesvg@,
            mapsvg@,
            points_table@,
        ),
{
    proof {
        reveal_strlit("{table-points}");
        reveal_strlit("{profile.svg}");
        reveal_strlit("{map.svg}");
    }
    let t1 = replace_text(templates.table_large.as_str(), "{table-points}", points_table.as_str());
    let profile = get_typst_bytes(profilesvg);
    let t2 = replace_text(t1.as_str(), "{profile.svg}", profile.as_str());
    let map = get_typst_bytes(mapsvg);
    let t3 = replace_text(t2.as_str(), "{map.svg}", map.as_str());
    document.append(t3.as_str());
}

/// The pages of the document among segments with the given ranges of track points: the
/// indices of the segments that get a page, and whether a page reaching the end of the
/// track was met. A segment with an empty range gets no page; no page follows the one
/// that reaches the end of the track.
pub open spec fn page_run(ranges: Seq<std::ops::Range<usize>>, track_len: usize) -> (
    Seq<usize>,
    bool,
)
    decreases ranges.len(),
{
    if ranges.len() == 0 {
        (Seq::empty(), false)
    } else {
        let (pages, done) = page_run(ranges.drop_last(), track_len);
        let r = ranges.last();
        if done || !(r.start < r.end) {
            (pages, done)
        } else {
            (pages.push((ranges.len() - 1) as usize), r.end == track_len)
        }
    }
}

/// The indices of the segments that get a page of the document, in order (see
/// `page_run`).
pub fn document_pages(ranges: &Vec<std::ops::Range<usize>>, track_len: usize) -> (r: Vec<usize>)
    ensures
        r@ == page_run(ranges@, track_len).0,
{
    let mut pages: Vec<usize> = Vec::new();
    let mut i: usize = 0;
    while i < ranges.len()
        invariant
            i <= ranges@.len(),
            page_run(ranges@.take(i as int), track_len) == (pages@, false),
        decreases ranges.len() - i,
    {
        proof {
            assert(ranges@.take(i + 1).drop_last() =~= ranges@.take(i as int));
        }
        let start = ranges[i].start;
        let end = ranges[i].end;
        if start < end {
            pages.push(i);
            if end == track_len {
                proof {
                    lemma_page_run_stays_done(ranges@, track_len, i + 1);
                }
                return pages;
            }
        }
        i = i + 1;
    }
    proof {
        assert(ranges@.take(ranges@.len() as int) =~= ranges@);
    }
    pages
}

proof fn lemma_page_run_stays_done(ranges: Seq<std::ops::Range<usize>>, track_len: usize, k: int)
    requires
        0 <= k <= ranges.len(),
        page_run(ranges.take(k), track_len).1,
    ensures
        page_run(ranges, track_len) == page_run(ranges.take(k), track_len),
    decreases ranges.len() - k,
{
    if k < ranges.len() {
        assert(ranges.take(k + 1).drop_last() =~= ranges.take(k));
        lemma_page_run_stays_done(ranges, track_len, k + 1);
    } else {
        assert(ranges.take(k) =~= ranges);
    }
}

} // verus!
