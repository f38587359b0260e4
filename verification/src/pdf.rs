use vstd::prelude::*;

use crate::text::{chars_of, occurs_at, push_all, string_from_chars, trim, trimmed};

verus! {

/// The address of the server that compiles documents and serves the fonts.
pub open spec fn host_address() -> Seq<char> {
    "https://vps-e637d6c5.vps.ovh.net:8123"@
}

/// The key that opens the line of `pubspec.yaml` giving the version.
pub open spec fn version_key() -> Seq<char> {
    seq!['v', 'e', 'r', 's', 'i', 'o', 'n', ':']
}

/// Whether a line of `s` starts at position `p`.
pub open spec fn line_start(s: Seq<char>, p: int) -> bool {
    0 <= p <= s.len() && (p == 0 || s[p - 1] == '\n')
}

/// Whether the line starting at `p` starts with `version:`.
pub open spec fn version_line_at(s: Seq<char>, p: int) -> bool {
    line_start(s, p) && p + version_key().len() <= s.len() && s.subrange(
        p,
        p + version_key().len(),
    ) == version_key()
}

/// The first position at or after `p` where a line starting with `version:` begins.
pub open spec fn first_version_line_from(s: Seq<char>, p: int) -> Option<int>
    decreases s.len() + 1 - p,
{
    if p < 0 || p > s.len() {
        None
    } else if version_line_at(s, p) {
        Some(p)
    } else {
        first_version_line_from(s, p + 1)
    }
}

/// Where the line holding position `p` ends: the next newline at or after `p`, or the end.
pub open spec fn line_end(s: Seq<char>, p: int) -> int
    decreases s.len() - p,
{
    if p < 0 || p >= s.len() {
        s.len() as int
    } else if s[p] == '\n' {
        p
    } else {
        line_end(s, p + 1)
    }
}

/// Whether some line of `s` starts with `version:`.
pub open spec fn declares_version(s: Seq<char>) -> bool {
    first_version_line_from(s, 0) is Some
}

/// The version that `s` declares: what follows `version:` on the first line that starts
/// with it, without surrounding whitespace.
pub open spec fn ui_version(s: Seq<char>) -> Seq<char> {
    let p = first_version_line_from(s, 0)->0;
    let from = p + version_key().len();
    trimmed(s.subrange(from, line_end(s, from)))
}

/// The address of the server, followed by a slash and the version that `pubspec` declares.
pub open spec fn host_with_version(pubspec: Seq<char>) -> Seq<char> {
    host_address() + seq!['/'] + ui_version(pubspec)
}

/// The folder of the fonts under an address.
pub open spec fn fonts_folder() -> Seq<char> {
    "/assets/fonts/"@
}

proof fn lemma_first_version_line_bounds(s: Seq<char>, p: int)
    ensures
        first_version_line_from(s, p) matches Some(q) ==> p <= q && version_line_at(s, q),
    decreases s.len() + 1 - p,
{
    if 0 <= p <= s.len() && !version_line_at(s, p) {
        lemma_first_version_line_bounds(s, p + 1);
    }
}

proof fn lemma_line_end_bounds(s: Seq<char>, p: int)
    requires
        0 <= p <= s.len(),
    ensures
        p <= line_end(s, p) <= s.len(),
    decreases s.len() - p,
{
    if p < s.len() && s[p] != '\n' {
        lemma_line_end_bounds(s, p + 1);
    }
}

/// The address of the server that compiles documents and serves the fonts.
pub fn get_host() -> (r: String)
    ensures
        r@ == host_address(),
{
    "https://vps-e637d6c5.vps.ovh.net:8123".to_owned()
}

fn version_key_chars() -> (v: Vec<char>)
    ensures
        v@ == version_key(),
{
    let v = vec!['v', 'e', 'r', 's', 'i', 'o', 'n', ':'];
    assert(v@ =~= version_key());
    v
}

/// The position where the first line starting with `version:` begins.
fn find_version_line(v: &Vec<char>) -> (r: Option<usize>)
    ensures
        r matches Some(p) ==> first_version_line_from(v@, 0) == Some(p as int),
        r is None ==> first_version_line_from(v@, 0) is None,
{
    let key = version_key_chars();
    let mut p: usize = 0;
    while p < v.len()
        invariant
            p <= v@.len(),
            key@ == version_key(),
            first_version_line_from(v@, 0) == first_version_line_from(v@, p as int),
        decreases v.len() - p,
    {
        if (p == 0 || v[p - 1] == '\n') && occurs_at(v, p, &key) {
            return Some(p);
        }
        p = p + 1;
    }
    proof {
        assert(!version_line_at(v@, v@.len() as int));
        assert(first_version_line_from(v@, v@.len() + 1int) is None);
    }
    None
}

/// Whether some line of `pubspec` starts with `version:`.
pub fn has_version(pubspec: &str) -> (r: bool)
    ensures
        r == declares_version(pubspec@),
{
    let v = chars_of(pubspec);
    find_version_line(&v).is_some()
}

/// The version that the text of `pubspec.yaml` declares.
fn extract_ui_version(pubspec: &str) -> (r: Vec<char>)
    requires
        declares_version(pubspec@),
    ensures
        r@ == ui_version(pubspec@),
{
    let v = chars_of(pubspec);
    let p = match find_version_line(&v) {
        Some(p) => p,
        None => {
            proof {
                assert(false);
            }
            0
        },
    };
    proof {
        lemma_first_version_line_bounds(v@, 0);
        assert(version_key().len() == 8);
        assert(p + 8 <= v.len());
    }
    let from: usize = p + 8;
    let mut q: usize = from;
    proof {
        lemma_line_end_bounds(v@, from as int);
    }
    while q < v.len() && v[q] != '\n'
        invariant
            from <= q <= v@.len(),
            line_end(v@, from as int) == line_end(v@, q as int),
        decreases v.len() - q,
    {
        q = q + 1;
    }
    let mut line: Vec<char> = Vec::new();
    let mut k: usize = from;
    while k < q
        invariant
            from <= k <= q <= v@.len(),
            line@ == v@.subrange(from as int, k as int),
        decreases q - k,
    {
        line.push(v[k]);
        proof {
            assert(v@.subrange(from as int, k + 1) =~= v@.subrange(from as int, k as int).push(
                v@[k as int],
            ));
        }
        k = k + 1;
    }
    trim(&line)
}

/// The address of the server followed by a slash and the version of the interface, such as
/// `https://localhost:8124/0.5.0+3`.
pub fn get_host_with_version(pubspec: &str) -> (r: String)
    requires
        declares_version(pubspec@),
    ensures
        r@ == host_with_version(pubspec@),
{
    let mut v = chars_of(get_host().as_str());
    v.push('/');
    let version = extract_ui_version(pubspec);
    push_all(&mut v, &version);
    string_from_chars(&v)
}

/// The address of the font file `name`, such as
/// `https://localhost:8124/0.5.0+3/assets/fonts/LibertinusSerif-Regular.ttf`.
pub fn get_font_url(pubspec: &str, name: &str) -> (r: String)
    requires
        declares_version(pubspec@),
    ensures
        r@ == host_with_version(pubspec@) + fonts_folder() + name@,
{
    let mut v = chars_of(get_host_with_version(pubspec).as_str());
    let folder = chars_of("/assets/fonts/");
    push_all(&mut v, &folder);
    let n = chars_of(name);
    push_all(&mut v, &n);
    string_from_chars(&v)
}

} // verus!
