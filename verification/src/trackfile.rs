use vstd::prelude::*;

use crate::text::{chars_of, format_zero_padded_unsigned, push_all, string_from_chars, zero_padded};

verus! {

/// The error of `serde_json`.
#[verifier::external_type_specification]
#[verifier::external_body]
pub struct ExJsonError(serde_json::Error);

/// Errors in reading or writing track data.
#[derive(Debug, Clone, Copy, PartialEq, Eq, Structural)]
pub enum TrackError {
    IOError,
    MissingElevation { index: usize },
}

/// The name of a file of track number `number`: the number zero-padded to eight
/// characters, a dot, then the suffix.
pub open spec fn spec_basename(number: usize, suffix: Seq<char>) -> Seq<char> {
    zero_padded(number as int, 8) + seq!['.'] + suffix
}

/// The name of a file of track number `number`, such as `00000012.track.gpx`.
pub fn basename(number: usize, suffix: &str) -> (r: String)
    ensures
        r@ == spec_basename(number, suffix@),
{
    let mut v = format_zero_padded_unsigned(number as u64, 8);
    v.push('.');
    let s = chars_of(suffix);
    push_all(&mut v, &s);
    string_from_chars(&v)
}

/// The suffix of the file that describes a track.
pub open spec fn trackfile_suffix() -> Seq<char> {
    "trackfile.json"@
}

/// Whether `name` ends with `suffix`.
pub open spec fn ends_with(name: Seq<char>, suffix: Seq<char>) -> bool {
    suffix.len() <= name.len() && name.skip(name.len() - suffix.len()) == suffix
}

/// Whether `name` starts with `prefix`.
pub open spec fn starts_with(name: Seq<char>, prefix: Seq<char>) -> bool {
    prefix.len() <= name.len() && name.take(prefix.len() as int) == prefix
}

/// Whether `s` ends with `suffix`.
fn ends_with_chars(s: &String, suffix: &Vec<char>) -> (r: bool)
    ensures
        r == ends_with(s@, suffix@),
{
    let v = chars_of(s.as_str());
    if suffix.len() > v.len() {
        return false;
    }
    let off = v.len() - suffix.len();
    let mut i: usize = 0;
    while i < suffix.len()
        invariant
            off + suffix.len() == v.len(),
            v@ == s@,
            i <= suffix@.len(),
            forall|m: int| 0 <= m < i ==> v@[off + m] == suffix@[m],
        decreases suffix.len() - i,
    {
        if v[off + i] != suffix[i] {
            assert(v@.skip(off as int)[i as int] != suffix@[i as int]);
            return false;
        }
        i = i + 1;
    }
    assert(v@.skip(off as int) =~= suffix@);
    true
}

/// Whether `s` starts with `prefix`.
fn starts_with_chars(s: &String, prefix: &Vec<char>) -> (r: bool)
    ensures
        r == starts_with(s@, prefix@),
{
    let v = chars_of(s.as_str());
    if prefix.len() > v.len() {
        return false;
    }
    let mut i: usize = 0;
    while i < prefix.len()
        invariant
            prefix@.len() <= v@.len(),
            v@ == s@,
            i <= prefix@.len(),
            forall|m: int| 0 <= m < i ==> v@[m] == prefix@[m],
        decreases prefix.len() - i,
    {
        if v[i] != prefix[i] {
            assert(v@.take(prefix@.len() as int)[i as int] != prefix@[i as int]);
            return false;
        }
        i = i + 1;
    }
    assert(v@.take(prefix@.len() as int) =~= prefix@);
    true
}

/// Whether a name ends (`by_suffix`) or starts with `pattern`.
pub open spec fn matches_pattern(e: Seq<char>, pattern: Seq<char>, by_suffix: bool) -> bool {
    if by_suffix {
        ends_with(e, pattern)
    } else {
        starts_with(e, pattern)
    }
}

/// The names of a listing.
pub open spec fn names_of(entries: Seq<String>) -> Seq<Seq<char>> {
    entries.map_values(|e: String| e@)
}

/// The entries of a listing whose name ends (`by_suffix`) or starts with `pattern`.
fn filter_entries(entries: &Vec<String>, pattern: &Vec<char>, by_suffix: bool) -> (r: Vec<String>)
    ensures
        names_of(r@) == names_of(entries@).filter(
            |e: Seq<char>| matches_pattern(e, pattern@, by_suffix),
        ),
{
    let ghost names = names_of(entries@);
    let ghost keep = |e: Seq<char>| matches_pattern(e, pattern@, by_suffix);
    let mut ret: Vec<String> = Vec::new();
    let mut i: usize = 0;
    while i < entries.len()
        invariant
            i <= entries@.len(),
            names == names_of(entries@),
            keep == (|e: Seq<char>| matches_pattern(e, pattern@, by_suffix)),
            names_of(ret@) == names.take(i as int).filter(keep),
        decreases entries.len() - i,
    {
        let e = &entries[i];
        proof {
            assert(names.take(i + 1) =~= names.take(i as int).push(e@));
            names.take(i as int).lemma_filter_push(e@, keep);
        }
        let kept = if by_suffix { ends_with_chars(e, pattern) } else { starts_with_chars(e, pattern) };
        if kept {
            let ghost before = ret@;
            ret.push(e.clone());
            proof {
                assert(names_of(ret@) =~= names_of(before).push(e@));
            }
        }
        i = i + 1;
    }
    proof {
        assert(names.take(entries@.len() as int) =~= names);
    }
    ret
}

/// The entries of a listing that describe a track: those whose name ends with
/// `trackfile.json`.
pub fn trackfile_entries(entries: &Vec<String>) -> (r: Vec<String>)
    ensures
        names_of(r@) == names_of(entries@).filter(|e: Seq<char>| ends_with(e, trackfile_suffix())),
{
    let suffix = chars_of("trackfile.json");
    let r = filter_entries(entries, &suffix, true);
    proof {
        assert(suffix@ == trackfile_suffix());
        assert((|e: Seq<char>| matches_pattern(e, suffix@, true)) =~= (|e: Seq<char>| ends_with(
            e,
            trackfile_suffix(),
        )));
    }
    r
}

/// The entries of a listing that belong to track `number`: those whose name starts with
/// its number, zero-padded to eight characters, and a dot.
pub fn entries_of_track(entries: &Vec<String>, number: usize) -> (r: Vec<String>)
    ensures
        names_of(r@) == names_of(entries@).filter(
            |e: Seq<char>| starts_with(e, spec_basename(number, Seq::empty())),
        ),
{
    let prefix = chars_of(basename(number, "").as_str());
    proof {
        reveal_strlit("");
        assert(""@ =~= Seq::<char>::empty());
    }
    let r = filter_entries(entries, &prefix, false);
    proof {
        assert(prefix@ == spec_basename(number, Seq::empty()));
        assert((|e: Seq<char>| matches_pattern(e, prefix@, false)) =~= (|e: Seq<char>| starts_with(
            e,
            spec_basename(number, Seq::empty()),
        )));
    }
    r
}

/// The largest number tried for a new track.
pub open spec fn max_track_number() -> int {
    1_000_000
}

/// Whether the listing holds the description file of track `number`.
pub open spec fn number_taken(entries: Seq<String>, number: int) -> bool {
    exists|i: int|
        0 <= i < entries.len() && #[trigger] entries[i]@ == spec_basename(
            number as usize,
            trackfile_suffix(),
        )
}

/// The number for a new track: the smallest one whose description file the listing does
/// not hold; an error when all numbers up to a million are taken.
pub fn free_track_number(entries: &Vec<String>) -> (r: Result<usize, TrackError>)
    ensures
        match r {
            Ok(n) => n <= max_track_number() && !number_taken(entries@, n as int) && forall|m: int|
                0 <= m < n ==> number_taken(entries@, m),
            Err(e) => e == TrackError::IOError && forall|m: int|
                0 <= m <= max_track_number() ==> number_taken(entries@, m),
        },
{
    let mut candidate: usize = 0;
    loop
        invariant
            candidate <= max_track_number(),
            forall|m: int| 0 <= m < candidate ==> number_taken(entries@, m),
        decreases max_track_number() - candidate,
    {
        let name = basename(candidate, "trackfile.json");
        let mut found = false;
        let mut i: usize = 0;
        while i < entries.len()
            invariant
                i <= entries@.len(),
                name@ == spec_basename(candidate, trackfile_suffix()),
                found ==> number_taken(entries@, candidate as int),
                !found ==> forall|j: int| 0 <= j < i ==> entries@[j]@ != name@,
            decreases entries.len() - i,
        {
            if entries[i] == name {
                found = true;
            }
            i = i + 1;
        }
        if !found {
            return Ok(candidate);
        }
        if candidate == 1_000_000 {
            return Err(TrackError::IOError);
        }
        candidate = candidate + 1;
    }
}

/// The GPX text of a track.
#[derive(Debug)]
pub struct TrackDataset {
    gpx: String,
}

impl Clone for TrackDataset {
    fn clone(&self) -> (r: Self)
        ensures
            r.text() == self.text(),
    {
        Self { gpx: self.gpx.clone() }
    }
}

impl TrackDataset {
    /// The GPX text held.
    pub closed spec fn text(&self) -> Seq<char> {
        self.gpx@
    }

    /// Holds `data` as the GPX text; this cannot fail.
    pub fn from_string(data: &str) -> (r: Result<Self, TrackError>)
        ensures
            r matches Ok(d) && d.text() == data@,
    {
        Ok(Self { gpx: data.to_owned() })
    }

    /// The GPX text held; this cannot fail.
    pub fn as_string(&self) -> (r: Result<String, serde_json::Error>)
        ensures
            r matches Ok(s) && s@ == self.text(),
    {
        Ok(self.gpx.clone())
    }
}

/// The GPX text of the controls of a track.
#[derive(Debug)]
pub struct ControlDataset {
    gpx: String,
}

impl Clone for ControlDataset {
    fn clone(&self) -> (r: Self)
        ensures
            r.text() == self.text(),
    {
        Self { gpx: self.gpx.clone() }
    }
}

impl ControlDataset {
    /// The GPX text held.
    pub closed spec fn text(&self) -> Seq<char> {
        self.gpx@
    }

    /// A dataset with an empty text.
    pub fn empty() -> (r: Self)
        ensures
            r.text() == Seq::<char>::empty(),
    {
        Self { gpx: String::new() }
    }

    /// Holds `data` as the GPX text; this cannot fail.
    pub fn from_string(data: &str) -> (r: Result<Self, TrackError>)
        ensures
            r matches Ok(d) && d.text() == data@,
    {
        Ok(Self { gpx: data.to_owned() })
    }

    /// The GPX text held; this cannot fail.
    pub fn as_string(&self) -> (r: Result<String, serde_json::Error>)
        ensures
            r matches Ok(s) && s@ == self.text(),
    {
        Ok(self.gpx.clone())
    }
}

} // verus!
