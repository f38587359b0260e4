use vstd::prelude::*;

use crate::parameters::TrackPart;
use crate::text::{chars_of, push_all, string_from_chars};

verus! {

/// The total length of the first `k` parts.
pub open spec fn offset(parts: Seq<TrackPart>, k: int) -> nat
    decreases k,
{
    if k <= 0 || parts.len() == 0 {
        0
    } else {
        offset(parts, k - 1) + parts[k - 1].length as nat
    }
}

proof fn lemma_offset_monotone(parts: Seq<TrackPart>, a: int, b: int)
    requires
        0 <= a <= b <= parts.len(),
    ensures
        offset(parts, a) <= offset(parts, b),
    decreases b - a,
{
    if a < b {
        lemma_offset_monotone(parts, a, b - 1);
    }
}

/// The range of point indices that each part covers: the parts follow each other, the
/// first starting at index 0.
pub fn parts_to_ranges(parts: &Vec<TrackPart>) -> (r: Vec<std::ops::Range<usize>>)
    requires
        offset(parts@, parts@.len() as int) <= usize::MAX,
    ensures
        r@.len() == parts@.len(),
        forall|i: int|
            #![trigger r@[i]]
            0 <= i < r@.len() ==> r@[i].start == offset(parts@, i) && r@[i].end == offset(
                parts@,
                i + 1,
            ),
{
    let mut ret: Vec<std::ops::Range<usize>> = Vec::new();
    let mut offset_so_far: usize = 0;
    let mut i: usize = 0;
    while i < parts.len()
        invariant
            i <= parts@.len(),
            offset(parts@, parts@.len() as int) <= usize::MAX,
            offset_so_far == offset(parts@, i as int),
            ret@.len() == i,
            forall|j: int|
                #![trigger ret@[j]]
                0 <= j < i ==> ret@[j].start == offset(parts@, j) && ret@[j].end == offset(
                    parts@,
                    j + 1,
                ),
        decreases parts.len() - i,
    {
        proof {
            lemma_offset_monotone(parts@, i + 1, parts@.len() as int);
        }
        let start = offset_so_far;
        offset_so_far = offset_so_far + parts[i].length;
        ret.push(std::ops::Range { start: start, end: offset_so_far });
        i = i + 1;
    }
    ret
}

/// Consecutive parts cover consecutive ranges, without gap or overlap.
pub proof fn law_parts_ranges_are_contiguous(parts: Seq<TrackPart>, i: int)
    requires
        0 <= i < parts.len(),
    ensures
        offset(parts, i + 1) == offset(parts, i) + parts[i].length,
        offset(parts, 0) == 0,
{
}

/// A named range of point indices of a track.
pub struct TrackSegment {
    pub name: String,
    pub range: std::ops::Range<usize>,
}

impl View for TrackSegment {
    type V = (Seq<char>, usize, usize);

    open spec fn view(&self) -> (Seq<char>, usize, usize) {
        (self.name@, self.range.start, self.range.end)
    }
}

/// A control as the cutting of a track into segments sees it: its name and the index of
/// the track point where it stands.
pub struct ControlPosition {
    pub name: String,
    pub track_index: usize,
}

/// The name of the segment that leads to the control named `name`.
pub open spec fn to_name(name: Seq<char>) -> Seq<char> {
    seq!['t', 'o', ' '] + name
}

/// The segments that lead from control to control, with the index where the last one
/// ends. A control at index 0 (the start) opens the first segment and gives none.
pub open spec fn control_segments(controls: Seq<(Seq<char>, usize)>) -> (
    Seq<(Seq<char>, usize, usize)>,
    usize,
)
    decreases controls.len(),
{
    if controls.len() == 0 {
        (Seq::empty(), 0)
    } else {
        let (segments, start) = control_segments(controls.drop_last());
        let (name, index) = controls.last();
        if index == 0 {
            (segments, start)
        } else {
            (segments.push((to_name(name), start, (index + 1) as usize)), index)
        }
    }
}

/// The segments of a track of `track_len` points cut at its controls: one leading to
/// each control, then one `to end` if the last control stands before the last point.
pub open spec fn track_segments(controls: Seq<(Seq<char>, usize)>, track_len: usize) -> Seq<
    (Seq<char>, usize, usize),
> {
    let (segments, start) = control_segments(controls);
    if start < track_len - 1 {
        segments.push((seq!['t', 'o', ' ', 'e', 'n', 'd'], start, track_len))
    } else {
        segments
    }
}

/// The name and index of each control.
pub open spec fn positions(controls: Seq<ControlPosition>) -> Seq<(Seq<char>, usize)> {
    controls.map_values(|c: ControlPosition| (c.name@, c.track_index))
}

/// Cuts a track of `track_len` points into the segments that lead from control to control
/// (see `track_segments`).
pub fn controls_to_segments(track_len: usize, controls: &Vec<ControlPosition>) -> (r: Vec<
    TrackSegment,
>)
    requires
        track_len > 0,
        forall|i: int| 0 <= i < controls@.len() ==> #[trigger] controls@[i].track_index < usize::MAX,
    ensures
        r@.map_values(|s: TrackSegment| s@) == track_segments(positions(controls@), track_len),
{
    let mut ret: Vec<TrackSegment> = Vec::new();
    let mut start: usize = 0;
    let mut i: usize = 0;
    while i < controls.len()
        invariant
            i <= controls@.len(),
            forall|j: int| 0 <= j < controls@.len() ==> #[trigger] controls@[j].track_index < usize::MAX,
            (ret@.map_values(|s: TrackSegment| s@), start) == control_segments(
                positions(controls@).take(i as int),
            ),
        decreases controls.len() - i,
    {
        let ghost before = ret@;
        let control = &controls[i];
        let last_index = control.track_index;
        proof {
            assert(positions(controls@).take(i + 1).drop_last() =~= positions(controls@).take(
                i as int,
            ));
        }
        if last_index != 0 {
            let mut name: Vec<char> = vec!['t', 'o', ' '];
            let n = chars_of(control.name.as_str());
            push_all(&mut name, &n);
            ret.push(TrackSegment {
                name: string_from_chars(&name),
                range: std::ops::Range { start: start, end: last_index + 1 },
            });
            proof {
                assert(name@ =~= to_name(control.name@));
                assert(ret@.map_values(|s: TrackSegment| s@) =~= before.map_values(
                    |s: TrackSegment| s@,
                ).push((to_name(control.name@), start, (last_index + 1) as usize)));
            }
            start = last_index;
        }
        i = i + 1;
    }
    proof {
        assert(positions(controls@).take(controls@.len() as int) =~= positions(controls@));
    }
    if start < track_len - 1 {
        let ghost before = ret@;
        let name = vec!['t', 'o', ' ', 'e', 'n', 'd'];
        ret.push(TrackSegment {
            name: string_from_chars(&name),
            range: std::ops::Range { start: start, end: track_len },
        });
        proof {
            assert(ret@.map_values(|s: TrackSegment| s@) =~= before.map_values(
                |s: TrackSegment| s@,
            ).push((name@, start, track_len)));
            assert(name@ =~= seq!['t', 'o', ' ', 'e', 'n', 'd']);
        }
    }
    ret
}

/// The segments between controls follow each other along the track: the first starts at
/// the first point, and each next one starts at the point where the previous one ends
/// (its last point, the control).
pub proof fn law_segments_follow_each_other(controls: Seq<(Seq<char>, usize)>)
    requires
        forall|i: int| 0 <= i < controls.len() ==> (#[trigger] controls[i]).1 < usize::MAX,
    ensures
        ({
            let (segments, start) = control_segments(controls);
            &&& segments.len() > 0 ==> segments[0].1 == 0
            &&& forall|i: int|
                0 <= i < segments.len() - 1 ==> #[trigger] segments[i + 1].1 + 1 == segments[i].2
            &&& segments.len() > 0 ==> segments.last().2 == start + 1
            &&& segments.len() == 0 ==> start == 0
        }),
    decreases controls.len(),
{
    if controls.len() > 0 {
        let rest = controls.drop_last();
        assert forall|i: int| 0 <= i < rest.len() implies (#[trigger] rest[i]).1 < usize::MAX by {
            assert(rest[i] == controls[i]);
        }
        law_segments_follow_each_other(rest);
    }
}

} // verus!
