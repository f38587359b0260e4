use vstd::prelude::*;

use std::collections::BTreeSet;

use crate::ordered::{sorted_indices, strictly_increasing};
use crate::parameters::TrackPart;
use crate::trackparts::{offset, parts_to_ranges};

verus! {

/// A step point of the track: the index of the track point where it is placed, and the
/// indices of the other track points that pass as close to it.
#[derive(Debug)]
pub struct Point {
    pub primary: usize,
    pub secondary: Vec<usize>,
}

/// A point as `(primary, secondary)`.
pub type PointView = (usize, Seq<usize>);

impl View for Point {
    type V = PointView;

    open spec fn view(&self) -> PointView {
        (self.primary, self.secondary@)
    }
}

impl Clone for Point {
    fn clone(&self) -> (r: Self)
        ensures
            r@ == self@,
    {
        let secondary = self.secondary.clone();
        proof {
            assert(secondary@ =~= self.secondary@);
        }
        Point { primary: self.primary, secondary }
    }
}

/// The views of a sequence of points.
pub open spec fn views(points: Seq<Point>) -> Seq<PointView> {
    points.map_values(|p: Point| p@)
}

/// Whether `x` lies in the half-open range `start..end`.
pub open spec fn in_range(x: int, start: int, end: int) -> bool {
    start <= x < end
}

/// How many entries of `sec` lie in `start..end`.
pub open spec fn count_in(sec: Seq<usize>, start: int, end: int) -> nat
    decreases sec.len(),
{
    if sec.len() == 0 {
        0
    } else {
        count_in(sec.drop_last(), start, end) + if in_range(sec.last() as int, start, end) {
            1nat
        } else {
            0nat
        }
    }
}

/// The ambiguities of a range: over the points placed in the range, the number of their
/// other close track points that lie in the range as well.
pub open spec fn ambiguities(points: Seq<PointView>, start: int, end: int) -> nat
    decreases points.len(),
{
    if points.len() == 0 {
        0
    } else {
        ambiguities(points.drop_last(), start, end) + if in_range(
            points.last().0 as int,
            start,
            end,
        ) {
            count_in(points.last().1, start, end)
        } else {
            0nat
        }
    }
}

/// The number of secondary indices over all points.
pub open spec fn secondary_total(points: Seq<PointView>) -> nat
    decreases points.len(),
{
    if points.len() == 0 {
        0
    } else {
        secondary_total(points.drop_last()) + points.last().1.len()
    }
}

/// The points whose primary index lies outside `start..end`, in their order.
pub open spec fn remove_in_range(points: Seq<PointView>, start: int, end: int) -> Seq<PointView>
    decreases points.len(),
{
    if points.len() == 0 {
        points
    } else if in_range(points.last().0 as int, start, end) {
        remove_in_range(points.drop_last(), start, end)
    } else {
        remove_in_range(points.drop_last(), start, end).push(points.last())
    }
}

proof fn lemma_count_in_bound(sec: Seq<usize>, start: int, end: int)
    ensures
        count_in(sec, start, end) <= sec.len(),
    decreases sec.len(),
{
    if sec.len() > 0 {
        lemma_count_in_bound(sec.drop_last(), start, end);
    }
}

proof fn lemma_count_in_prefix(sec: Seq<usize>, k: int, start: int, end: int)
    requires
        0 <= k <= sec.len(),
    ensures
        count_in(sec.take(k), start, end) <= count_in(sec, start, end),
    decreases sec.len() - k,
{
    if k < sec.len() {
        lemma_count_in_prefix(sec, k + 1, start, end);
        assert(sec.take(k + 1).drop_last() =~= sec.take(k));
    } else {
        assert(sec.take(k) =~= sec);
    }
}

proof fn lemma_ambiguities_bound(points: Seq<PointView>, start: int, end: int)
    ensures
        ambiguities(points, start, end) <= secondary_total(points),
    decreases points.len(),
{
    if points.len() > 0 {
        lemma_ambiguities_bound(points.drop_last(), start, end);
        lemma_count_in_bound(points.last().1, start, end);
    }
}

proof fn lemma_remove_total(points: Seq<PointView>, start: int, end: int)
    ensures
        secondary_total(remove_in_range(points, start, end)) <= secondary_total(points),
    decreases points.len(),
{
    if points.len() > 0 {
        lemma_remove_total(points.drop_last(), start, end);
        let rest = remove_in_range(points.drop_last(), start, end);
        if !in_range(points.last().0 as int, start, end) {
            assert(rest.push(points.last()).drop_last() =~= rest);
        }
    }
}

proof fn lemma_total_prefix(points: Seq<PointView>, i: int)
    requires
        0 <= i <= points.len(),
    ensures
        secondary_total(points.take(i)) <= secondary_total(points),
    decreases points.len() - i,
{
    if i < points.len() {
        lemma_total_prefix(points, i + 1);
        assert(points.take(i + 1).drop_last() =~= points.take(i));
    } else {
        assert(points.take(i) =~= points);
    }
}

/// The number of ambiguities of the range `start..end`.
pub fn ambiguities_count(points: &Vec<Point>, range: &std::ops::Range<usize>) -> (r: usize)
    requires
        secondary_total(views(points@)) <= usize::MAX,
    ensures
        r == ambiguities(views(points@), range.start as int, range.end as int),
{
    let ghost pv = views(points@);
    let ghost s = range.start as int;
    let ghost e = range.end as int;
    let mut count: usize = 0;
    let mut i: usize = 0;
    while i < points.len()
        invariant
            i <= points@.len(),
            pv == views(points@),
            s == range.start,
            e == range.end,
            secondary_total(pv) <= usize::MAX,
            count == ambiguities(pv.take(i as int), s, e),
        decreases points.len() - i,
    {
        proof {
            assert(pv.take(i + 1).drop_last() =~= pv.take(i as int));
            lemma_total_prefix(pv, i + 1);
            lemma_ambiguities_bound(pv.take(i + 1), s, e);
        }
        let p = &points[i];
        if range.start <= p.primary && p.primary < range.end {
            let ghost before = count;
            let mut k: usize = 0;
            while k < p.secondary.len()
                invariant
                    k <= p.secondary@.len(),
                    count == before + count_in(p.secondary@.take(k as int), s, e),
                    before + count_in(p.secondary@, s, e) <= usize::MAX,
                    s == range.start,
                    e == range.end,
                decreases p.secondary.len() - k,
            {
                proof {
                    assert(p.secondary@.take(k + 1).drop_last() =~= p.secondary@.take(k as int));
                    lemma_count_in_bound(p.secondary@.take(k + 1), s, e);
                    assert(p.secondary@.take(k + 1) =~= p.secondary@.take(k as int).push(
                        p.secondary@[k as int],
                    ));
                    lemma_count_in_prefix(p.secondary@, k + 1, s, e);
                }
                if range.start <= p.secondary[k] && p.secondary[k] < range.end {
                    count = count + 1;
                }
                k = k + 1;
            }
            proof {
                assert(p.secondary@.take(p.secondary@.len() as int) =~= p.secondary@);
            }
        }
        i = i + 1;
    }
    proof {
        assert(pv.take(pv.len() as int) =~= pv);
    }
    count
}

/// Removes the points whose primary index lies in `range`, keeping the others in order.
pub fn clear_range(points: &mut Vec<Point>, range: &std::ops::Range<usize>)
    ensures
        views(final(points)@) == remove_in_range(
            views(old(points)@),
            range.start as int,
            range.end as int,
        ),
{
    let ghost pv = views(points@);
    let ghost s = range.start as int;
    let ghost e = range.end as int;
    let mut kept: Vec<Point> = Vec::new();
    let mut i: usize = 0;
    while i < points.len()
        invariant
            i <= points@.len(),
            pv == views(points@),
            s == range.start,
            e == range.end,
            views(kept@) == remove_in_range(pv.take(i as int), s, e),
        decreases points.len() - i,
    {
        proof {
            assert(pv.take(i + 1).drop_last() =~= pv.take(i as int));
        }
        if !(range.start <= points[i].primary && points[i].primary < range.end) {
            let p = points[i].clone();
            let ghost before = kept@;
            kept.push(p);
            proof {
                assert(views(kept@) =~= views(before).push(p@));
            }
        }
        i = i + 1;
    }
    proof {
        assert(pv.take(pv.len() as int) =~= pv);
    }
    *points = kept;
}

/// The state of the split search: the points still to account for, the last range
/// found acceptable (if any), and the ranges chosen so far.
pub type SplitState = (Seq<PointView>, Option<(int, int)>, Seq<(int, int)>);

/// Where the next range starts: at the end of the last chosen range, or at 0.
pub open spec fn last_end(goods: Seq<(int, int)>) -> int {
    if goods.len() > 0 {
        goods.last().1
    } else {
        0
    }
}

/// Most ambiguities that a range may hold and still be acceptable.
pub open spec fn max_ambiguities() -> nat {
    3
}

/// One step of the split search, for the next candidate end index: the range from the
/// last split to `end` is acceptable while it holds at most three ambiguities; once it
/// holds more, the last acceptable range is chosen (or this range itself, if none was
/// acceptable) and the points placed in the chosen range are no longer counted.
pub open spec fn split_step(st: SplitState, end: int) -> SplitState {
    let start = last_end(st.2);
    if ambiguities(st.0, start, end) > max_ambiguities() {
        let g = match st.1 {
            Some(g) => g,
            None => (start, end),
        };
        (remove_in_range(st.0, g.0, g.1), None, st.2.push(g))
    } else {
        (st.0, Some((start, end)), st.2)
    }
}

/// The state of the split search after the given candidate end indices.
pub open spec fn split_run(points: Seq<PointView>, candidates: Seq<usize>) -> SplitState
    decreases candidates.len(),
{
    if candidates.len() == 0 {
        (points, None, Seq::empty())
    } else {
        split_step(split_run(points, candidates.drop_last()), candidates.last() as int)
    }
}

/// The split indices the search chooses: the ends of the chosen ranges.
pub open spec fn split_ends(points: Seq<PointView>, candidates: Seq<usize>) -> Seq<int> {
    split_run(points, candidates).2.map_values(|g: (int, int)| g.1)
}

proof fn lemma_run_total(points: Seq<PointView>, candidates: Seq<usize>)
    ensures
        secondary_total(split_run(points, candidates).0) <= secondary_total(points),
    decreases candidates.len(),
{
    if candidates.len() > 0 {
        lemma_run_total(points, candidates.drop_last());
        let st = split_run(points, candidates.drop_last());
        let start = last_end(st.2);
        let end = candidates.last() as int;
        if ambiguities(st.0, start, end) > max_ambiguities() {
            let g = match st.1 {
                Some(g) => g,
                None => (start, end),
            };
            lemma_remove_total(st.0, g.0, g.1);
        }
    }
}

/// The split search: for each candidate end index in turn, it grows the current range
/// up to it while the range holds at most three ambiguities, and otherwise closes the
/// last acceptable range. It returns the end indices of the closed ranges.
pub fn select_splits(points: Vec<Point>, candidates: &Vec<usize>) -> (r: Vec<usize>)
    requires
        secondary_total(views(points@)) <= usize::MAX,
    ensures
        r@.map_values(|x: usize| x as int) == split_ends(views(points@), candidates@),
{
    let ghost pv = views(points@);
    let mut points = points;
    let mut good_range: Option<(usize, usize)> = None;
    let mut good_ranges: Vec<(usize, usize)> = Vec::new();
    let mut i: usize = 0;
    while i < candidates.len()
        invariant
            i <= candidates@.len(),
            secondary_total(pv) <= usize::MAX,
            ({
                let st = split_run(pv, candidates@.take(i as int));
                &&& views(points@) == st.0
                &&& st.1 == match good_range {
                    Some(g) => Some((g.0 as int, g.1 as int)),
                    None => None::<(int, int)>,
                }
                &&& st.2 == good_ranges@.map_values(|g: (usize, usize)| (g.0 as int, g.1 as int))
            }),
        decreases candidates.len() - i,
    {
        let end = candidates[i];
        proof {
            assert(candidates@.take(i + 1).drop_last() =~= candidates@.take(i as int));
            lemma_run_total(pv, candidates@.take(i as int));
        }
        let start = if good_ranges.len() > 0 {
            good_ranges[good_ranges.len() - 1].1
        } else {
            0
        };
        let namb = ambiguities_count(&points, &std::ops::Range { start: start, end: end });
        if namb > 3 {
            let good = match good_range {
                Some(g) => g,
                None => (start, end),
            };
            clear_range(&mut points, &std::ops::Range { start: good.0, end: good.1 });
            let ghost before = good_ranges@;
            good_ranges.push(good);
            proof {
                assert(good_ranges@.map_values(|g: (usize, usize)| (g.0 as int, g.1 as int))
                    =~= before.map_values(|g: (usize, usize)| (g.0 as int, g.1 as int)).push(
                    (good.0 as int, good.1 as int),
                ));
            }
            good_range = None;
        } else {
            good_range = Some((start, end));
        }
        i = i + 1;
    }
    proof {
        assert(candidates@.take(candidates@.len() as int) =~= candidates@);
    }
    let mut ends: Vec<usize> = Vec::new();
    let mut k: usize = 0;
    while k < good_ranges.len()
        invariant
            k <= good_ranges@.len(),
            ends@.len() == k,
            forall|j: int| 0 <= j < k ==> ends@[j] == good_ranges@[j].1,
        decreases good_ranges.len() - k,
    {
        ends.push(good_ranges[k].1);
        k = k + 1;
    }
    proof {
        assert(ends@.map_values(|x: usize| x as int) =~= good_ranges@.map_values(
            |g: (usize, usize)| g.1 as int,
        ));
        let st = split_run(pv, candidates@);
        assert(split_ends(pv, candidates@) =~= good_ranges@.map_values(|g: (usize, usize)| g.1 as int));
    }
    ends
}

/// The track indices where a split may happen: the track indices of the controls when
/// there are controls, else the end index of each part; and in any case the last index
/// of the track.
pub open spec fn candidate_set(control_indices: Seq<usize>, parts: Seq<TrackPart>, track_len: int) -> Set<usize> {
    let base = if control_indices.len() > 0 {
        control_indices.to_set()
    } else {
        Set::new(|x: usize| exists|i: int| 0 <= i < parts.len() && #[trigger] offset(parts, i + 1) == x)
    };
    base.insert((track_len - 1) as usize)
}

/// The candidate split indices, in increasing order.
pub fn candidate_indices(control_indices: &Vec<usize>, parts: &Vec<TrackPart>, track_len: usize) -> (r: Vec<usize>)
    requires
        track_len >= 1,
        offset(parts@, parts@.len() as int) <= usize::MAX,
    ensures
        r@.to_set() == candidate_set(control_indices@, parts@, track_len as int),
        strictly_increasing(r@),
        control_indices@.len() > 0 ==> forall|x: usize|
            r@.contains(x) <==> (control_indices@.contains(x) || x == track_len - 1),
        control_indices@.len() == 0 ==> forall|x: usize|
            r@.contains(x) <==> (x == track_len - 1 || exists|i: int|
                0 <= i < parts@.len() && #[trigger] offset(parts@, i + 1) == x),
{
    let mut set: BTreeSet<usize> = BTreeSet::new();
    if control_indices.len() == 0 {
        let ranges = parts_to_ranges(parts);
        let mut i: usize = 0;
        while i < ranges.len()
            invariant
                i <= ranges@.len(),
                ranges@.len() == parts@.len(),
                forall|j: int|
                    #![trigger ranges@[j]]
                    0 <= j < ranges@.len() ==> ranges@[j].end == offset(parts@, j + 1),
                forall|x: usize| set@.contains(x) <==> exists|j: int| 0 <= j < i && #[trigger] offset(parts@, j + 1) == x,
            decreases ranges.len() - i,
        {
            let e = ranges[i].end;
            set.insert(e);
            proof {
                assert forall|x: usize| set@.contains(x) <==> exists|j: int| 0 <= j < i + 1 && #[trigger] offset(parts@, j + 1) == x by {
                    if x == e {
                        assert(offset(parts@, i + 1) == x);
                    }
                }
            }
            i = i + 1;
        }
    } else {
        let mut i: usize = 0;
        while i < control_indices.len()
            invariant
                i <= control_indices@.len(),
                forall|x: usize| set@.contains(x) <==> control_indices@.take(i as int).contains(x),
            decreases control_indices.len() - i,
        {
            let ghost old_set = set@;
            set.insert(control_indices[i]);
            proof {
                let t = control_indices@.take(i as int);
                assert(forall|x: usize| old_set.contains(x) <==> t.contains(x));
                assert(control_indices@.take(i + 1) =~= t.push(control_indices@[i as int]));
                assert forall|x: usize| set@.contains(x) <==> control_indices@.take(i + 1).contains(x) by {
                    if t.contains(x) {
                        let j = choose|j: int| 0 <= j < t.len() && t[j] == x;
                        assert(control_indices@.take(i + 1)[j] == x);
                    }
                    let t1 = control_indices@.take(i + 1);
                    if x == control_indices@[i as int] {
                        assert(t1[i as int] == x);
                    }
                    if t1.contains(x) {
                        let j = choose|j: int| 0 <= j < t1.len() && t1[j] == x;
                        if j < i {
                            assert(t[j] == x);
                        }
                    }
                }
            }
            i = i + 1;
        }
        proof {
            assert(control_indices@.take(control_indices@.len() as int) =~= control_indices@);
        }
    }
    set.insert(track_len - 1);
    let r = sorted_indices(&set);
    proof {
        assert(r@.to_set() =~= candidate_set(control_indices@, parts@, track_len as int));
        law_candidates_are_controls_or_part_ends(control_indices@, parts@, track_len as int);
        assert forall|x: usize| r@.contains(x) <==> #[trigger] r@.to_set().contains(x) by {}
        if control_indices@.len() == 0 {
            assert forall|x: usize| r@.contains(x) <==> (x == track_len - 1 || exists|i: int|
                0 <= i < parts@.len() && #[trigger] offset(parts@, i + 1) == x) by {
                assert(r@.contains(x) <==> r@.to_set().contains(x));
                assert(candidate_set(control_indices@, parts@, track_len as int).contains(x) <==> (
                x == (track_len - 1) as usize || exists|i: int|
                    0 <= i < parts@.len() && #[trigger] offset(parts@, i + 1) == x));
            }
        }
    }
    r
}

/// Where a track may be split: with controls, exactly at the controls and at the last
/// index of the track, whatever the parts; without controls, exactly at the ends of the
/// parts and at the last index.
pub proof fn law_candidates_are_controls_or_part_ends(
    control_indices: Seq<usize>,
    parts: Seq<TrackPart>,
    track_len: int,
)
    ensures
        control_indices.len() > 0 ==> forall|x: usize|
            candidate_set(control_indices, parts, track_len).contains(x) <==> (
            control_indices.contains(x) || x == (track_len - 1) as usize),
        control_indices.len() == 0 ==> forall|x: usize|
            candidate_set(control_indices, parts, track_len).contains(x) <==> (x == (track_len
                - 1) as usize || exists|i: int|
                0 <= i < parts.len() && #[trigger] offset(parts, i + 1) == x),
{
    assert forall|x: usize| #[trigger] control_indices.to_set().contains(x) <==> control_indices.contains(x) by {}
}

/// The track indices where to split a track so that the step points of each piece are
/// unambiguous: `points` gives, for each step point, its own track index and the other
/// track indices that pass as close to it. No step points, no split.
pub fn user_steps_split(
    points: Vec<Point>,
    control_indices: &Vec<usize>,
    parts: &Vec<TrackPart>,
    track_len: usize,
) -> (r: Vec<usize>)
    requires
        points@.len() > 0 ==> track_len >= 1,
        offset(parts@, parts@.len() as int) <= usize::MAX,
        secondary_total(views(points@)) <= usize::MAX,
    ensures
        points@.len() == 0 ==> r@.len() == 0,
        strictly_increasing(r@),
        control_indices@.len() > 0 ==> forall|i: int|
            0 <= i < r@.len() ==> control_indices@.contains(#[trigger] r@[i]) || r@[i]
                == track_len - 1,
        control_indices@.len() == 0 ==> forall|i: int|
            0 <= i < r@.len() ==> #[trigger] r@[i] == track_len - 1 || exists|j: int|
                0 <= j < parts@.len() && #[trigger] offset(parts@, j + 1) == r@[i],
        points@.len() > 0 ==> exists|c: Seq<usize>|
            c.to_set() == candidate_set(control_indices@, parts@, track_len as int)
                && strictly_increasing(c) && r@.map_values(|x: usize| x as int) == split_ends(
                views(points@),
                c,
            ),
{
    if points.len() == 0 {
        return Vec::new();
    }
    let candidates = candidate_indices(control_indices, parts, track_len);
    let ghost pv = views(points@);
    let r = select_splits(points, &candidates);
    proof {
        assert(candidates@.to_set() == candidate_set(control_indices@, parts@, track_len as int));
        law_splits_increasing_candidates(pv, candidates@);
        let ends = split_ends(pv, candidates@);
        assert forall|i: int| 0 <= i < r@.len() implies candidates@.contains(#[trigger] r@[i]) by {
            assert(r@.map_values(|x: usize| x as int)[i] == ends[i]);
            assert(candidates@.contains(ends[i] as usize));
        }
        assert forall|i: int, j: int| 0 <= i < j < r@.len() implies r@[i] < r@[j] by {
            assert(r@.map_values(|x: usize| x as int)[i] == ends[i]);
            assert(r@.map_values(|x: usize| x as int)[j] == ends[j]);
        }
    }
    r
}

proof fn lemma_split_run_shape(points: Seq<PointView>, c: Seq<usize>)
    requires
        strictly_increasing(c),
    ensures
        forall|i: int, j: int|
            0 <= i < j < split_ends(points, c).len() ==> #[trigger] split_ends(points, c)[i]
                < #[trigger] split_ends(points, c)[j],
        forall|i: int|
            0 <= i < split_ends(points, c).len() ==> exists|k: int|
                0 <= k < c.len() && c[k] == #[trigger] split_ends(points, c)[i],
        c.len() > 0 ==> forall|i: int|
            0 <= i < split_ends(points, c).len() ==> #[trigger] split_ends(points, c)[i]
                <= c.last(),
        split_run(points, c).1 matches Some(g) ==> c.len() > 0 && g.1 == c.last() && forall|i: int|
            0 <= i < split_ends(points, c).len() ==> #[trigger] split_ends(points, c)[i] < c.last(),
    decreases c.len(),
{
    if c.len() > 0 {
        let p = c.drop_last();
        assert(strictly_increasing(p));
        lemma_split_run_shape(points, p);
        let st = split_run(points, p);
        let ends = split_ends(points, p);
        let end = c.last() as int;
        let start = last_end(st.2);
        if p.len() > 0 {
            assert(p.last() < c.last());
        }
        assert forall|i: int| 0 <= i < ends.len() implies ends[i] < end by {
            let k = choose|k: int| 0 <= k < p.len() && p[k] == ends[i];
            assert(c[k] == p[k]);
        }
        let nends = split_ends(points, c);
        if ambiguities(st.0, start, end) > max_ambiguities() {
            let g = match st.1 {
                Some(g) => g,
                None => (start, end),
            };
            assert(split_run(points, c).2 == st.2.push(g));
            assert(nends =~= ends.push(g.1));
            assert forall|i: int| 0 <= i < nends.len() implies exists|k: int|
                0 <= k < c.len() && c[k] == #[trigger] nends[i] by {
                if i < ends.len() {
                    let k = choose|k: int| 0 <= k < p.len() && p[k] == ends[i];
                    assert(c[k] == p[k]);
                } else {
                    match st.1 {
                        Some(g0) => {
                            assert(c[c.len() - 2] == p.last());
                        },
                        None => {
                            assert(c[c.len() - 1] == end);
                        },
                    }
                }
            }
        } else {
            assert(nends =~= ends);
            assert forall|i: int| 0 <= i < nends.len() implies exists|k: int|
                0 <= k < c.len() && c[k] == #[trigger] nends[i] by {
                let k = choose|k: int| 0 <= k < p.len() && p[k] == ends[i];
                assert(c[k] == p[k]);
            }
        }
    }
}

/// The chosen split indices are strictly increasing, and each is one of the candidate
/// indices.
pub proof fn law_splits_increasing_candidates(points: Seq<PointView>, c: Seq<usize>)
    requires
        strictly_increasing(c),
    ensures
        forall|i: int, j: int|
            0 <= i < j < split_ends(points, c).len() ==> split_ends(points, c)[i] < split_ends(
                points,
                c,
            )[j],
        forall|i: int|
            0 <= i < split_ends(points, c).len() ==> c.contains(split_ends(points, c)[i] as usize),
{
    lemma_split_run_shape(points, c);
    let ends = split_ends(points, c);
    assert forall|i: int| 0 <= i < ends.len() implies c.contains(ends[i] as usize) by {
        let k = choose|k: int| 0 <= k < c.len() && c[k] == ends[i];
        assert(c[k] == ends[i] as usize);
    }
}

/// Once the points of a range are cleared, the range holds no ambiguity: what
/// `clear_range` leaves gives zero to `ambiguities_count` on the same range.
pub proof fn law_cleared_range_has_no_ambiguity(points: Seq<PointView>, start: int, end: int)
    ensures
        ambiguities(remove_in_range(points, start, end), start, end) == 0,
    decreases points.len(),
{
    if points.len() > 0 {
        law_cleared_range_has_no_ambiguity(points.drop_last(), start, end);
        let rest = remove_in_range(points.drop_last(), start, end);
        if !in_range(points.last().0 as int, start, end) {
            assert(rest.push(points.last()).drop_last() =~= rest);
        }
    }
}

proof fn lemma_calm_run(points: Seq<PointView>, c: Seq<usize>)
    requires
        forall|i: int| 0 <= i < c.len() ==> ambiguities(points, 0, #[trigger] c[i] as int) <= 3,
    ensures
        split_run(points, c).0 == points,
        split_run(points, c).2 == Seq::<(int, int)>::empty(),
    decreases c.len(),
{
    if c.len() > 0 {
        let p = c.drop_last();
        assert forall|i: int| 0 <= i < p.len() implies ambiguities(points, 0, #[trigger] p[i] as int)
            <= 3 by {
            assert(p[i] == c[i]);
        }
        lemma_calm_run(points, p);
        assert(ambiguities(points, 0, c[c.len() - 1] as int) <= 3);
    }
}

/// A track whose candidate ranges from its start all hold at most three ambiguities is
/// not split.
pub proof fn law_calm_track_is_not_split(points: Seq<PointView>, c: Seq<usize>)
    requires
        forall|i: int| 0 <= i < c.len() ==> ambiguities(points, 0, #[trigger] c[i] as int) <= 3,
    ensures
        split_ends(points, c).len() == 0,
{
    lemma_calm_run(points, c);
}

proof fn lemma_goods_prefix(points: Seq<PointView>, c: Seq<usize>, k: int)
    requires
        0 <= k <= c.len(),
    ensures
        split_run(points, c.take(k)).2.len() <= split_run(points, c).2.len(),
        forall|j: int|
            0 <= j < split_run(points, c.take(k)).2.len() ==> #[trigger] split_run(points, c).2[j]
                == split_run(points, c.take(k)).2[j],
    decreases c.len(),
{
    if k == c.len() {
        assert(c.take(k) =~= c);
    } else {
        let p = c.drop_last();
        assert(p.take(k) =~= c.take(k));
        lemma_goods_prefix(points, p, k);
        let st = split_run(points, p);
        let start = last_end(st.2);
        let end = c.last() as int;
        if ambiguities(st.0, start, end) > max_ambiguities() {
            let g = match st.1 {
                Some(g) => g,
                None => (start, end),
            };
            assert(split_run(points, c).2 == st.2.push(g));
        } else {
            assert(split_run(points, c).2 == st.2);
        }
    }
}

/// When the range from the start of the track to the first candidate already holds more
/// than three ambiguities, the track is split there: that candidate is the first split.
pub proof fn law_first_ambiguous_candidate_splits(points: Seq<PointView>, c: Seq<usize>)
    requires
        c.len() > 0,
        ambiguities(points, 0, c[0] as int) > 3,
    ensures
        split_ends(points, c).len() > 0,
        split_ends(points, c)[0] == c[0],
{
    lemma_goods_prefix(points, c, 1);
    let t = c.take(1);
    assert(t.drop_last() =~= Seq::<usize>::empty());
    assert(t.last() == c[0]);
    assert(split_run(points, Seq::<usize>::empty()) == (points, None::<(int, int)>, Seq::<(int, int)>::empty()));
    assert(split_run(points, t).2 == Seq::<(int, int)>::empty().push((0int, c[0] as int)));
    assert(split_run(points, c).2[0] == (0int, c[0] as int));
}

} // verus!
