use vstd::prelude::*;

verus! {

/// Where a waypoint of a track comes from.
#[derive(Clone, Copy, Debug, PartialEq, Eq, Structural)]
pub enum WaypointOrigin {
    /// A waypoint of the GPX file.
    GPX,
    /// A point kept by the Douglas-Peucker simplification of the track.
    DouglasPeucker,
    /// A point placed so that no step along the track is longer than the maximum.
    MaxStepSize,
}

/// A waypoint of a track, with what the tables, groups and values of waypoints read of it:
/// where it comes from, the index of the track point where it stands, its distance along
/// the track (`None` until the waypoint is placed on the track) and its elevation, both
/// held as integers that order as the distances and elevations do.
#[derive(Clone, Copy, Debug, PartialEq, Eq, Structural)]
pub struct Waypoint {
    pub origin: WaypointOrigin,
    pub track_index: Option<usize>,
    pub distance: Option<i64>,
    pub elevation: i64,
}

/// The track index of a placed waypoint.
pub open spec fn track_position(w: Waypoint) -> int {
    w.track_index->0 as int
}

/// Whether every waypoint is placed on the track, in the order of the track.
pub open spec fn placed_in_order(ws: Seq<Waypoint>) -> bool {
    &&& forall|i: int| 0 <= i < ws.len() ==> (#[trigger] ws[i]).track_index is Some
    &&& forall|i: int, j: int|
        0 <= i <= j < ws.len() ==> track_position(#[trigger] ws[i]) <= track_position(
            #[trigger] ws[j],
        )
}

/// The first position at or after `from` whose waypoint stands at or after the track
/// index `split` (the end when there is none): where `partition_point` cuts the waypoints
/// from `from` on, since they are in the order of the track.
pub open spec fn first_at_or_after(ws: Seq<Waypoint>, from: int, split: int) -> int
    decreases ws.len() - from,
{
    if from < 0 || from >= ws.len() {
        ws.len() as int
    } else if track_position(ws[from]) >= split {
        from
    } else {
        first_at_or_after(ws, from + 1, split)
    }
}

/// Where the range after `ranges` starts: at the end of the last one, or at 0.
pub open spec fn next_start(ranges: Seq<(int, int)>) -> int {
    if ranges.len() > 0 {
        ranges.last().1
    } else {
        0
    }
}

/// The ranges of positions that end at each split: each starts where the previous one
/// ended and ends before the first waypoint at or after the split.
pub open spec fn cut_ranges(ws: Seq<Waypoint>, splits: Seq<usize>) -> Seq<(int, int)>
    decreases splits.len(),
{
    if splits.len() == 0 {
        Seq::empty()
    } else {
        let prev = cut_ranges(ws, splits.drop_last());
        let start = next_start(prev);
        prev.push((start, first_at_or_after(ws, start, splits.last() as int)))
    }
}

/// The ranges cut at the splits, then the range of the remaining waypoints.
pub open spec fn all_ranges(ws: Seq<Waypoint>, splits: Seq<usize>) -> Seq<(int, int)> {
    let prev = cut_ranges(ws, splits);
    prev.push((next_start(prev), ws.len() as int))
}

/// The ranges with each range of fewer than three positions, but the first, merged into
/// the range before it.
pub open spec fn merged_ranges(r: Seq<(int, int)>) -> Seq<(int, int)>
    decreases r.len(),
{
    if r.len() == 0 {
        Seq::empty()
    } else {
        let m = merged_ranges(r.drop_last());
        let last = r.last();
        if last.1 - last.0 < 3 && m.len() > 0 {
            m.update(m.len() - 1, (m.last().0, last.1))
        } else {
            m.push(last)
        }
    }
}

/// The waypoints of each range.
pub open spec fn groups_of(ws: Seq<Waypoint>, ranges: Seq<(int, int)>) -> Seq<Seq<Waypoint>> {
    ranges.map_values(|g: (int, int)| ws.subrange(g.0, g.1))
}

/// The groups of waypoints between the splits, small groups merged into the previous one.
pub open spec fn waypoint_groups(ws: Seq<Waypoint>, splits: Seq<usize>) -> Seq<Seq<Waypoint>> {
    groups_of(ws, merged_ranges(all_ranges(ws, splits)))
}

/// Whether ranges follow each other from position 0 on, each within `0..=len`.
pub open spec fn chained(r: Seq<(int, int)>, len: int) -> bool {
    &&& forall|i: int| 0 <= i < r.len() ==> 0 <= (#[trigger] r[i]).0 <= r[i].1 <= len
    &&& forall|i: int| 0 < i < r.len() ==> (#[trigger] r[i]).0 == r[i - 1].1
    &&& r.len() > 0 ==> r[0].0 == 0
}

proof fn lemma_first_at_or_after_bounds(ws: Seq<Waypoint>, from: int, split: int)
    requires
        0 <= from <= ws.len(),
    ensures
        from <= first_at_or_after(ws, from, split) <= ws.len(),
    decreases ws.len() - from,
{
    if from < ws.len() && track_position(ws[from]) < split {
        lemma_first_at_or_after_bounds(ws, from + 1, split);
    }
}

proof fn lemma_cut_ranges_chained(ws: Seq<Waypoint>, splits: Seq<usize>)
    ensures
        cut_ranges(ws, splits).len() == splits.len(),
        chained(cut_ranges(ws, splits), ws.len() as int),
        chained(all_ranges(ws, splits), ws.len() as int),
    decreases splits.len(),
{
    if splits.len() > 0 {
        lemma_cut_ranges_chained(ws, splits.drop_last());
        let prev = cut_ranges(ws, splits.drop_last());
        lemma_first_at_or_after_bounds(ws, next_start(prev), splits.last() as int);
    }
    let r = cut_ranges(ws, splits);
    assert(0 <= next_start(r) <= ws.len());
}

proof fn lemma_merged_chained(r: Seq<(int, int)>, len: int)
    requires
        chained(r, len),
    ensures
        chained(merged_ranges(r), len),
        r.len() > 0 ==> merged_ranges(r).len() > 0 && merged_ranges(r).last().1 == r.last().1,
        r.len() == 0 ==> merged_ranges(r).len() == 0,
        forall|i: int|
            1 <= i < merged_ranges(r).len() ==> (#[trigger] merged_ranges(r)[i]).1 - merged_ranges(
                r,
            )[i].0 >= 3,
    decreases r.len(),
{
    if r.len() > 0 {
        let p = r.drop_last();
        assert(chained(p, len)) by {
            assert forall|i: int| 0 < i < p.len() implies (#[trigger] p[i]).0 == p[i - 1].1 by {
                assert(p[i] == r[i] && p[i - 1] == r[i - 1]);
            }
        }
        lemma_merged_chained(p, len);
    }
}

/// Whether one of the ranges starts at `x`.
pub open spec fn starts_a_range(m: Seq<(int, int)>, x: int) -> bool {
    exists|g: int| 0 <= g < m.len() && #[trigger] m[g].0 == x
}

proof fn lemma_merged_keeps_large_starts(r: Seq<(int, int)>)
    ensures
        forall|i: int|
            0 <= i < r.len() && (i == 0 || r[i].1 - r[i].0 >= 3) ==> starts_a_range(
                merged_ranges(r),
                (#[trigger] r[i]).0,
            ),
    decreases r.len(),
{
    if r.len() > 0 {
        let p = r.drop_last();
        lemma_merged_keeps_large_starts(p);
        let m = merged_ranges(p);
        let last = r.last();
        let n = r.len() - 1;
        if p.len() == 0 {
            assert(m =~= Seq::<(int, int)>::empty());
        }
        let u = merged_ranges(r);
        if last.1 - last.0 < 3 && m.len() > 0 {
            assert(u == m.update(m.len() - 1, (m.last().0, last.1)));
        } else {
            assert(u == m.push(last));
        }
        assert forall|i: int|
            0 <= i < r.len() && (i == 0 || r[i].1 - r[i].0 >= 3) implies starts_a_range(
                u,
                (#[trigger] r[i]).0,
            ) by {
            if i < n {
                assert(r[i] == p[i]);
                assert(starts_a_range(m, p[i].0));
                let g = choose|g: int| 0 <= g < m.len() && #[trigger] m[g].0 == p[i].0;
                assert(u[g].0 == m[g].0);
            } else {
                assert(!(last.1 - last.0 < 3 && m.len() > 0));
                assert(u[m.len() as int].0 == r[i].0);
            }
        }
    }
}

proof fn lemma_chain_flatten(ws: Seq<Waypoint>, r: Seq<(int, int)>)
    requires
        chained(r, ws.len() as int),
    ensures
        groups_of(ws, r).flatten() == ws.subrange(0, next_start(r)),
    decreases r.len(),
{
    if r.len() == 0 {
        assert(ws.subrange(0, 0) =~= Seq::<Waypoint>::empty());
    } else {
        let p = r.drop_last();
        assert(chained(p, ws.len() as int)) by {
            assert forall|i: int| 0 < i < p.len() implies (#[trigger] p[i]).0 == p[i - 1].1 by {
                assert(p[i] == r[i] && p[i - 1] == r[i - 1]);
            }
        }
        lemma_chain_flatten(ws, p);
        let last = r.last();
        assert(groups_of(ws, r) =~= groups_of(ws, p).push(ws.subrange(last.0, last.1)));
        groups_of(ws, p).lemma_flatten_push(ws.subrange(last.0, last.1));
        assert(next_start(p) == last.0);
        assert(ws.subrange(0, last.0) + ws.subrange(last.0, last.1) =~= ws.subrange(0, last.1));
    }
}

/// The groups of waypoints cover all the waypoints, in order and each once; every group
/// but the first holds at least three waypoints; and a range between splits of three or
/// more waypoints is not merged into the group before it: it starts a group.
pub proof fn law_groups_cover_waypoints(ws: Seq<Waypoint>, splits: Seq<usize>)
    ensures
        waypoint_groups(ws, splits).flatten() == ws,
        forall|i: int|
            1 <= i < waypoint_groups(ws, splits).len() ==> (#[trigger] waypoint_groups(
                ws,
                splits,
            )[i]).len() >= 3,
        forall|i: int|
            0 <= i < all_ranges(ws, splits).len() && all_ranges(ws, splits)[i].1 - all_ranges(
                ws,
                splits,
            )[i].0 >= 3 ==> starts_a_range(
                merged_ranges(all_ranges(ws, splits)),
                (#[trigger] all_ranges(ws, splits)[i]).0,
            ),
{
    let r = all_ranges(ws, splits);
    lemma_cut_ranges_chained(ws, splits);
    lemma_merged_chained(r, ws.len() as int);
    lemma_merged_keeps_large_starts(r);
    let m = merged_ranges(r);
    lemma_chain_flatten(ws, m);
    assert(ws.subrange(0, ws.len() as int) =~= ws);
}

proof fn lemma_first_at_or_after_cuts(ws: Seq<Waypoint>, from: int, split: int)
    requires
        0 <= from <= ws.len(),
    ensures
        forall|j: int|
            from <= j < first_at_or_after(ws, from, split) ==> track_position(#[trigger] ws[j])
                < split,
        first_at_or_after(ws, from, split) < ws.len() ==> track_position(
            ws[first_at_or_after(ws, from, split)],
        ) >= split,
    decreases ws.len() - from,
{
    if from < ws.len() && track_position(ws[from]) < split {
        lemma_first_at_or_after_cuts(ws, from + 1, split);
    }
}

proof fn lemma_chain_ends_grow(r: Seq<(int, int)>, len: int, i: int)
    requires
        chained(r, len),
        0 <= i < r.len(),
    ensures
        r[i].1 >= r[0].1,
    decreases i,
{
    if i > 0 {
        lemma_chain_ends_grow(r, len, i - 1);
    }
}

proof fn lemma_merged_first(r: Seq<(int, int)>, len: int)
    requires
        chained(r, len),
        r.len() > 0,
    ensures
        merged_ranges(r).len() > 0,
        merged_ranges(r)[0].0 == r[0].0,
        merged_ranges(r)[0].1 >= r[0].1,
    decreases r.len(),
{
    let p = r.drop_last();
    if p.len() > 0 {
        assert(chained(p, len)) by {
            assert forall|i: int| 0 < i < p.len() implies (#[trigger] p[i]).0 == p[i - 1].1 by {
                assert(p[i] == r[i] && p[i - 1] == r[i - 1]);
            }
        }
        lemma_merged_first(p, len);
        lemma_chain_ends_grow(r, len, r.len() - 1);
        let m = merged_ranges(p);
        let last = r.last();
        assert(p[0] == r[0]);
        if last.1 - last.0 < 3 && m.len() > 0 {
            let u = m.update(m.len() - 1, (m.last().0, last.1));
            assert(merged_ranges(r) == u);
            if m.len() == 1 {
                assert(u[0] == (m[0].0, last.1));
            } else {
                assert(u[0] == m[0]);
            }
        } else {
            assert(merged_ranges(r) == m.push(last));
            assert(m.push(last)[0] == m[0]);
        }
    } else {
        assert(merged_ranges(p) =~= Seq::<(int, int)>::empty());
        assert(merged_ranges(r) == Seq::<(int, int)>::empty().push(r.last()));
        assert(r.last() == r[0]);
    }
}

/// Before small groups are merged, the range that ends at a split holds exactly the
/// waypoints, from its start on, that stand before the split: each of them stands before
/// it, and the next waypoint stands at or after it. So the first group holds every
/// waypoint that stands before the first split.
pub proof fn law_waypoints_cut_before_splits(ws: Seq<Waypoint>, splits: Seq<usize>)
    requires
        placed_in_order(ws),
    ensures
        forall|i: int, j: int|
            0 <= i < splits.len() && cut_ranges(ws, splits)[i].0 <= j < cut_ranges(ws, splits)[i].1
                ==> track_position(#[trigger] ws[j]) < #[trigger] splits[i],
        forall|i: int|
            0 <= i < splits.len() && cut_ranges(ws, splits)[i].1 < ws.len() ==> track_position(
                ws[cut_ranges(ws, splits)[i].1],
            ) >= #[trigger] splits[i],
        splits.len() > 0 ==> forall|j: int|
            0 <= j < ws.len() && track_position(#[trigger] ws[j]) < splits[0] ==> j
                < waypoint_groups(ws, splits)[0].len(),
    decreases splits.len(),
{
    lemma_cut_ranges_chained(ws, splits);
    if splits.len() > 0 {
        let prev = splits.drop_last();
        law_waypoints_cut_before_splits(ws, prev);
        let pr = cut_ranges(ws, prev);
        let r = cut_ranges(ws, splits);
        let start = next_start(pr);
        let n = splits.len() - 1;
        lemma_cut_ranges_chained(ws, prev);
        lemma_first_at_or_after_cuts(ws, start, splits.last() as int);
        assert forall|i: int, j: int|
            0 <= i < splits.len() && r[i].0 <= j < r[i].1 implies track_position(
                #[trigger] ws[j],
            ) < #[trigger] splits[i] by {
            if i < n {
                assert(r[i] == pr[i]);
                assert(splits[i] == prev[i]);
            }
        }
        assert forall|i: int| 0 <= i < splits.len() && r[i].1 < ws.len() implies track_position(
            ws[r[i].1],
        ) >= #[trigger] splits[i] by {
            if i < n {
                assert(r[i] == pr[i]);
                assert(splits[i] == prev[i]);
            }
        }
        let all = all_ranges(ws, splits);
        lemma_merged_first(all, ws.len() as int);
        assert(all[0] == r[0]);
        let e = merged_ranges(all)[0].1;
        assert(merged_ranges(all)[0].0 == 0);
        lemma_merged_chained(all, ws.len() as int);
        assert(e <= ws.len());
        assert(waypoint_groups(ws, splits)[0] == ws.subrange(0, e));
        assert forall|j: int| 0 <= j < ws.len() && track_position(#[trigger] ws[j]) < splits[0]
            implies j < waypoint_groups(ws, splits)[0].len() by {
            if j >= r[0].1 {
                assert(track_position(ws[r[0].1]) >= splits[0]);
                assert(track_position(ws[r[0].1]) <= track_position(ws[j]));
            }
        }
    }
}

/// The position of the first waypoint from `start` on that stands at or after `split`.
fn partition_point_from(ws: &Vec<Waypoint>, start: usize, split: usize) -> (r: usize)
    requires
        start <= ws@.len(),
        forall|i: int| 0 <= i < ws@.len() ==> (#[trigger] ws@[i]).track_index is Some,
    ensures
        r == first_at_or_after(ws@, start as int, split as int),
{
    let mut end = start;
    while end < ws.len()
        invariant
            start <= end <= ws@.len(),
            forall|i: int| 0 <= i < ws@.len() ==> (#[trigger] ws@[i]).track_index is Some,
            first_at_or_after(ws@, start as int, split as int) == first_at_or_after(
                ws@,
                end as int,
                split as int,
            ),
        decreases ws.len() - end,
    {
        let index = match ws[end].track_index {
            Some(t) => t,
            None => 0,
        };
        if index >= split {
            return end;
        }
        end = end + 1;
    }
    end
}

/// The waypoints (in the order of the track) grouped between the split indices: each
/// group holds the waypoints before the next split, and a group of fewer than three
/// waypoints (but the first) joins the group before it.
pub fn group_waypoints(waypoints: &Vec<Waypoint>, split_indices: &Vec<usize>) -> (r: Vec<
    Vec<Waypoint>,
>)
    requires
        placed_in_order(waypoints@),
    ensures
        r@.map_values(|g: Vec<Waypoint>| g@) == waypoint_groups(waypoints@, split_indices@),
        split_indices@.len() > 0 ==> forall|j: int|
            0 <= j < waypoints@.len() && track_position(#[trigger] waypoints@[j])
                < split_indices@[0] ==> j < r@[0]@.len(),
{
    let ghost ws = waypoints@;
    let mut ranges: Vec<(usize, usize)> = Vec::new();
    let mut start: usize = 0;
    let mut i: usize = 0;
    while i < split_indices.len()
        invariant
            i <= split_indices@.len(),
            ws == waypoints@,
            placed_in_order(ws),
            ranges@.map_values(|g: (usize, usize)| (g.0 as int, g.1 as int)) == cut_ranges(
                ws,
                split_indices@.take(i as int),
            ),
            start == next_start(cut_ranges(ws, split_indices@.take(i as int))),
            start <= ws.len(),
        decreases split_indices.len() - i,
    {
        let split = split_indices[i];
        let ghost prev = cut_ranges(ws, split_indices@.take(i as int));
        proof {
            assert(split_indices@.take(i + 1).drop_last() =~= split_indices@.take(i as int));
            lemma_first_at_or_after_bounds(ws, start as int, split as int);
        }
        let end = partition_point_from(waypoints, start, split);
        let ghost before = ranges@;
        ranges.push((start, end));
        proof {
            assert(ranges@.map_values(|g: (usize, usize)| (g.0 as int, g.1 as int)) =~= before.map_values(
                |g: (usize, usize)| (g.0 as int, g.1 as int),
            ).push((start as int, end as int)));
        }
        start = end;
        i = i + 1;
    }
    proof {
        assert(split_indices@.take(split_indices@.len() as int) =~= split_indices@);
    }
    let ghost before = ranges@;
    ranges.push((start, waypoints.len()));
    let ghost all = all_ranges(ws, split_indices@);
    proof {
        assert(ranges@.map_values(|g: (usize, usize)| (g.0 as int, g.1 as int)) =~= before.map_values(
            |g: (usize, usize)| (g.0 as int, g.1 as int),
        ).push((start as int, ws.len() as int)));
        lemma_cut_ranges_chained(ws, split_indices@);
    }
    let mut merged: Vec<(usize, usize)> = Vec::new();
    let mut k: usize = 0;
    while k < ranges.len()
        invariant
            k <= ranges@.len(),
            ranges@.map_values(|g: (usize, usize)| (g.0 as int, g.1 as int)) == all,
            chained(all, ws.len() as int),
            merged@.map_values(|g: (usize, usize)| (g.0 as int, g.1 as int)) == merged_ranges(
                all.take(k as int),
            ),
            chained(merged_ranges(all.take(k as int)), ws.len() as int),
            k > 0 ==> merged@.len() > 0 && merged@.last().1 == all[k - 1].1,
            k == 0 ==> merged@.len() == 0,
        decreases ranges.len() - k,
    {
        let (s, e) = ranges[k];
        proof {
            assert(all[k as int] == (s as int, e as int));
            assert(all.take(k + 1).drop_last() =~= all.take(k as int));
            assert(all.take(k + 1).last() == all[k as int]);
            assert(chained(all.take(k + 1), ws.len() as int)) by {
                let t = all.take(k + 1);
                assert forall|j: int| 0 < j < t.len() implies (#[trigger] t[j]).0 == t[j - 1].1 by {
                    assert(t[j] == all[j] && t[j - 1] == all[j - 1]);
                }
            }
            lemma_merged_chained(all.take(k + 1), ws.len() as int);
        }
        let ghost mbefore = merged@;
        if e - s < 3 && merged.len() > 0 {
            let last = merged.len() - 1;
            let ls = merged[last].0;
            merged.set(last, (ls, e));
            proof {
                assert(merged@.map_values(|g: (usize, usize)| (g.0 as int, g.1 as int)) =~= mbefore.map_values(
                    |g: (usize, usize)| (g.0 as int, g.1 as int),
                ).update(last as int, (ls as int, e as int)));
            }
        } else {
            merged.push((s, e));
            proof {
                assert(merged@.map_values(|g: (usize, usize)| (g.0 as int, g.1 as int)) =~= mbefore.map_values(
                    |g: (usize, usize)| (g.0 as int, g.1 as int),
                ).push((s as int, e as int)));
            }
        }
        k = k + 1;
    }
    proof {
        assert(all.take(ranges@.len() as int) =~= all);
    }
    let ghost mr = merged_ranges(all);
    let mut groups: Vec<Vec<Waypoint>> = Vec::new();
    let mut g: usize = 0;
    while g < merged.len()
        invariant
            g <= merged@.len(),
            merged@.map_values(|x: (usize, usize)| (x.0 as int, x.1 as int)) == mr,
            chained(mr, ws.len() as int),
            ws == waypoints@,
            groups@.map_values(|v: Vec<Waypoint>| v@) == groups_of(ws, mr).take(g as int),
        decreases merged.len() - g,
    {
        let (s, e) = merged[g];
        proof {
            assert(mr[g as int] == (s as int, e as int));
        }
        let mut group: Vec<Waypoint> = Vec::new();
        let mut j: usize = s;
        while j < e
            invariant
                s <= j <= e <= ws.len(),
                ws == waypoints@,
                group@ == ws.subrange(s as int, j as int),
            decreases e - j,
        {
            group.push(waypoints[j]);
            proof {
                assert(ws.subrange(s as int, j + 1) =~= ws.subrange(s as int, j as int).push(ws[j as int]));
            }
            j = j + 1;
        }
        let ghost gbefore = groups@;
        groups.push(group);
        proof {
            assert(groups@.map_values(|v: Vec<Waypoint>| v@) =~= gbefore.map_values(|v: Vec<Waypoint>| v@).push(
                ws.subrange(s as int, e as int),
            ));
            assert(groups_of(ws, mr).take(g + 1) =~= groups_of(ws, mr).take(g as int).push(
                ws.subrange(s as int, e as int),
            ));
        }
        g = g + 1;
    }
    proof {
        assert(groups_of(ws, mr).take(mr.len() as int) =~= groups_of(ws, mr));
        law_waypoints_cut_before_splits(ws, split_indices@);
        if split_indices@.len() > 0 {
            assert(groups@.map_values(|v: Vec<Waypoint>| v@)[0] == groups@[0]@);
        }
    }
    groups
}

} // verus!
