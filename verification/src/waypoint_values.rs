use std::collections::HashMap;
use vstd::prelude::*;

use crate::waypoint::{Waypoint, WaypointOrigin};

verus! {

broadcast use vstd::std_specs::hash::group_hash_axioms;

/// The index `ret` moved by `inc`, stopping at zero.
pub open spec fn moved_index(ret: int, inc: int) -> int {
    if ret + inc < 0 {
        0
    } else {
        ret + inc
    }
}

/// `ret` moved by `inc` steps; a move below zero stops at zero. The index is taken as an
/// `i32` (keeping its low 32 bits), as the computation is done in `i32`.
pub fn move_index(ret: usize, inc: i32) -> (r: usize)
    requires
        i32::MIN <= (ret as i32) + inc <= i32::MAX,
    ensures
        r == moved_index((ret as i32) as int, inc as int),
{
    let m: i32 = (ret as i32) + inc;
    if m < 0 {
        return 0;
    }
    m as usize
}

/// Whether `r` is the index reached from `start` by walking in steps of `inc` (one step
/// forward or one step back) until an index that has a value, the end `len` or the
/// start `0`.
pub open spec fn next_valued(len: int, valued: Set<usize>, start: int, inc: int, r: int) -> bool {
    if inc == 1 {
        &&& start < r <= len
        &&& r < len ==> valued.contains(r as usize)
        &&& forall|j: int| start < j < r ==> !#[trigger] valued.contains(j as usize)
    } else {
        &&& 0 <= r
        &&& (start == 0 ==> r == 0)
        &&& (start > 0 ==> r < start)
        &&& r > 0 ==> valued.contains(r as usize)
        &&& forall|j: int| r < j < start ==> !#[trigger] valued.contains(j as usize)
    }
}

/// The next index after `start` (`inc` is 1) or before it (`inc` is -1) that has a value;
/// `len` when none follows, `0` when none precedes.
pub fn next_with_value(len: usize, values: &HashMap<usize, usize>, start: usize, inc: i32) -> (r:
    usize)
    requires
        inc == 1 || inc == -1,
        start < len,
        len < i32::MAX,
    ensures
        next_valued(len as int, values@.dom(), start as int, inc as int, r as int),
{
    let mut ret = move_index(start, inc);
    loop
        invariant
            inc == 1 || inc == -1,
            start < len < i32::MAX,
            inc == 1 ==> start < ret <= len + 1,
            inc == 1 ==> forall|j: int| start < j < ret ==> !#[trigger] values@.dom().contains(
                j as usize,
            ),
            inc == -1 ==> ret <= start,
            inc == -1 ==> (start == 0 ==> ret == 0),
            inc == -1 ==> (start > 0 ==> ret < start),
            inc == -1 ==> forall|j: int| ret < j < start ==> !#[trigger] values@.dom().contains(
                j as usize,
            ),
        decreases (if inc == 1 { len + 1 - ret } else { ret as int }),
    {
        if ret >= len {
            return len;
        }
        if ret == 0 {
            return 0;
        }
        if values.contains_key(&ret) {
            return ret;
        }
        ret = move_index(ret, inc);
    }
}

/// The value of a waypoint that its own kind decides (a lower value is more important):
/// 0 for a waypoint of the GPX file; 1 for a point of the simplified track at either end
/// of the list or on a top (higher than both neighbours), none for its other points; 2 for
/// another point on a slope steeper than three percent (`steep`), none otherwise.
pub open spec fn spec_hard_value(ws: Seq<Waypoint>, index: int, steep: bool) -> Option<usize> {
    let w = ws[index];
    if w.origin == WaypointOrigin::GPX {
        Some(0)
    } else if w.origin == WaypointOrigin::DouglasPeucker {
        if index == 0 || index == ws.len() - 1 {
            Some(1)
        } else if ws[index - 1].elevation < w.elevation && ws[index + 1].elevation < w.elevation {
            Some(1)
        } else {
            None
        }
    } else if steep {
        Some(2)
    } else {
        None
    }
}

/// The value of waypoint `index` that its own kind decides (see `spec_hard_value`);
/// `steep` tells whether the slope before it is steeper than three percent.
pub fn hard_value(waypoints: &Vec<Waypoint>, index: usize, steep: bool) -> (r: Option<usize>)
    requires
        index < waypoints@.len(),
    ensures
        r == spec_hard_value(waypoints@, index as int, steep),
{
    let len = waypoints.len();
    let w = &waypoints[index];
    if w.origin == WaypointOrigin::GPX {
        return Some(0);
    }
    if w.origin == WaypointOrigin::DouglasPeucker {
        if index == 0 || index == len - 1 {
            return Some(1);
        }
        let next = &waypoints[index + 1];
        let prev = &waypoints[index - 1];
        if prev.elevation < w.elevation && next.elevation < w.elevation {
            return Some(1);
        }
        return None;
    }
    if steep {
        return Some(2);
    }
    None
}

} // verus!
