use vstd::prelude::*;

use crate::ordered::strictly_increasing;
use crate::waypoint::{Waypoint, WaypointOrigin};

verus! {

/// The range of distances along the track that a profile shows.
#[derive(Clone, Copy, Debug, PartialEq, Eq, Structural)]
pub struct ProfileBoundingBox {
    pub min_distance: i64,
    pub max_distance: i64,
}

/// Whether every waypoint was placed on the track.
pub open spec fn all_placed(waypoints: Seq<Waypoint>) -> bool {
    forall|k: int| 0 <= k < waypoints.len() ==> (#[trigger] waypoints[k]).distance is Some
}

/// Whether the profile shows the (placed) waypoint: its distance lies in the range,
/// both ends included.
pub open spec fn spec_shows_waypoint(w: Waypoint, bbox: ProfileBoundingBox) -> bool {
    bbox.min_distance <= w.distance->0 <= bbox.max_distance
}

/// Whether a waypoint belongs in the table of the profile: the profile shows it and it
/// comes from the GPX file.
pub open spec fn in_table(w: Waypoint, bbox: ProfileBoundingBox) -> bool {
    spec_shows_waypoint(w, bbox) && w.origin == WaypointOrigin::GPX
}

/// Whether the profile with range `bbox` shows the waypoint `w`.
pub fn shows_waypoint(w: &Waypoint, bbox: &ProfileBoundingBox) -> (r: bool)
    requires
        w.distance is Some,
    ensures
        r == spec_shows_waypoint(*w, *bbox),
{
    let distance = match w.distance {
        Some(d) => d,
        None => 0,
    };
    bbox.min_distance <= distance && distance <= bbox.max_distance
}

/// The indices of the waypoints that the table of the profile lists, in increasing order:
/// those that the profile shows and that come from the GPX file.
pub fn show_waypoints_in_table(waypoints: &Vec<Waypoint>, bbox: &ProfileBoundingBox) -> (r: Vec<
    usize,
>)
    requires
        all_placed(waypoints@),
    ensures
        strictly_increasing(r@),
        forall|i: int| 0 <= i < r@.len() ==> r@[i] < waypoints@.len(),
        forall|k: int|
            0 <= k < waypoints@.len() ==> (r@.contains(k as usize) <==> in_table(
                #[trigger] waypoints@[k],
                *bbox,
            )),
{
    let mut indices: Vec<usize> = Vec::new();
    let mut k: usize = 0;
    while k < waypoints.len()
        invariant
            k <= waypoints@.len(),
            all_placed(waypoints@),
            strictly_increasing(indices@),
            forall|i: int| 0 <= i < indices@.len() ==> indices@[i] < k,
            forall|j: int|
                0 <= j < k ==> (indices@.contains(j as usize) <==> in_table(
                    #[trigger] waypoints@[j],
                    *bbox,
                )),
        decreases waypoints.len() - k,
    {
        let w = &waypoints[k];
        if shows_waypoint(w, bbox) && w.origin == WaypointOrigin::GPX {
            let ghost before = indices@;
            indices.push(k);
            proof {
                assert forall|j: int| 0 <= j < k implies (#[trigger] indices@.contains(j as usize)
                    <==> before.contains(j as usize)) by {
                    if indices@.contains(j as usize) {
                        let i = choose|i: int| 0 <= i < indices@.len() && indices@[i] == j as usize;
                        if i < before.len() {
                            assert(before[i] == j as usize);
                        }
                    }
                    if before.contains(j as usize) {
                        let i = choose|i: int| 0 <= i < before.len() && before[i] == j as usize;
                        assert(indices@[i] == j as usize);
                    }
                }
                assert(indices@[before.len() as int] == k);
            }
        } else {
            proof {
                assert(!indices@.contains(k));
            }
        }
        k = k + 1;
    }
    indices
}

} // verus!
