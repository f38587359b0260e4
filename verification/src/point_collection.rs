use std::collections::{BTreeMap, BTreeSet, HashSet};
use vstd::prelude::*;

use crate::ordered::{sorted_indices, strictly_increasing};

verus! {

/// The kinds of points that can be shown along a track.
#[derive(Clone, Copy, Debug, PartialEq, Eq, Structural, PartialOrd, Ord, Hash)]
pub enum Kind {
    Cities,
    Controls,
    GPXWaypoints,
    Hamlets,
    Mountains,
    Villages,
    CutOff,
}

/// Whether points of this kind come from OpenStreetMap.
pub open spec fn spec_is_osm(kind: Kind) -> bool {
    match kind {
        Kind::Controls | Kind::GPXWaypoints | Kind::CutOff => false,
        _ => true,
    }
}

/// Whether points of this kind come from OpenStreetMap (cities, villages, hamlets and
/// mountains do; controls, GPX waypoints and cut-off points do not).
pub fn is_osm(kind: &Kind) -> (r: bool)
    ensures
        r == spec_is_osm(*kind),
{
    match kind {
        Kind::Controls | Kind::GPXWaypoints | Kind::CutOff => false,
        _ => true,
    }
}

/// A list of kinds.
pub type Kinds = Vec<Kind>;

/// Every kind, in the order in which they are offered.
pub fn allkinds() -> (r: Kinds)
    ensures
        r@ == seq![
            Kind::CutOff,
            Kind::GPXWaypoints,
            Kind::Cities,
            Kind::Villages,
            Kind::Controls,
            Kind::Mountains,
            Kind::Hamlets,
        ],
{
    vec![
        Kind::CutOff,
        Kind::GPXWaypoints,
        Kind::Cities,
        Kind::Villages,
        Kind::Controls,
        Kind::Mountains,
        Kind::Hamlets,
    ]
}

/// A list of the one kind given.
pub fn onekind(kind: Kind) -> (r: Kinds)
    ensures
        r@ == seq![kind],
{
    vec![kind]
}

/// The name of a kind, as its `Display` impl writes it.
pub open spec fn kind_name(kind: Kind) -> Seq<char> {
    match kind {
        Kind::Cities => seq!['C', 'i', 't', 'i', 'e', 's'],
        Kind::Controls => seq!['C', 'o', 'n', 't', 'r', 'o', 'l', 's'],
        Kind::GPXWaypoints => seq!['G', 'P', 'X', 'W', 'a', 'y', 'p', 'o', 'i', 'n', 't', 's'],
        Kind::Hamlets => seq!['H', 'a', 'm', 'l', 'e', 't', 's'],
        Kind::Mountains => seq!['M', 'o', 'u', 'n', 't', 'a', 'i', 'n', 's'],
        Kind::Villages => seq!['V', 'i', 'l', 'l', 'a', 'g', 'e', 's'],
        Kind::CutOff => seq!['C', 'u', 't', 'O', 'f', 'f'],
    }
}

impl Kind {
    /// The name of this kind, as its `Display` impl writes it.
    pub fn to_string(&self) -> (r: String)
        ensures
            r@ == kind_name(*self),
    {
        let v: Vec<char> = match self {
            Kind::Cities => vec!['C', 'i', 't', 'i', 'e', 's'],
            Kind::Controls => vec!['C', 'o', 'n', 't', 'r', 'o', 'l', 's'],
            Kind::GPXWaypoints => vec!['G', 'P', 'X', 'W', 'a', 'y', 'p', 'o', 'i', 'n', 't', 's'],
            Kind::Hamlets => vec!['H', 'a', 'm', 'l', 'e', 't', 's'],
            Kind::Mountains => vec!['M', 'o', 'u', 'n', 't', 'a', 'i', 'n', 's'],
            Kind::Villages => vec!['V', 'i', 'l', 'l', 'a', 'g', 'e', 's'],
            Kind::CutOff => vec!['C', 'u', 't', 'O', 'f', 'f'],
        };
        proof {
            assert(v@ =~= kind_name(*self));
        }
        crate::text::string_from_chars(&v)
    }
}

/// A point of interest near a track, with what the point collection reads of it.
#[derive(Clone, Copy, Debug, PartialEq, Eq, Structural)]
pub struct InputPoint {
    pub kind: Kind,
    /// Number of inhabitants of an OpenStreetMap place (0 when unknown).
    pub population: u64,
    /// Elevation of an OpenStreetMap peak in whole meters, rounded down (0 when unknown).
    pub elevation: i32,
    /// Whether the point lies close enough to the track to be shown on it.
    pub close_to_track: bool,
    /// Position of the point in its list, once it has been filed.
    pub index: Option<usize>,
    /// Identifies the OpenStreetMap place that the point stands for (equal for the same
    /// place).
    pub map_id: u64,
}

impl InputPoint {
    pub fn kind(&self) -> (r: Kind)
        ensures
            r == self.kind,
    {
        self.kind
    }

    pub fn is_close_to_track(&self) -> (r: bool)
        ensures
            r == self.close_to_track,
    {
        self.close_to_track
    }
}

/// The orders in which lists of places are sorted.
pub enum SortBy {
    /// Most inhabitants first.
    Population,
    /// Highest first.
    Elevation,
}

/// The number by which a point is sorted, largest first.
pub open spec fn sort_key(p: InputPoint, by: SortBy) -> int {
    match by {
        SortBy::Population => if spec_is_osm(p.kind) { p.population as int } else { 0 },
        SortBy::Elevation => if spec_is_osm(p.kind) { p.elevation as int } else { 0 },
    }
}

fn key_of(p: &InputPoint, by: &SortBy) -> (r: i128)
    ensures
        r == sort_key(*p, *by),
{
    match by {
        SortBy::Population => if is_osm(&p.kind) { p.population as i128 } else { 0 },
        SortBy::Elevation => if is_osm(&p.kind) { p.elevation as i128 } else { 0 },
    }
}

/// Whether `perm` lists each index below `n` exactly once.
pub open spec fn is_permutation(perm: Seq<int>, n: int) -> bool {
    &&& perm.len() == n
    &&& forall|k: int| 0 <= k < n ==> 0 <= #[trigger] perm[k] < n
    &&& forall|k: int, l: int| 0 <= k < l < n ==> #[trigger] perm[k] != #[trigger] perm[l]
}

/// Whether `r` is `src` sorted stably with the largest key first: `r` is `src`
/// reordered by `perm`, keys do not increase along `r`, and points with equal keys keep
/// their relative order.
pub open spec fn sorted_desc(src: Seq<InputPoint>, r: Seq<InputPoint>, by: SortBy, perm: Seq<int>) -> bool {
    &&& r.len() == src.len()
    &&& is_permutation(perm, src.len() as int)
    &&& forall|k: int| 0 <= k < r.len() ==> #[trigger] r[k] == src[perm[k]]
    &&& forall|k: int, l: int|
        0 <= k < l < r.len() ==> sort_key(#[trigger] r[k], by) >= sort_key(#[trigger] r[l], by)
    &&& forall|k: int, l: int|
        0 <= k < l < r.len() && sort_key(#[trigger] r[k], by) == sort_key(#[trigger] r[l], by)
            ==> perm[k] < perm[l]
}

/// Sorts stably, largest key first (as `sort_by_key` with a reversed key does).
fn sort_desc(points: &mut Vec<InputPoint>, by: SortBy)
    ensures
        exists|perm: Seq<int>| sorted_desc(old(points)@, final(points)@, by, perm),
{
    let src = points.clone();
    proof {
        assert(src@ =~= old(points)@);
    }
    let mut out: Vec<InputPoint> = Vec::new();
    let mut keys: Vec<i128> = Vec::new();
    let ghost mut perm: Seq<int> = Seq::empty();
    let mut i: usize = 0;
    while i < src.len()
        invariant
            i <= src@.len(),
            out@.len() == i,
            keys@.len() == i,
            forall|k: int| 0 <= k < i ==> #[trigger] keys@[k] == sort_key(out@[k], by),
            is_permutation(perm, i as int),
            forall|k: int| 0 <= k < i ==> #[trigger] out@[k] == src@[perm[k]],
            forall|k: int, l: int|
                0 <= k < l < i ==> sort_key(#[trigger] out@[k], by) >= sort_key(#[trigger] out@[l], by),
            forall|k: int, l: int|
                0 <= k < l < i && sort_key(#[trigger] out@[k], by) == sort_key(#[trigger] out@[l], by)
                    ==> perm[k] < perm[l],
        decreases src.len() - i,
    {
        let kk = key_of(&src[i], &by);
        let mut pos: usize = 0;
        while pos < keys.len() && keys[pos] >= kk
            invariant
                pos <= keys@.len(),
                keys@.len() == i,
                forall|k: int| 0 <= k < pos ==> #[trigger] keys@[k] >= kk,
            decreases keys.len() - pos,
        {
            pos = pos + 1;
        }
        let ghost old_out = out@;
        let ghost old_perm = perm;
        let ghost old_keys = keys@;
        proof {
            assert forall|l: int| pos <= l < i implies #[trigger] old_keys[l] < kk by {
                if l > pos {
                    assert(sort_key(old_out[pos as int], by) >= sort_key(old_out[l], by));
                }
            }
        }
        out.insert(pos, src[i]);
        keys.insert(pos, kk);
        proof {
            perm = old_perm.insert(pos as int, i as int);
            let n = i + 1;
            assert forall|k: int| 0 <= k < n implies #[trigger] keys@[k] == sort_key(out@[k], by) by {
                if k < pos {
                    assert(keys@[k] == old_keys[k]);
                } else if k > pos {
                    assert(keys@[k] == old_keys[k - 1]);
                }
            }
            assert forall|k: int| 0 <= k < n implies 0 <= #[trigger] perm[k] < n by {
                if k < pos {
                    assert(perm[k] == old_perm[k]);
                } else if k > pos {
                    assert(perm[k] == old_perm[k - 1]);
                }
            }
            assert forall|k: int, l: int| 0 <= k < l < n implies #[trigger] perm[k] != #[trigger] perm[l] by {
                if k < pos && l < pos {
                    assert(old_perm[k] != old_perm[l]);
                } else if k < pos && l > pos {
                    assert(old_perm[k] != old_perm[l - 1]);
                } else if k > pos && l > pos {
                    assert(old_perm[k - 1] != old_perm[l - 1]);
                } else if k == pos {
                    assert(old_perm[l - 1] < i);
                } else {
                    assert(old_perm[k] < i);
                }
            }
            assert forall|k: int| 0 <= k < n implies #[trigger] out@[k] == src@[perm[k]] by {
                if k < pos {
                    assert(out@[k] == old_out[k]);
                } else if k > pos {
                    assert(out@[k] == old_out[k - 1]);
                }
            }
            assert forall|k: int, l: int|
                0 <= k < l < n implies sort_key(#[trigger] out@[k], by) >= sort_key(#[trigger] out@[l], by) by {
                if k < pos && l < pos {
                    assert(sort_key(old_out[k], by) >= sort_key(old_out[l], by));
                } else if k < pos && l > pos {
                    assert(sort_key(old_out[k], by) >= sort_key(old_out[l - 1], by));
                } else if k > pos && l > pos {
                    assert(sort_key(old_out[k - 1], by) >= sort_key(old_out[l - 1], by));
                } else if k == pos {
                    assert(old_keys[l - 1] < kk);
                } else {
                    assert(old_keys[k] >= kk);
                }
            }
            assert forall|k: int, l: int|
                0 <= k < l < n && sort_key(#[trigger] out@[k], by) == sort_key(#[trigger] out@[l], by)
                    implies perm[k] < perm[l] by {
                if k < pos && l < pos {
                    assert(sort_key(old_out[k], by) == sort_key(old_out[l], by));
                } else if k < pos && l > pos {
                    assert(sort_key(old_out[k], by) == sort_key(old_out[l - 1], by));
                } else if k > pos && l > pos {
                    assert(sort_key(old_out[k - 1], by) == sort_key(old_out[l - 1], by));
                } else if k == pos {
                    assert(old_keys[l - 1] < kk);
                } else {
                    assert(old_perm[k] < i);
                }
            }
        }
        i = i + 1;
    }
    proof {
        assert(sorted_desc(src@, out@, by, perm));
    }
    *points = out;
}

/// Sorts places by decreasing elevation, keeping the order of places of equal elevation.
fn sort_by_elevation(mountains: &mut Vec<InputPoint>)
    ensures
        exists|perm: Seq<int>| sorted_desc(old(mountains)@, final(mountains)@, SortBy::Elevation, perm),
{
    sort_desc(mountains, SortBy::Elevation);
}

/// Sorts places by decreasing population, keeping the order of places of equal population.
fn sort_by_population(cities: &mut Vec<InputPoint>)
    ensures
        exists|perm: Seq<int>| sorted_desc(old(cities)@, final(cities)@, SortBy::Population, perm),
{
    sort_desc(cities, SortBy::Population);
}

/// The position of a kind in the lists of a point collection.
pub open spec fn slot(kind: Kind) -> int {
    match kind {
        Kind::Cities => 0,
        Kind::Controls => 1,
        Kind::GPXWaypoints => 2,
        Kind::Hamlets => 3,
        Kind::Mountains => 4,
        Kind::Villages => 5,
        Kind::CutOff => 6,
    }
}

fn slot_of(kind: &Kind) -> (r: usize)
    ensures
        r == slot(*kind),
        r < 7,
{
    match kind {
        Kind::Cities => 0,
        Kind::Controls => 1,
        Kind::GPXWaypoints => 2,
        Kind::Hamlets => 3,
        Kind::Mountains => 4,
        Kind::Villages => 5,
        Kind::CutOff => 6,
    }
}

/// The points to show along a track, filed by kind: the list of each kind is filed under
/// the kind's slot (a kind without an entry has no points).
pub struct PointCollection {
    map: BTreeMap<usize, Vec<InputPoint>>,
}

/// A group of points placed on a map or profile together, with how hard it is to find
/// room for them (a higher hardness is placed first).
pub struct Packet {
    pub points: Vec<InputPoint>,
    pub hardness: usize,
}

/// A list of packets.
pub type Packets = Vec<Packet>;

impl Packet {
    /// A packet that must be placed: hardness 11.
    pub fn make_forced_packet(points: Vec<InputPoint>) -> (r: Self)
        ensures
            r.hardness == 11,
            r.points == points,
    {
        Self { hardness: 11, points }
    }
}

/// Gives the points of its collection as packets.
pub struct PacketProvider {
    pub collection: PointCollection,
}

impl PacketProvider {
    pub fn new() -> (r: Self)
        ensures
            forall|k: Kind| r.collection.points(k) == Seq::<InputPoint>::empty(),
    {
        Self { collection: PointCollection::new() }
    }
}

/// The hardness of a packet of `n` OpenStreetMap places: ten less the number of places,
/// down to zero.
pub open spec fn osm_hardness(n: nat) -> int {
    10 - if n < 10 { n as int } else { 10 }
}

/// `points` with each point's index set to its position.
pub open spec fn indexed(points: Seq<InputPoint>) -> Seq<InputPoint> {
    Seq::new(points.len(), |i: int| InputPoint { index: Some(i as usize), ..points[i] })
}

/// The points of `points` that `import_osm` files under `kind`, in their order: all
/// the cities, and the villages, hamlets and mountains close to the track.
pub open spec fn osm_selection(points: Seq<InputPoint>, kind: Kind) -> Seq<InputPoint> {
    points.filter(|p: InputPoint| p.kind == kind && (kind == Kind::Cities || p.close_to_track))
}

/// The OpenStreetMap places that `import_osm` files under a kind: all of them are of that
/// kind, and only cities may lie away from the track; every place of the kind that is a
/// city or lies close to the track is among them.
pub proof fn law_osm_places_filed(points: Seq<InputPoint>, kind: Kind)
    ensures
        forall|i: int|
            0 <= i < osm_selection(points, kind).len() ==> (#[trigger] osm_selection(
                points,
                kind,
            )[i]).kind == kind && (kind != Kind::Cities ==> osm_selection(points, kind)[i].close_to_track),
        forall|j: int|
            0 <= j < points.len() && (#[trigger] points[j]).kind == kind && (kind == Kind::Cities
                || points[j].close_to_track) ==> osm_selection(points, kind).contains(points[j]),
{
    let pred = |p: InputPoint| p.kind == kind && (kind == Kind::Cities || p.close_to_track);
    assert forall|i: int| 0 <= i < osm_selection(points, kind).len() implies (
    #[trigger] osm_selection(points, kind)[i]).kind == kind && (kind != Kind::Cities
        ==> osm_selection(points, kind)[i].close_to_track) by {
        points.lemma_filter_pred(pred, i);
    }
    assert forall|j: int|
        0 <= j < points.len() && (#[trigger] points[j]).kind == kind && (kind == Kind::Cities
            || points[j].close_to_track) implies osm_selection(points, kind).contains(points[j]) by {
        points.lemma_filter_contains(pred, j);
    }
}

/// Cities that lie close to, or away from, the track.
pub open spec fn cities_by_closeness(cities: Seq<InputPoint>, close: bool) -> Seq<InputPoint> {
    cities.filter(|p: InputPoint| p.close_to_track == close)
}

impl PointCollection {
    /// The points filed under `kind`.
    pub closed spec fn points(self, kind: Kind) -> Seq<InputPoint> {
        if self.map@.contains_key(slot(kind) as usize) {
            self.map@[slot(kind) as usize]@
        } else {
            Seq::empty()
        }
    }

    /// A copy of this collection.
    pub fn clone(&self) -> (r: Self)
        ensures
            forall|k: Kind| r.points(k) == self.points(k),
    {
        PointCollection { map: self.map.clone() }
    }

    /// An empty collection.
    pub fn new() -> (r: Self)
        ensures
            forall|k: Kind| r.points(k) == Seq::<InputPoint>::empty(),
    {
        PointCollection { map: BTreeMap::new() }
    }

    fn replace_list(&mut self, kind: &Kind, points: Vec<InputPoint>)
        ensures
            final(self).points(*kind) == points@,
            forall|k: Kind| k != *kind ==> final(self).points(k) == old(self).points(k),
    {
        broadcast use vstd::std_specs::btree::group_btree_axioms;
        assert(vstd::laws_cmp::obeys_cmp::<usize>());
        let i = slot_of(kind);
        self.map.insert(i, points);
        proof {
            assert forall|k: Kind| k != *kind implies self.points(k) == old(self).points(k) by {
                assert(slot(k) != slot(*kind));
            }
        }
    }

    /// Drops the list of `kind`.
    fn remove_list(&mut self, kind: &Kind)
        ensures
            final(self).points(*kind) == Seq::<InputPoint>::empty(),
            forall|k: Kind| k != *kind ==> final(self).points(k) == old(self).points(k),
    {
        broadcast use vstd::std_specs::btree::group_btree_axioms;
        assert(vstd::laws_cmp::obeys_cmp::<usize>());
        let i = slot_of(kind);
        self.map.remove(&i);
        proof {
            assert forall|k: Kind| k != *kind implies self.points(k) == old(self).points(k) by {
                assert(slot(k) != slot(*kind));
            }
        }
    }

    /// Files one point under its kind, after the points already there.
    fn push(&mut self, point: InputPoint)
        ensures
            final(self).points(point.kind) == old(self).points(point.kind).push(point),
            forall|k: Kind| k != point.kind ==> final(self).points(k) == old(self).points(k),
    {
        let otype = point.kind();
        let mut v = self.get_vector(&otype);
        v.push(point);
        self.replace_list(&otype, v);
    }

    /// Files `points` under the kind of the first one, each with its position as index;
    /// nothing happens when `points` is empty.
    fn set_vector(&mut self, points: Vec<InputPoint>)
        ensures
            points@.len() == 0 ==> *final(self) == *old(self),
            points@.len() > 0 ==> final(self).points(points@[0].kind) == indexed(points@),
            points@.len() > 0 ==> forall|k: Kind|
                k != points@[0].kind ==> final(self).points(k) == old(self).points(k),
    {
        if points.len() == 0 {
            return;
        }
        let otype = points[0].kind();
        let mut v: Vec<InputPoint> = Vec::new();
        let mut index: usize = 0;
        while index < points.len()
            invariant
                index <= points@.len(),
                v@ == indexed(points@).take(index as int),
            decreases points.len() - index,
        {
            let mut point = points[index];
            point.index = Some(index);
            v.push(point);
            proof {
                assert(v@ =~= indexed(points@).take(index + 1));
            }
            index = index + 1;
        }
        proof {
            assert(v@ =~= indexed(points@));
        }
        self.replace_list(&otype, v);
    }

    /// The points filed under `kind` (none if nothing was filed under it).
    pub fn get_vector(&self, kind: &Kind) -> (r: Vec<InputPoint>)
        ensures
            r@ == self.points(*kind),
    {
        broadcast use vstd::std_specs::btree::group_btree_axioms;
        assert(vstd::laws_cmp::obeys_cmp::<usize>());
        let i = slot_of(kind);
        match self.map.get(&i) {
            Some(v) => {
                let r = v.clone();
                proof {
                    assert(r@ =~= self.points(*kind));
                }
                r
            },
            None => Vec::new(),
        }
    }

    /// The places that may serve as controls: cities, then villages, hamlets and
    /// mountains.
    pub fn potential_controls(&self) -> (r: Vec<InputPoint>)
        ensures
            r@ == self.points(Kind::Cities) + self.points(Kind::Villages) + self.points(
                Kind::Hamlets,
            ) + self.points(Kind::Mountains),
    {
        let mut ret: Vec<InputPoint> = Vec::new();
        let mut a = self.get_vector(&Kind::Cities);
        ret.append(&mut a);
        let mut b = self.get_vector(&Kind::Villages);
        ret.append(&mut b);
        let mut c = self.get_vector(&Kind::Hamlets);
        ret.append(&mut c);
        let mut d = self.get_vector(&Kind::Mountains);
        ret.append(&mut d);
        ret
    }

    /// Files the OpenStreetMap places of `points`: all cities, and the villages, hamlets
    /// and mountains close to the track, replacing those filed before; cities, villages
    /// and hamlets are then sorted by decreasing population, mountains by decreasing
    /// elevation, keeping the order of equals.
    pub fn import_osm(&mut self, points: &Vec<InputPoint>)
        ensures
            exists|perm: Seq<int>|
                sorted_desc(
                    osm_selection(points@, Kind::Cities),
                    final(self).points(Kind::Cities),
                    SortBy::Population,
                    perm,
                ),
            exists|perm: Seq<int>|
                sorted_desc(
                    osm_selection(points@, Kind::Villages),
                    final(self).points(Kind::Villages),
                    SortBy::Population,
                    perm,
                ),
            exists|perm: Seq<int>|
                sorted_desc(
                    osm_selection(points@, Kind::Hamlets),
                    final(self).points(Kind::Hamlets),
                    SortBy::Population,
                    perm,
                ),
            exists|perm: Seq<int>|
                sorted_desc(
                    osm_selection(points@, Kind::Mountains),
                    final(self).points(Kind::Mountains),
                    SortBy::Elevation,
                    perm,
                ),
            forall|k: Kind| !spec_is_osm(k) ==> final(self).points(k) == old(self).points(k),
            forall|k: Kind, i: int|
                #![trigger final(self).points(k)[i]]
                spec_is_osm(k) && 0 <= i < final(self).points(k).len() ==> final(self).points(k)[i].kind
                    == k && (k != Kind::Cities ==> final(self).points(k)[i].close_to_track),
            forall|k: Kind, a: int, b: int|
                #![trigger final(self).points(k)[a], final(self).points(k)[b]]
                (k == Kind::Cities || k == Kind::Villages || k == Kind::Hamlets) && 0 <= a < b
                    < final(self).points(k).len() ==> final(self).points(k)[a].population
                    >= final(self).points(k)[b].population,
            forall|a: int, b: int|
                #![trigger final(self).points(Kind::Mountains)[a], final(self).points(Kind::Mountains)[b]]
                0 <= a < b < final(self).points(Kind::Mountains).len()
                    ==> final(self).points(Kind::Mountains)[a].elevation
                    >= final(self).points(Kind::Mountains)[b].elevation,
    {
        self.replace_list(&Kind::Cities, Vec::new());
        self.replace_list(&Kind::Hamlets, Vec::new());
        self.replace_list(&Kind::Mountains, Vec::new());
        self.replace_list(&Kind::Villages, Vec::new());
        let ghost start = *self;
        let mut index: usize = 0;
        while index < points.len()
            invariant
                index <= points@.len(),
                forall|k: Kind| !spec_is_osm(k) ==> self.points(k) == old(self).points(k),
                forall|k: Kind|
                    spec_is_osm(k) ==> self.points(k) == osm_selection(
                        points@.take(index as int),
                        k,
                    ),
            decreases points.len() - index,
        {
            let wi = points[index];
            proof {
                assert(points@.take(index + 1) =~= points@.take(index as int).push(wi));
                assert forall|k: Kind| spec_is_osm(k) implies #[trigger] osm_selection(points@.take(index + 1), k)
                    == if wi.kind == k && (k == Kind::Cities || wi.close_to_track) {
                        osm_selection(points@.take(index as int), k).push(wi)
                    } else {
                        osm_selection(points@.take(index as int), k)
                    } by {
                    points@.take(index as int).lemma_filter_push(wi, |p: InputPoint| p.kind == k && (k == Kind::Cities || p.close_to_track));
                }
            }
            if is_osm(&wi.kind()) {
                if wi.kind() == Kind::Cities || wi.is_close_to_track() {
                    self.push(wi);
                }
            }
            index = index + 1;
        }
        proof {
            assert(points@.take(points@.len() as int) =~= points@);
            assert(spec_is_osm(Kind::Cities));
            assert(self.points(Kind::Cities) == osm_selection(points@, Kind::Cities));
            assert(spec_is_osm(Kind::Villages));
            assert(self.points(Kind::Villages) == osm_selection(points@, Kind::Villages));
            assert(spec_is_osm(Kind::Hamlets));
            assert(self.points(Kind::Hamlets) == osm_selection(points@, Kind::Hamlets));
            assert(spec_is_osm(Kind::Mountains));
            assert(self.points(Kind::Mountains) == osm_selection(points@, Kind::Mountains));
        }
        let mut mountains = self.get_vector(&Kind::Mountains);
        sort_by_elevation(&mut mountains);
        let ghost m = mountains@;
        self.replace_list(&Kind::Mountains, mountains);
        let mut cities = self.get_vector(&Kind::Cities);
        sort_by_population(&mut cities);
        let ghost c = cities@;
        self.replace_list(&Kind::Cities, cities);
        let mut villages = self.get_vector(&Kind::Villages);
        sort_by_population(&mut villages);
        let ghost v = villages@;
        self.replace_list(&Kind::Villages, villages);
        let mut hamlets = self.get_vector(&Kind::Hamlets);
        sort_by_population(&mut hamlets);
        let ghost h = hamlets@;
        self.replace_list(&Kind::Hamlets, hamlets);
        proof {
            assert(self.points(Kind::Mountains) == m);
            assert(self.points(Kind::Cities) == c);
            assert(self.points(Kind::Villages) == v);
            assert(self.points(Kind::Hamlets) == h);
            assert forall|k: Kind, i: int|
                spec_is_osm(k) && 0 <= i < self.points(k).len() implies (#[trigger] self.points(
                    k,
                )[i]).kind == k && (k != Kind::Cities ==> self.points(k)[i].close_to_track) by {
                law_osm_places_filed(points@, k);
                let by = if k == Kind::Mountains { SortBy::Elevation } else { SortBy::Population };
                let perm = choose|perm: Seq<int>|
                    sorted_desc(osm_selection(points@, k), self.points(k), by, perm);
                assert(self.points(k)[i] == osm_selection(points@, k)[perm[i]]);
            }
            assert forall|k: Kind, a: int, b: int|
                (k == Kind::Cities || k == Kind::Villages || k == Kind::Hamlets) && 0 <= a < b
                    < self.points(k).len() implies #[trigger] self.points(k)[a].population
                    >= #[trigger] self.points(k)[b].population by {
                let perm = choose|perm: Seq<int>|
                    sorted_desc(osm_selection(points@, k), self.points(k), SortBy::Population, perm);
                assert(sort_key(self.points(k)[a], SortBy::Population) >= sort_key(
                    self.points(k)[b],
                    SortBy::Population,
                ));
                assert(spec_is_osm(self.points(k)[a].kind));
                assert(spec_is_osm(self.points(k)[b].kind));
            }
            assert forall|a: int, b: int|
                0 <= a < b < self.points(Kind::Mountains).len() implies #[trigger] self.points(
                    Kind::Mountains,
                )[a].elevation >= #[trigger] self.points(Kind::Mountains)[b].elevation by {
                let perm = choose|perm: Seq<int>|
                    sorted_desc(osm_selection(points@, Kind::Mountains), self.points(Kind::Mountains), SortBy::Elevation, perm);
                assert(sort_key(self.points(Kind::Mountains)[a], SortBy::Elevation) >= sort_key(
                    self.points(Kind::Mountains)[b],
                    SortBy::Elevation,
                ));
                assert(spec_is_osm(self.points(Kind::Mountains)[a].kind));
                assert(spec_is_osm(self.points(Kind::Mountains)[b].kind));
            }
        }
    }

    /// Files `points` as the points of `kind`: the list of `kind` is emptied, then the
    /// points, each with its position as index, are filed under the kind of the first
    /// of them (the kind given, when the points are of that kind).
    pub fn import_other(&mut self, kind: &Kind, points: Vec<InputPoint>)
        ensures
            points@.len() == 0 ==> final(self).points(*kind) == Seq::<InputPoint>::empty(),
            points@.len() > 0 ==> final(self).points(points@[0].kind) == indexed(points@),
            points@.len() > 0 && points@[0].kind != *kind ==> final(self).points(*kind)
                == Seq::<InputPoint>::empty(),
            forall|k: Kind|
                k != *kind && (points@.len() == 0 || k != points@[0].kind) ==> final(self).points(k)
                    == old(self).points(k),
    {
        self.replace_list(kind, Vec::new());
        self.set_vector(points);
    }

    /// Keeps the points of the kinds in `kinds`; the lists of the other kinds are dropped.
    pub fn kinds_cut(&mut self, kinds: &Kinds)
        ensures
            forall|k: Kind|
                #![trigger final(self).points(k)]
                final(self).points(k) == if kinds@.contains(k) {
                    old(self).points(k)
                } else {
                    Seq::<InputPoint>::empty()
                },
    {
        let all = allkinds();
        let mut j: usize = 0;
        while j < all.len()
            invariant
                j <= all@.len(),
                all@ == seq![
                    Kind::CutOff,
                    Kind::GPXWaypoints,
                    Kind::Cities,
                    Kind::Villages,
                    Kind::Controls,
                    Kind::Mountains,
                    Kind::Hamlets,
                ],
                forall|k: Kind|
                    #![trigger self.points(k)]
                    self.points(k) == if all@.take(j as int).contains(k) && !kinds@.contains(k) {
                        Seq::<InputPoint>::empty()
                    } else {
                        old(self).points(k)
                    },
            decreases all.len() - j,
        {
            let kind = all[j];
            let kept = contains_kind(kinds, &kind);
            let ghost before = *self;
            proof {
                assert(!all@.take(j as int).contains(kind)) by {
                    if all@.take(j as int).contains(kind) {
                        let i = choose|i: int| 0 <= i < j && #[trigger] all@.take(j as int)[i] == kind;
                        assert(all@[i] == all@[j as int]);
                    }
                }
            }
            if !kept {
                self.remove_list(&kind);
            }
            proof {
                assert forall|k: Kind| k != kind implies #[trigger] self.points(k) == before.points(k) by {}
                assert(self.points(kind) == if kept { before.points(kind) } else { Seq::<InputPoint>::empty() });
                assert(all@.take(j + 1) =~= all@.take(j as int).push(kind));
                assert forall|k: Kind| all@.take(j + 1).contains(k) == (all@.take(j as int).contains(k) || k == kind) by {
                    if all@.take(j + 1).contains(k) && k != kind {
                        let i = choose|i: int| 0 <= i < j + 1 && #[trigger] all@.take(j + 1)[i] == k;
                        assert(all@.take(j as int)[i] == k);
                    }
                    if k == kind {
                        assert(all@.take(j + 1)[j as int] == k);
                    }
                }
            }
            j = j + 1;
        }
        proof {
            assert forall|k: Kind| all@.contains(k) by {
                match k {
                    Kind::CutOff => { assert(all@[0] == k); },
                    Kind::GPXWaypoints => { assert(all@[1] == k); },
                    Kind::Cities => { assert(all@[2] == k); },
                    Kind::Villages => { assert(all@[3] == k); },
                    Kind::Controls => { assert(all@[4] == k); },
                    Kind::Mountains => { assert(all@[5] == k); },
                    Kind::Hamlets => { assert(all@[6] == k); },
                }
            }
            assert(all@.take(7) =~= all@);
        }
    }

    /// The collection of the points of a rendering, each filed under its kind, in order.
    pub fn from_result(profile: &RenderResult) -> (r: Self)
        ensures
            forall|k: Kind|
                #[trigger] r.points(k) == feature_points(profile.rendered@).filter(
                    |p: InputPoint| p.kind == k,
                ),
    {
        let points = profile.rendered_input_points();
        let mut ret = PointCollection::new();
        let mut i: usize = 0;
        while i < points.len()
            invariant
                i <= points@.len(),
                forall|k: Kind|
                    #[trigger] ret.points(k) == points@.take(i as int).filter(
                        |p: InputPoint| p.kind == k,
                    ),
            decreases points.len() - i,
        {
            let p = points[i];
            ret.push(p);
            proof {
                assert(points@.take(i + 1) =~= points@.take(i as int).push(p));
                assert forall|k: Kind| #[trigger] ret.points(k) == points@.take(i + 1).filter(
                    |q: InputPoint| q.kind == k,
                ) by {
                    points@.take(i as int).lemma_filter_push(p, |q: InputPoint| q.kind == k);
                }
            }
            i = i + 1;
        }
        proof {
            assert(points@.take(points@.len() as int) =~= points@);
        }
        ret
    }

    /// The cities close to the track, by decreasing population.
    fn ontrack_cities(&self) -> (r: Vec<InputPoint>)
        ensures
            exists|perm: Seq<int>|
                sorted_desc(
                    cities_by_closeness(self.points(Kind::Cities), true),
                    r@,
                    SortBy::Population,
                    perm,
                ),
    {
        let cities = self.get_vector(&Kind::Cities);
        let mut kept = retain_closeness(&cities, true);
        sort_by_population(&mut kept);
        kept
    }

    /// The eight most populated cities away from the track, by decreasing population
    /// (all of them if there are fewer).
    pub fn offtrack_cities(&self) -> (r: Vec<InputPoint>)
        ensures
            exists|sorted: Seq<InputPoint>, perm: Seq<int>|
                sorted_desc(
                    cities_by_closeness(self.points(Kind::Cities), false),
                    sorted,
                    SortBy::Population,
                    perm,
                ) && r@ == if sorted.len() > 8 {
                    sorted.take(8)
                } else {
                    sorted
                },
    {
        let cities = self.get_vector(&Kind::Cities);
        let mut kept = retain_closeness(&cities, false);
        sort_by_population(&mut kept);
        let ghost sorted = kept@;
        kept.truncate(8);
        proof {
            if sorted.len() > 8 {
                assert(kept@ =~= sorted.take(8));
            } else {
                assert(kept@ =~= sorted);
            }
        }
        kept
    }

    /// The controls.
    fn controls(&self) -> (r: Vec<InputPoint>)
        ensures
            r@ == self.points(Kind::Controls),
    {
        let controls = self.get_vector(&Kind::Controls);
        let mut ret: Vec<InputPoint> = Vec::new();
        let mut i: usize = 0;
        while i < controls.len()
            invariant
                i <= controls@.len(),
                ret@ == controls@.take(i as int),
            decreases controls.len() - i,
        {
            ret.push(controls[i]);
            proof {
                assert(ret@ =~= controls@.take(i + 1));
            }
            i = i + 1;
        }
        proof {
            assert(ret@ =~= controls@);
        }
        ret
    }

    /// The packets for a profile, from a collection already cut to the range and kinds of
    /// the profile and the GPX waypoints that are not drawn as controls: the controls and
    /// those waypoints (forced), the cut-off points (hardness 0), then the cities close to
    /// the track, the villages and the mountains as packets of OpenStreetMap places.
    pub fn profile_packets(&self, gpx_waypoints: Vec<InputPoint>) -> (r: Packets)
        ensures
            r@.len() == 6,
            r@[0].hardness == 11 && r@[0].points@ == self.points(Kind::Controls),
            r@[1].hardness == 11 && r@[1].points@ == gpx_waypoints@,
            r@[2].hardness == 0 && r@[2].points@ == self.points(Kind::CutOff),
            r@[3].hardness == osm_hardness(r@[3].points@.len()) && exists|perm: Seq<int>|
                sorted_desc(
                    cities_by_closeness(self.points(Kind::Cities), true),
                    r@[3].points@,
                    SortBy::Population,
                    perm,
                ),
            r@[4].hardness == osm_hardness(r@[4].points@.len()) && r@[4].points@ == self.points(
                Kind::Villages,
            ),
            r@[5].hardness == osm_hardness(r@[5].points@.len()) && r@[5].points@ == self.points(
                Kind::Mountains,
            ),
    {
        let mut ret: Packets = Vec::new();
        ret.push(Packet::make_forced_packet(self.controls()));
        ret.push(Packet::make_forced_packet(gpx_waypoints));
        ret.push(Packet { hardness: 0, points: self.get_vector(&Kind::CutOff) });
        let cities = self.ontrack_cities();
        let ghost cs = cities@;
        ret.push(Self::osm_packet(cities));
        ret.push(Self::osm_packet(self.get_vector(&Kind::Villages)));
        ret.push(Self::osm_packet(self.get_vector(&Kind::Mountains)));
        assert(ret@[3].points@ == cs);
        ret
    }

    /// The packets for a map, from a collection already cut to the range and kinds of the
    /// map and the GPX waypoints that are not drawn as controls: the controls and those
    /// waypoints (forced), then the cities close to the track, the villages, the mountains
    /// and the eight largest cities away from the track as packets of OpenStreetMap
    /// places; cut-off points are not drawn on maps.
    pub fn map_packets(&self, gpx_waypoints: Vec<InputPoint>) -> (r: Packets)
        ensures
            r@.len() == 6,
            r@[0].hardness == 11 && r@[0].points@ == self.points(Kind::Controls),
            r@[1].hardness == 11 && r@[1].points@ == gpx_waypoints@,
            r@[2].hardness == osm_hardness(r@[2].points@.len()) && exists|perm: Seq<int>|
                sorted_desc(
                    cities_by_closeness(self.points(Kind::Cities), true),
                    r@[2].points@,
                    SortBy::Population,
                    perm,
                ),
            r@[3].hardness == osm_hardness(r@[3].points@.len()) && r@[3].points@ == self.points(
                Kind::Villages,
            ),
            r@[4].hardness == osm_hardness(r@[4].points@.len()) && r@[4].points@ == self.points(
                Kind::Mountains,
            ),
            r@[5].hardness == osm_hardness(r@[5].points@.len()) && exists|
                sorted: Seq<InputPoint>,
                perm: Seq<int>,
            |
                sorted_desc(
                    cities_by_closeness(self.points(Kind::Cities), false),
                    sorted,
                    SortBy::Population,
                    perm,
                ) && r@[5].points@ == if sorted.len() > 8 {
                    sorted.take(8)
                } else {
                    sorted
                },
    {
        let mut ret: Packets = Vec::new();
        ret.push(Packet::make_forced_packet(self.controls()));
        ret.push(Packet::make_forced_packet(gpx_waypoints));
        ret.push(Self::osm_packet(self.ontrack_cities()));
        ret.push(Self::osm_packet(self.get_vector(&Kind::Villages)));
        ret.push(Self::osm_packet(self.get_vector(&Kind::Mountains)));
        ret.push(Self::osm_packet(self.offtrack_cities()));
        ret
    }

    /// A packet of OpenStreetMap places: the fewer the places, the harder it is (9 for
    /// one place, 0 for ten or more).
    pub fn osm_packet(points: Vec<InputPoint>) -> (r: Packet)
        ensures
            r.hardness == osm_hardness(points@.len()),
            r.points == points,
    {
        let n = if points.len() < 10 { points.len() } else { 10 };
        let hardness = 10 - n;
        Packet { hardness, points }
    }
}

/// The cities of `cities` whose closeness to the track is `close`, in order.
fn retain_closeness(cities: &Vec<InputPoint>, close: bool) -> (r: Vec<InputPoint>)
    ensures
        r@ == cities_by_closeness(cities@, close),
{
    let mut ret: Vec<InputPoint> = Vec::new();
    let mut i: usize = 0;
    while i < cities.len()
        invariant
            i <= cities@.len(),
            ret@ == cities_by_closeness(cities@.take(i as int), close),
        decreases cities.len() - i,
    {
        proof {
            assert(cities@.take(i + 1) =~= cities@.take(i as int).push(cities@[i as int]));
            cities@.take(i as int).lemma_filter_push(cities@[i as int], |p: InputPoint| p.close_to_track == close);
        }
        if cities[i].close_to_track == close {
            ret.push(cities[i]);
        }
        i = i + 1;
    }
    proof {
        assert(cities@.take(cities@.len() as int) =~= cities@);
    }
    ret
}

/// Whether `kinds` holds `kind`.
fn contains_kind(kinds: &Kinds, kind: &Kind) -> (r: bool)
    ensures
        r == kinds@.contains(*kind),
{
    let mut i: usize = 0;
    while i < kinds.len()
        invariant
            i <= kinds@.len(),
            forall|m: int| 0 <= m < i ==> kinds@[m] != *kind,
        decreases kinds.len() - i,
    {
        if kinds[i] == *kind {
            return true;
        }
        i = i + 1;
    }
    false
}

/// A feature drawn on a map or profile: the hardness of the packet it came from, and the
/// point it stands for, if any.
#[derive(Clone, Copy, Debug, PartialEq, Eq, Structural)]
pub struct RenderedFeature {
    pub hardness: usize,
    pub input_point: Option<InputPoint>,
}

/// What a rendering gives back: the drawing, and the features placed on it.
pub struct RenderResult {
    pub svg: String,
    pub rendered: Vec<RenderedFeature>,
}

/// The points of the features that stand for one, in order.
pub open spec fn feature_points(rendered: Seq<RenderedFeature>) -> Seq<InputPoint> {
    rendered.filter(|f: RenderedFeature| f.input_point is Some).map_values(
        |f: RenderedFeature| f.input_point->0,
    )
}

/// The points of the features of hardness `h`, in order.
pub open spec fn points_of_hardness(rendered: Seq<RenderedFeature>, h: usize) -> Seq<InputPoint> {
    feature_points(rendered.filter(|f: RenderedFeature| f.hardness == h))
}

/// The hardnesses of the features that stand for a point.
pub open spec fn hardness_levels(rendered: Seq<RenderedFeature>) -> Set<usize> {
    Set::new(
        |h: usize|
            exists|i: int|
                0 <= i < rendered.len() && (#[trigger] rendered[i]).input_point is Some
                    && rendered[i].hardness == h,
    )
}

/// Whether an OpenStreetMap point of `ps` stands for the place `id`.
pub open spec fn osm_id_seen(ps: Seq<InputPoint>, id: u64) -> bool {
    exists|j: int| 0 <= j < ps.len() && spec_is_osm((#[trigger] ps[j]).kind) && ps[j].map_id == id
}

/// The points of a packet for the map: cut-off points are dropped, and an OpenStreetMap
/// place is kept only the first time it comes.
pub open spec fn map_packet_points(ps: Seq<InputPoint>) -> Seq<InputPoint>
    decreases ps.len(),
{
    if ps.len() == 0 {
        Seq::empty()
    } else {
        let prev = map_packet_points(ps.drop_last());
        let p = ps.last();
        if p.kind == Kind::CutOff {
            prev
        } else if spec_is_osm(p.kind) && osm_id_seen(ps.drop_last(), p.map_id) {
            prev
        } else {
            prev.push(p)
        }
    }
}

impl RenderResult {
    /// The points of the rendered features, in order.
    pub fn rendered_input_points(&self) -> (r: Vec<InputPoint>)
        ensures
            r@ == feature_points(self.rendered@),
    {
        points_where(&self.rendered, false, 0)
    }

    /// The points of the rendered features but the cut-off points, in order.
    pub fn rendered_input_points_for_table(&self) -> (r: Vec<InputPoint>)
        ensures
            r@ == feature_points(self.rendered@).filter(|p: InputPoint| p.kind != Kind::CutOff),
    {
        let points = self.rendered_input_points();
        let mut ret: Vec<InputPoint> = Vec::new();
        let mut i: usize = 0;
        while i < points.len()
            invariant
                i <= points@.len(),
                ret@ == points@.take(i as int).filter(|p: InputPoint| p.kind != Kind::CutOff),
            decreases points.len() - i,
        {
            proof {
                assert(points@.take(i + 1) =~= points@.take(i as int).push(points@[i as int]));
                points@.take(i as int).lemma_filter_push(
                    points@[i as int],
                    |p: InputPoint| p.kind != Kind::CutOff,
                );
            }
            if points[i].kind != Kind::CutOff {
                ret.push(points[i]);
            }
            i = i + 1;
        }
        proof {
            assert(points@.take(points@.len() as int) =~= points@);
        }
        ret
    }

    /// The packets for the map: one per hardness of the rendered features, hardest first,
    /// each holding the points of that hardness in order, without cut-off points and with
    /// each OpenStreetMap place once.
    pub fn packets_for_map(&self) -> (r: Packets)
        ensures
            forall|i: int, j: int| 0 <= i < j < r@.len() ==> r@[i].hardness > r@[j].hardness,
            forall|i: int| 0 <= i < r@.len() ==> hardness_levels(self.rendered@).contains(
                #[trigger] r@[i].hardness,
            ),
            forall|h: usize|
                hardness_levels(self.rendered@).contains(h) ==> exists|i: int|
                    0 <= i < r@.len() && #[trigger] r@[i].hardness == h,
            forall|i: int|
                0 <= i < r@.len() ==> (#[trigger] r@[i]).points@ == map_packet_points(
                    points_of_hardness(self.rendered@, r@[i].hardness),
                ),
    {
        let rendered = &self.rendered;
        let mut levels: BTreeSet<usize> = BTreeSet::new();
        let mut i: usize = 0;
        while i < rendered.len()
            invariant
                i <= rendered@.len(),
                forall|h: usize|
                    levels@.contains(h) <==> exists|k: int|
                        0 <= k < i && (#[trigger] rendered@[k]).input_point is Some
                            && rendered@[k].hardness == h,
            decreases rendered.len() - i,
        {
            if rendered[i].input_point.is_some() {
                levels.insert(rendered[i].hardness);
            }
            proof {
                assert forall|h: usize|
                    levels@.contains(h) <==> exists|k: int|
                        0 <= k < i + 1 && (#[trigger] rendered@[k]).input_point is Some
                            && rendered@[k].hardness == h by {
                    if rendered@[i as int].input_point is Some && rendered@[i as int].hardness == h {
                        assert(rendered@[i as int].input_point is Some);
                    }
                }
            }
            i = i + 1;
        }
        proof {
            assert(levels@ =~= hardness_levels(rendered@));
        }
        let sorted = sorted_indices(&levels);
        let mut ret: Vec<Packet> = Vec::new();
        let mut k: usize = sorted.len();
        while k > 0
            invariant
                k <= sorted@.len(),
                strictly_increasing(sorted@),
                sorted@.to_set() == hardness_levels(rendered@),
                ret@.len() == sorted@.len() - k,
                forall|m: int|
                    0 <= m < ret@.len() ==> #[trigger] ret@[m].hardness == sorted@[sorted@.len() - 1 - m],
                forall|m: int|
                    0 <= m < ret@.len() ==> (#[trigger] ret@[m]).points@ == map_packet_points(
                        points_of_hardness(rendered@, ret@[m].hardness),
                    ),
            decreases k,
        {
            let h = sorted[k - 1];
            let points = points_where(rendered, true, h);
            let kept = keep_for_map(&points);
            ret.push(Packet { hardness: h, points: kept });
            k = k - 1;
        }
        proof {
            let n = sorted@.len();
            assert forall|i: int, j: int| 0 <= i < j < ret@.len() implies ret@[i].hardness
                > ret@[j].hardness by {
                assert(ret@[i].hardness == sorted@[n - 1 - i]);
                assert(ret@[j].hardness == sorted@[n - 1 - j]);
            }
            assert forall|i: int| 0 <= i < ret@.len() implies hardness_levels(rendered@).contains(
                #[trigger] ret@[i].hardness,
            ) by {
                assert(ret@[i].hardness == sorted@[n - 1 - i]);
                assert(sorted@.contains(sorted@[n - 1 - i]));
            }
            assert forall|h: usize| hardness_levels(rendered@).contains(h) implies exists|i: int|
                0 <= i < ret@.len() && #[trigger] ret@[i].hardness == h by {
                assert(sorted@.to_set().contains(h));
                let j = choose|j: int| 0 <= j < n && sorted@[j] == h;
                assert(ret@[n - 1 - j].hardness == sorted@[j]);
            }
        }
        ret
    }
}

/// The points of the features that stand for one, all of them or (`by_hardness`) those of
/// hardness `h`, in order.
fn points_where(rendered: &Vec<RenderedFeature>, by_hardness: bool, h: usize) -> (r: Vec<InputPoint>)
    ensures
        by_hardness ==> r@ == points_of_hardness(rendered@, h),
        !by_hardness ==> r@ == feature_points(rendered@),
{
    let ghost sel = if by_hardness {
        rendered@.filter(|f: RenderedFeature| f.hardness == h)
    } else {
        rendered@
    };
    let mut ret: Vec<InputPoint> = Vec::new();
    let mut i: usize = 0;
    while i < rendered.len()
        invariant
            i <= rendered@.len(),
            ret@ == feature_points(if by_hardness {
                rendered@.take(i as int).filter(|f: RenderedFeature| f.hardness == h)
            } else {
                rendered@.take(i as int)
            }),
        decreases rendered.len() - i,
    {
        let f = rendered[i];
        let ghost t = rendered@.take(i as int);
        proof {
            assert(rendered@.take(i + 1) =~= t.push(f));
            t.lemma_filter_push(f, |f: RenderedFeature| f.hardness == h);
            let base = if by_hardness {
                t.filter(|f: RenderedFeature| f.hardness == h)
            } else {
                t
            };
            base.lemma_filter_push(f, |f: RenderedFeature| f.input_point is Some);
        }
        if !by_hardness || f.hardness == h {
            match f.input_point {
                Some(p) => {
                    let ghost before = ret@;
                    ret.push(p);
                    proof {
                        let base = if by_hardness {
                            t.filter(|f: RenderedFeature| f.hardness == h)
                        } else {
                            t
                        };
                        let fs = base.filter(|f: RenderedFeature| f.input_point is Some);
                        assert(fs.push(f).map_values(|f: RenderedFeature| f.input_point->0)
                            =~= fs.map_values(|f: RenderedFeature| f.input_point->0).push(p));
                    }
                },
                None => {},
            }
        }
        i = i + 1;
    }
    proof {
        assert(rendered@.take(rendered@.len() as int) =~= rendered@);
    }
    ret
}

/// The points of a packet for the map (see `map_packet_points`).
fn keep_for_map(points: &Vec<InputPoint>) -> (r: Vec<InputPoint>)
    ensures
        r@ == map_packet_points(points@),
{
    broadcast use vstd::std_specs::hash::group_hash_axioms;
    let mut seen: HashSet<u64> = HashSet::new();
    let mut ret: Vec<InputPoint> = Vec::new();
    let mut i: usize = 0;
    while i < points.len()
        invariant
            i <= points@.len(),
            ret@ == map_packet_points(points@.take(i as int)),
            forall|id: u64| seen@.contains(id) <==> osm_id_seen(points@.take(i as int), id),
        decreases points.len() - i,
    {
        let p = points[i];
        let ghost t = points@.take(i as int);
        proof {
            assert(points@.take(i + 1) =~= t.push(p));
            assert(points@.take(i + 1).drop_last() =~= t);
        }
        if p.kind == Kind::CutOff {
        } else if is_osm(&p.kind) {
            let fresh = seen.insert(p.map_id);
            if fresh {
                ret.push(p);
            }
        } else {
            ret.push(p);
        }
        proof {
            let t1 = points@.take(i + 1);
            assert forall|id: u64| seen@.contains(id) <==> osm_id_seen(t1, id) by {
                if osm_id_seen(t, id) {
                    let j = choose|j: int| 0 <= j < t.len() && spec_is_osm((#[trigger] t[j]).kind) && t[j].map_id == id;
                    assert(t1[j] == t[j]);
                }
                if spec_is_osm(p.kind) && p.map_id == id {
                    assert(t1[i as int] == p);
                }
                if osm_id_seen(t1, id) {
                    let j = choose|j: int| 0 <= j < t1.len() && spec_is_osm((#[trigger] t1[j]).kind) && t1[j].map_id == id;
                    if j < i {
                        assert(t[j] == t1[j]);
                    }
                }
            }
        }
        i = i + 1;
    }
    proof {
        assert(points@.take(points@.len() as int) =~= points@);
    }
    ret
}

} // verus!
