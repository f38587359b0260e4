use vstd::prelude::*;

use crate::text::{
    chars_of, contains_chars, contains_text, lemma_text_le_antisymmetric, lemma_text_le_reflexive,
    lemma_text_le_total, lemma_text_le_transitive, text_le, text_less_eq, to_lowercase,
    unicode_lowercase,
};

verus! {

/// A named part of a track: `length` consecutive points of the whole track.
#[derive(Debug)]
pub struct TrackPart {
    pub name: String,
    pub part_index: usize,
    pub length: usize,
}

impl Clone for TrackPart {
    fn clone(&self) -> (r: Self)
        ensures
            r == *self,
    {
        TrackPart { name: self.name.clone(), part_index: self.part_index, length: self.length }
    }
}

/// The key by which `karl_order` sorts a part, from its name: the empty text (first)
/// for an empty name or one that holds "start", `zzzz` (last) for one that holds "end"
/// or "ziel", and otherwise the lowercase name; the words are looked for in the
/// lowercase name.
pub open spec fn karl_key(name: Seq<char>) -> Seq<char> {
    if name.len() == 0 {
        Seq::empty()
    } else {
        let low = unicode_lowercase(name);
        if contains_text(low, seq!['e', 'n', 'd']) {
            seq!['z', 'z', 'z', 'z']
        } else if contains_text(low, seq!['z', 'i', 'e', 'l']) {
            seq!['z', 'z', 'z', 'z']
        } else if contains_text(low, seq!['s', 't', 'a', 'r', 't']) {
            Seq::empty()
        } else {
            low
        }
    }
}

/// Whether `perm` lists each index below `n` exactly once.
pub open spec fn is_permutation(perm: Seq<int>, n: int) -> bool {
    &&& perm.len() == n
    &&& forall|k: int| 0 <= k < n ==> 0 <= #[trigger] perm[k] < n
    &&& forall|k: int, l: int| 0 <= k < l < n ==> #[trigger] perm[k] != #[trigger] perm[l]
}

/// Whether `r` is `parts` sorted stably by key: `r` is `parts` reordered by `perm`, its
/// keys are in increasing order, and parts with equal keys keep their relative order.
pub open spec fn stably_sorted_by_key(parts: Seq<TrackPart>, r: Seq<TrackPart>, perm: Seq<int>) -> bool {
    &&& r.len() == parts.len()
    &&& is_permutation(perm, parts.len() as int)
    &&& forall|k: int| 0 <= k < r.len() ==> #[trigger] r[k] == parts[perm[k]]
    &&& forall|k: int, l: int|
        0 <= k < l < r.len() ==> text_le(
            karl_key(#[trigger] r[k].name@),
            karl_key(#[trigger] r[l].name@),
        )
    &&& forall|k: int, l: int|
        0 <= k < l < r.len() && karl_key(#[trigger] r[k].name@) == karl_key(#[trigger] r[l].name@)
            ==> perm[k] < perm[l]
}

fn karl_key_of(name: &String) -> (r: Vec<char>)
    ensures
        r@ == karl_key(name@),
{
    if name.as_str().is_empty() {
        return Vec::new();
    }
    let low = chars_of(to_lowercase(name.as_str()).as_str());
    if contains_chars(&low, &vec!['e', 'n', 'd']) {
        return vec!['z', 'z', 'z', 'z'];
    }
    if contains_chars(&low, &vec!['z', 'i', 'e', 'l']) {
        return vec!['z', 'z', 'z', 'z'];
    }
    if contains_chars(&low, &vec!['s', 't', 'a', 'r', 't']) {
        return Vec::new();
    }
    low
}

/// The parts in the order used to lay them out: parts whose name is empty or holds
/// "start" first, parts whose name holds "end" or "ziel" last, the others in
/// alphabetical order of their lowercase name; parts of equal rank keep their order.
pub fn karl_order(parts: &Vec<TrackPart>) -> (r: Vec<TrackPart>)
    ensures
        exists|perm: Seq<int>| stably_sorted_by_key(parts@, r@, perm),
        forall|k: int, l: int|
            0 <= k < l < r@.len() && is_finish_name(#[trigger] r@[k].name@) && is_plain_name(
                #[trigger] r@[l].name@,
            ) ==> text_le(seq!['z', 'z', 'z', 'z'], unicode_lowercase(r@[l].name@)),
        forall|k: int, l: int|
            0 <= k < l < r@.len() && is_start_name(#[trigger] r@[l].name@) ==> !is_finish_name(
                #[trigger] r@[k].name@,
            ) && (is_plain_name(r@[k].name@) ==> unicode_lowercase(r@[k].name@).len() == 0),
{
    let mut out: Vec<TrackPart> = Vec::new();
    let mut keys: Vec<Vec<char>> = Vec::new();
    let ghost mut perm: Seq<int> = Seq::empty();
    let mut i: usize = 0;
    while i < parts.len()
        invariant
            i <= parts@.len(),
            out@.len() == i,
            keys@.len() == i,
            forall|k: int| 0 <= k < i ==> #[trigger] keys@[k]@ == karl_key(out@[k].name@),
            is_permutation(perm, i as int),
            forall|k: int| 0 <= k < i ==> #[trigger] out@[k] == parts@[perm[k]],
            forall|k: int, l: int|
                0 <= k < l < i ==> text_le(karl_key(#[trigger] out@[k].name@), karl_key(#[trigger] out@[l].name@)),
            forall|k: int, l: int|
                0 <= k < l < i && karl_key(#[trigger] out@[k].name@) == karl_key(#[trigger] out@[l].name@)
                    ==> perm[k] < perm[l],
        decreases parts.len() - i,
    {
        let kk = karl_key_of(&parts[i].name);
        let mut pos: usize = 0;
        while pos < keys.len() && text_less_eq(&keys[pos], &kk)
            invariant
                pos <= keys@.len(),
                keys@.len() == i,
                forall|k: int| 0 <= k < pos ==> text_le(#[trigger] keys@[k]@, kk@),
            decreases keys.len() - pos,
        {
            pos = pos + 1;
        }
        let ghost old_out = out@;
        let ghost old_perm = perm;
        let ghost old_keys = keys@;
        proof {
            // every key from `pos` on comes after the new key, and differs from it
            assert forall|l: int| pos <= l < i implies text_le(kk@, #[trigger] old_keys[l]@) && old_keys[l]@ != kk@ by {
                lemma_text_le_total(old_keys[pos as int]@, kk@);
                if l > pos {
                    assert(text_le(karl_key(old_out[pos as int].name@), karl_key(old_out[l].name@)));
                    lemma_text_le_transitive(kk@, old_keys[pos as int]@, old_keys[l]@);
                    if old_keys[l]@ == kk@ {
                        lemma_text_le_antisymmetric(old_keys[pos as int]@, kk@);
                    }
                }
                if l == pos && old_keys[l]@ == kk@ {
                    lemma_text_le_reflexive(kk@);
                }
            }
        }
        let part = parts[i].clone();
        out.insert(pos, part);
        keys.insert(pos, kk);
        proof {
            perm = old_perm.insert(pos as int, i as int);
            let n = i + 1;
            assert forall|k: int| 0 <= k < n implies #[trigger] keys@[k]@ == karl_key(out@[k].name@) by {
                if k < pos {
                    assert(keys@[k] == old_keys[k]);
                } else if k > pos {
                    assert(keys@[k] == old_keys[k - 1]);
                }
            }
            assert forall|k: int| 0 <= k < n implies 0 <= #[trigger] perm[k] < n by {
                if k < pos {
                    assert(perm[k] == old_perm[k]);
                } else if k > pos {
                    assert(perm[k] == old_perm[k - 1]);
                }
            }
            assert forall|k: int, l: int| 0 <= k < l < n implies #[trigger] perm[k] != #[trigger] perm[l] by {
                if k < pos && l < pos {
                    assert(old_perm[k] != old_perm[l]);
                } else if k < pos && l > pos {
                    assert(old_perm[k] != old_perm[l - 1]);
                } else if k > pos && l > pos {
                    assert(old_perm[k - 1] != old_perm[l - 1]);
                } else if k == pos {
                    assert(old_perm[l - 1] < i);
                } else {
                    assert(old_perm[k] < i);
                }
            }
            assert forall|k: int| 0 <= k < n implies #[trigger] out@[k] == parts@[perm[k]] by {
                if k < pos {
                    assert(out@[k] == old_out[k]);
                } else if k > pos {
                    assert(out@[k] == old_out[k - 1]);
                }
            }
            assert forall|k: int, l: int|
                0 <= k < l < n implies text_le(karl_key(#[trigger] out@[k].name@), karl_key(#[trigger] out@[l].name@)) by {
                if k < pos && l < pos {
                    assert(text_le(karl_key(old_out[k].name@), karl_key(old_out[l].name@)));
                } else if k < pos && l > pos {
                    assert(text_le(karl_key(old_out[k].name@), karl_key(old_out[l - 1].name@)));
                } else if k > pos && l > pos {
                    assert(text_le(karl_key(old_out[k - 1].name@), karl_key(old_out[l - 1].name@)));
                } else if k == pos {
                    assert(text_le(kk@, old_keys[l - 1]@));
                } else {
                    assert(text_le(old_keys[k]@, kk@));
                }
            }
            assert forall|k: int, l: int|
                0 <= k < l < n && karl_key(#[trigger] out@[k].name@) == karl_key(#[trigger] out@[l].name@)
                    implies perm[k] < perm[l] by {
                if k < pos && l < pos {
                    assert(karl_key(old_out[k].name@) == karl_key(old_out[l].name@));
                } else if k < pos && l > pos {
                    assert(karl_key(old_out[k].name@) == karl_key(old_out[l - 1].name@));
                } else if k > pos && l > pos {
                    assert(karl_key(old_out[k - 1].name@) == karl_key(old_out[l - 1].name@));
                } else if k == pos {
                    assert(old_keys[l - 1]@ != kk@);
                } else {
                    assert(old_perm[k] < i);
                }
            }
        }
        i = i + 1;
    }
    proof {
        assert(stably_sorted_by_key(parts@, out@, perm));
        law_karl_order_start_first_finish_last(parts@, out@, perm);
    }
    out
}

/// Whether the lowercase form of `name` holds `word`.
pub open spec fn lower_holds(name: Seq<char>, word: Seq<char>) -> bool {
    contains_text(unicode_lowercase(name), word)
}

/// A name that marks the last part: non-empty, and its lowercase form holds `end` or
/// `ziel`.
pub open spec fn is_finish_name(name: Seq<char>) -> bool {
    name.len() > 0 && (lower_holds(name, seq!['e', 'n', 'd']) || lower_holds(
        name,
        seq!['z', 'i', 'e', 'l'],
    ))
}

/// A name that marks the first part: empty, or its lowercase form holds `start` and
/// neither `end` nor `ziel`.
pub open spec fn is_start_name(name: Seq<char>) -> bool {
    name.len() == 0 || (lower_holds(name, seq!['s', 't', 'a', 'r', 't']) && !is_finish_name(name))
}

/// Any other name: non-empty, and its lowercase form holds none of `end`, `ziel`, `start`.
pub open spec fn is_plain_name(name: Seq<char>) -> bool {
    name.len() > 0 && !is_finish_name(name) && !is_start_name(name)
}

/// In the order of `karl_order`: a part whose (lowercase) name holds `end` or `ziel` comes
/// after every other part whose lowercase name sorts before `zzzz`; a part whose name is
/// empty or holds `start` (and neither `end` nor `ziel`) comes before every part whose
/// name holds `end` or `ziel` and before every other part whose lowercase name is not
/// empty; and other parts come in the order of their lowercase names.
pub proof fn law_karl_order_start_first_finish_last(
    parts: Seq<TrackPart>,
    r: Seq<TrackPart>,
    perm: Seq<int>,
)
    requires
        stably_sorted_by_key(parts, r, perm),
    ensures
        forall|k: int, l: int|
            0 <= k < l < r.len() && is_finish_name(#[trigger] r[k].name@) && is_plain_name(
                #[trigger] r[l].name@,
            ) ==> text_le(seq!['z', 'z', 'z', 'z'], unicode_lowercase(r[l].name@)),
        forall|k: int, l: int|
            0 <= k < l < r.len() && is_start_name(#[trigger] r[l].name@) ==> !is_finish_name(
                #[trigger] r[k].name@,
            ) && (is_plain_name(r[k].name@) ==> unicode_lowercase(r[k].name@).len() == 0),
        forall|k: int, l: int|
            0 <= k < l < r.len() && is_plain_name(#[trigger] r[k].name@) && is_plain_name(
                #[trigger] r[l].name@,
            ) ==> text_le(unicode_lowercase(r[k].name@), unicode_lowercase(r[l].name@)),
{
    assert forall|k: int, l: int|
        0 <= k < l < r.len() && is_start_name(#[trigger] r[l].name@) implies !is_finish_name(
            #[trigger] r[k].name@,
        ) && (is_plain_name(r[k].name@) ==> unicode_lowercase(r[k].name@).len() == 0) by {
        assert(karl_key(r[l].name@) =~= Seq::<char>::empty());
        assert(text_le(karl_key(r[k].name@), karl_key(r[l].name@)));
        if is_finish_name(r[k].name@) {
            assert(karl_key(r[k].name@) =~= seq!['z', 'z', 'z', 'z']);
        }
    }
}

/// What a rendering produces.
#[derive(Clone, Copy, Debug, PartialEq, Eq, Structural, PartialOrd, Ord, Default)]
pub enum RenderFunction {
    /// The map of the track.
    TrackMap,
    Profile,
    Wheel,
    WheelPages,
    #[default]
    Unknown,
}

/// What the horizontal axis of a profile measures time with.
#[derive(Clone, Copy, Debug, PartialEq, Eq, Structural)]
pub enum TimeAxis {
    ConstantSpeed,
    ConstantPower,
}

/// The options of a profile.
#[derive(Clone, Copy, Debug, PartialEq, Eq, Structural)]
pub struct ProfileOptions {
    pub time_axis: TimeAxis,
}

impl Default for ProfileOptions {
    /// Profiles assume a constant speed.
    fn default() -> (r: ProfileOptions)
        ensures
            r.time_axis == TimeAxis::ConstantSpeed,
    {
        ProfileOptions { time_axis: TimeAxis::ConstantSpeed }
    }
}

/// The options of a map (there are none yet).
#[derive(Clone, Copy, Debug, PartialEq, Eq, Structural)]
pub struct MapOptions {}

impl Default for MapOptions {
    fn default() -> (r: MapOptions) {
        MapOptions {}
    }
}

} // verus!
