//! Looking up the distance of two reads in a table computed beforehand.

use crate::frag::check_overlap;
use crate::frag::frags_wf;
use crate::frag::overlaps;
use crate::frag::Frag;
use crate::fx::map_get;
use fxhash::FxHashMap;
use vstd::prelude::*;

verus! {

/// The table has an entry for the pair under one of the two reads.
pub open spec fn has_distance(
    all_distances: Map<usize, FxHashMap<usize, i32>>,
    r1: usize,
    r2: usize,
) -> bool {
    &&& all_distances.contains_key(r1)
    &&& all_distances[r1]@.contains_key(r2) || (all_distances.contains_key(r2)
        && all_distances[r2]@.contains_key(r1))
}

/// The entry for the pair: the one under `r1` where there is one, else the
/// one under `r2`.
pub open spec fn distance_entry(
    all_distances: Map<usize, FxHashMap<usize, i32>>,
    r1: usize,
    r2: usize,
) -> i32 {
    if all_distances[r1]@.contains_key(r2) {
        all_distances[r1]@[r2]
    } else {
        all_distances[r2]@[r1]
    }
}

/// The distance of the reads `r1` and `r2` from a table of distances: `None`
/// where the two do not overlap, else the table's entry for them. The table
/// holds the distance of two overlapping reads under one of them.
pub fn dist_from_graph(
    frags: &Vec<Frag>,
    r1: usize,
    r2: usize,
    all_distances: &FxHashMap<usize, FxHashMap<usize, i32>>,
) -> (r: Option<i32>)
    requires
        frags_wf(frags@),
        r1 < frags.len(),
        r2 < frags.len(),
        overlaps(frags[r1 as int], frags[r2 as int]) ==> has_distance(all_distances@, r1, r2),
    ensures
        r == (if overlaps(frags[r1 as int], frags[r2 as int]) {
            Some(distance_entry(all_distances@, r1, r2))
        } else {
            None
        }),
{
    if !check_overlap(&frags[r1], &frags[r2]) {
        return None;
    }
    match map_get(all_distances, r1) {
        Some(map1) => {
            match map_get(map1, r2) {
                Some(dist) => Some(*dist),
                None => {
                    match map_get(all_distances, r2) {
                        Some(map2) => {
                            match map_get(map2, r1) {
                                Some(dist) => Some(*dist),
                                None => None,
                            }
                        },
                        None => None,
                    }
                },
            }
        },
        None => None,
    }
}

} // verus!
