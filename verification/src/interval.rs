//! Selecting the fragments that touch an interval of variant sites.

use crate::frag::Frag;
use crate::fx::set_insert;
use crate::fx::set_new;
use fxhash::FxHashSet;
use vstd::prelude::*;

verus! {

/// The longest read, in bases, that a sound mapping produces.
pub const MAX_READ_LEN: usize = 150000;

/// The mean distance, in bases, between two variant sites.
pub const SNP_LEN: usize = 45;

/// The widest span of variant sites that a fragment may have and still be
/// selected: a wider one is a chimeric mapping.
pub const MAX_SPAN: usize = MAX_READ_LEN / SNP_LEN;

/// The fragment meets `[start, end]` and is not wider than `MAX_SPAN`.
pub open spec fn touches(f: Frag, start: usize, end: usize) -> bool {
    &&& f.first_position <= end
    &&& f.last_position >= start
    &&& f.last_position - f.first_position <= MAX_SPAN
}

/// The fragments are listed by ascending first position.
pub open spec fn sorted_by_start(frags: Seq<Frag>) -> bool {
    forall|i: int, j: int|
        0 <= i <= j < frags.len() ==> frags[i].first_position <= frags[j].first_position
}

/// Every fragment spans at least one site.
pub open spec fn spans_ordered(frags: Seq<Frag>) -> bool {
    forall|i: int|
        0 <= i < frags.len() ==> (#[trigger] frags[i]).first_position <= frags[i].last_position
}

/// The fragments that a scan from the head of the list selects: those that
/// touch the interval and have no fragment before them that begins after `end`.
pub open spec fn interval_reads(frags: Seq<Frag>, start: usize, end: usize) -> Set<usize> {
    Set::new(
        |i: usize|
            {
                &&& i < frags.len()
                &&& touches(frags[i as int], start, end)
                &&& forall|j: int| 0 <= j < i ==> frags[j].first_position <= end
            },
    )
}

/// All fragments that touch the interval.
pub open spec fn touching(frags: Seq<Frag>, start: usize, end: usize) -> Set<usize> {
    Set::new(|i: usize| i < frags.len() && touches(frags[i as int], start, end))
}

/// On a list sorted by first position the scan selects every fragment that
/// touches the interval.
pub proof fn lemma_sorted_scan(frags: Seq<Frag>, start: usize, end: usize)
    requires
        sorted_by_start(frags),
    ensures
        interval_reads(frags, start, end) == touching(frags, start, end),
{
    assert forall|v: usize|
        touching(frags, start, end).contains(v) implies interval_reads(frags, start, end).contains(
        v,
    ) by {
        assert forall|j: int| 0 <= j < v implies frags[j].first_position <= end by {
            assert(frags[j].first_position <= frags[v as int].first_position);
        }
    }
    assert(interval_reads(frags, start, end) =~= touching(frags, start, end));
}

/// The indices of the fragments that touch `[start, end]`.
///
/// The list is scanned from its head and the scan stops at the first fragment
/// that begins after `end`. On a list sorted by first position the result is
/// the set of all fragments that touch the interval.
pub fn find_reads_in_interval(start: usize, end: usize, all_frags: &Vec<Frag>) -> (reads:
    FxHashSet<usize>)
    requires
        spans_ordered(all_frags@),
    ensures
        reads@ == interval_reads(all_frags@, start, end),
        sorted_by_start(all_frags@) ==> reads@ == touching(all_frags@, start, end),
        reads@.finite(),
{
    let mut reads = set_new();
    let mut i: usize = 0;
    while i < all_frags.len() && all_frags[i].first_position <= end
        invariant
            i <= all_frags.len(),
            spans_ordered(all_frags@),
            reads@.finite(),
            forall|j: int| 0 <= j < i ==> all_frags[j].first_position <= end,
            forall|v: usize|
                reads@.contains(v) <==> v < i && touches(all_frags[v as int], start, end),
        decreases all_frags.len() - i,
    {
        let frag = &all_frags[i];
        if frag.last_position >= start && frag.last_position - frag.first_position <= MAX_SPAN {
            set_insert(&mut reads, i);
        }
        i += 1;
    }
    proof {
        assert forall|v: usize|
            reads@.contains(v) <==> interval_reads(all_frags@, start, end).contains(v) by {
            if interval_reads(all_frags@, start, end).contains(v) {
                if v >= i {
                    if v > i {
                        assert(all_frags[i as int].first_position <= end);
                    }
                    assert(false);
                }
            }
        }
        assert(reads@ =~= interval_reads(all_frags@, start, end));
        if sorted_by_start(all_frags@) {
            lemma_sorted_scan(all_frags@, start, end);
        }
    }
    reads
}

} // verus!
