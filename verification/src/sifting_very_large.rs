//! Sifting on the whole free side for graphs too large even for a cache of
//! one byte for each pair of free vertices.

use vstd::prelude::*;
use crate::bipartite_graph::BipartiteGraph;
use crate::global_abort::AbortFlag;
use crate::heuristic::mean_keys;
use crate::permutation::is_permutation;
use crate::sifting_large::{crossing_count, sift, sifts_to};
use crate::sorting::is_stable_order;

verus! {

/// Orders the free side as `sifting_large` does, but without a cache: every
/// crossing number is computed when it is asked for.
pub fn sifting_very_large(g: &BipartiteGraph, abort: &mut AbortFlag) -> (perm: Vec<usize>)
    requires
        g.wf(),
    ensures
        old(abort).seen() ==> final(abort).seen(),
        is_permutation(perm@, g.n1 as nat),
        forall|base: Seq<usize>|
            is_stable_order(mean_keys(g), base) ==> crossing_count(g, perm@) <= crossing_count(
                g,
                base,
            ),
        old(abort).seen() ==> is_stable_order(mean_keys(g), perm@),
        sifts_to(g, perm@, final(abort).seen()),
{
    sift(g, Vec::new(), abort)
}

} // verus!
