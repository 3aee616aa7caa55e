//! The textbook form of the algorithm: one forward pass that tests both
//! merge predicates on every candidate inside a bounded window of the most
//! recently opened clusters.

use vstd::prelude::*;

use crate::{
    clusters_window_of, lemma_clusters_window_of_snoc, lemma_scan_preserves_shape, scan_hit_from,
    time_sorted, time_span_ok, times_at_least, times_at_most, times_nondecreasing, Clust, Event,
};

verus! {

/// Groups the hits, testing each against the last `b_offset` open clusters
/// in creation order; the first candidate within both thresholds absorbs
/// the hit, otherwise a new cluster opens. Returns exactly
/// [`clusters_window_of`]`(hits, eps_space, eps_time_count, b_offset)`.
pub fn cluster_analysis(hits: &Vec<Event>, eps_space: u16, eps_time_count: i64, b_offset: usize) -> (r: Vec<Clust>)
    requires
        time_sorted(hits@),
        time_span_ok(hits@),
    ensures
        r@ == clusters_window_of(hits@, eps_space, eps_time_count, b_offset as nat),
{
    let mut extracted_cluster: Vec<Clust> = Vec::with_capacity(hits.len() / 2);
    let mut i: usize = 0;
    while i < hits.len()
        invariant
            i <= hits.len(),
            time_sorted(hits@),
            time_span_ok(hits@),
            extracted_cluster@ == clusters_window_of(hits@.subrange(0, i as int), eps_space, eps_time_count, b_offset as nat),
            i == 0 ==> extracted_cluster@.len() == 0,
            i > 0 ==> times_at_most(extracted_cluster@, hits@[i as int - 1].time),
            hits@.len() > 0 ==> times_at_least(extracted_cluster@, hits@[0].time),
            times_nondecreasing(extracted_cluster@),
        decreases hits.len() - i,
    {
        let hit = hits[i];
        let ghost cs = extracted_cluster@;
        proof {
            assert forall|k: int| 0 <= k < cs.len() implies (#[trigger] cs[k]).time <= hit.time by {
                assert(hits@[i as int - 1].time <= hits@[i as int].time);
            }
            assert forall|k: int| 0 <= k < cs.len() implies hit.time as int - (#[trigger] cs[k]).time as int
                <= i64::MAX as int by {
                assert(hits@[0].time <= cs[k].time);
                assert(hits@[i as int].time as int - hits@[0].time as int <= i64::MAX as int);
            }
        }
        let start_idx = extracted_cluster.len().saturating_sub(b_offset);
        scan_hit_from(&mut extracted_cluster, &hit, eps_space, eps_time_count, start_idx);
        proof {
            lemma_clusters_window_of_snoc(hits@, i as int, eps_space, eps_time_count, b_offset as nat);
            lemma_scan_preserves_shape(cs, hit, eps_space, eps_time_count, start_idx as int, hits@[0].time);
        }
        i += 1;
    }
    proof {
        assert(hits@.subrange(0, hits@.len() as int) =~= hits@);
    }
    extracted_cluster
}

} // verus!
