//! Two further scan strategies, both proved to return exactly the
//! reference clustering [`clusters_of`]: an eviction buffer that physically
//! moves time-stale clusters out of a small working set, and an early-exit
//! scan that stops re-checking the time predicate once one cluster has
//! passed it.

use vstd::prelude::*;

use crate::{
    clusters_of, first_match_from, is_close, is_current, lemma_clusters_of_snoc,
    lemma_first_match_skip, lemma_scan_preserves_shape, merge_of, merged_with, new_cluster,
    scan_from, singleton_of, spec_merges, time_dist, time_sorted, time_span_ok, times_at_least,
    times_at_most, times_nondecreasing, Clust, Event,
};

verus! {

/// One scan step of the eviction-buffer strategy. `extracted` holds the
/// closed clusters, `current` the live working set; their concatenation is
/// the full open set in creation order. Stale clusters are moved out first
/// (with time-sorted input they always form a prefix of the working set,
/// so the move keeps creation order), then only the working set is scanned
/// for a pixel match — the time predicate already holds for all of it.
fn scan_hit_ring(extracted: &mut Vec<Clust>, current: &mut Vec<Clust>, hit: &Event, eps_space: u16, eps_time_count: i64)
    requires
        times_at_most(old(extracted)@ + old(current)@, hit.time),
        times_nondecreasing(old(extracted)@ + old(current)@),
        forall|k: int|
            0 <= k < (old(extracted)@ + old(current)@).len()
                ==> hit.time as int - (#[trigger] (old(extracted)@ + old(current)@)[k]).time as int
                <= i64::MAX as int,
        forall|k: int|
            0 <= k < old(extracted)@.len()
                ==> hit.time as int - (#[trigger] old(extracted)@[k]).time as int > eps_time_count as int,
    ensures
        final(extracted)@ + final(current)@
            == scan_from(old(extracted)@ + old(current)@, *hit, eps_space, eps_time_count, 0),
        forall|k: int|
            0 <= k < final(extracted)@.len()
                ==> hit.time as int - (#[trigger] final(extracted)@[k]).time as int > eps_time_count as int,
{
    let ghost ref0 = extracted@ + current@;
    // Move every time-stale cluster out of the working set.
    let mut j: usize = 0;
    while j < current.len()
        invariant
            j <= current@.len(),
            ref0 == old(extracted)@ + old(current)@,
            extracted@ + current@ == ref0,
            times_at_most(ref0, hit.time),
            times_nondecreasing(ref0),
            forall|k: int|
                0 <= k < ref0.len()
                    ==> hit.time as int - (#[trigger] ref0[k]).time as int <= i64::MAX as int,
            forall|k: int|
                0 <= k < j
                    ==> hit.time as int - (#[trigger] current@[k]).time as int <= eps_time_count as int,
            forall|k: int|
                0 <= k < extracted@.len()
                    ==> hit.time as int - (#[trigger] extracted@[k]).time as int > eps_time_count as int,
        decreases current@.len() - j,
    {
        proof {
            assert(current@[j as int] == ref0[extracted@.len() + j as int]);
        }
        let c = current[j];
        if !is_current(hit, &c, eps_time_count) {
            proof {
                if j > 0 {
                    // A stale cluster after a live one would contradict the
                    // creation-order time monotonicity.
                    assert(current@[j - 1] == ref0[extracted@.len() + j - 1]);
                    assert(ref0[extracted@.len() + j - 1].time <= ref0[extracted@.len() + j as int].time);
                    assert(false);
                }
            }
            let ghost ext0 = extracted@;
            let ghost cur0 = current@;
            let val = current.remove(j);
            extracted.push(val);
            proof {
                assert(extracted@ + current@ =~= ext0 + cur0);
            }
        } else {
            j += 1;
        }
    }
    // The working set is now exactly the time-current suffix; scan it for a
    // pixel match.
    let ghost ext1 = extracted@;
    let ghost cur1 = current@;
    let ghost e = extracted@.len() as int;
    proof {
        assert forall|k: int| 0 <= k < e implies !spec_merges(*hit, #[trigger] ref0[k], eps_space, eps_time_count) by {
            assert(ref0[k] == ext1[k]);
        }
        lemma_first_match_skip(ref0, *hit, eps_space, eps_time_count, 0, e);
    }
    let len = current.len();
    let mut m: usize = 0;
    while m < len
        invariant
            m <= len,
            len == current@.len(),
            ref0 == old(extracted)@ + old(current)@,
            extracted@ == ext1,
            current@ == cur1,
            ext1 + cur1 == ref0,
            e == ext1.len() as int,
            times_at_most(ref0, hit.time),
            forall|k: int|
                0 <= k < ext1.len()
                    ==> hit.time as int - (#[trigger] ext1[k]).time as int > eps_time_count as int,
            forall|k: int|
                0 <= k < cur1.len()
                    ==> hit.time as int - (#[trigger] cur1[k]).time as int <= eps_time_count as int,
            first_match_from(ref0, *hit, eps_space, eps_time_count, 0)
                == first_match_from(ref0, *hit, eps_space, eps_time_count, e + m as int),
        decreases len - m,
    {
        proof {
            assert(cur1[m as int] == ref0[e + m as int]);
        }
        let c = current[m];
        if is_close(hit, &c, eps_space) {
            proof {
                assert(ref0[e + m as int].time <= hit.time);
                assert(spec_merges(*hit, ref0[e + m as int], eps_space, eps_time_count));
                assert(first_match_from(ref0, *hit, eps_space, eps_time_count, e + m as int)
                    == Some(e + m as int));
            }
            current[m] = merged_with(&c, hit);
            proof {
                assert(extracted@ + current@ =~= ref0.update(e + m as int, merge_of(ref0[e + m as int], *hit)));
            }
            return;
        }
        m += 1;
    }
    current.push(new_cluster(hit));
    proof {
        assert(first_match_from(ref0, *hit, eps_space, eps_time_count, ref0.len() as int).is_none());
        assert(extracted@ + current@ =~= ref0.push(singleton_of(*hit)));
    }
}

/// The eviction-buffer strategy: live clusters sit in a small working set
/// and are physically moved out to the result once time-stale. With
/// time-sorted input the output sequence is proved identical to the
/// reference clustering [`clusters_of`], not merely a permutation of it.
pub fn clust_analysis_with_ring(hits: &Vec<Event>, eps_space: u16, eps_time_count: i64) -> (r: Vec<Clust>)
    requires
        time_sorted(hits@),
        time_span_ok(hits@),
    ensures
        r@ == clusters_of(hits@, eps_space, eps_time_count),
{
    let mut current_cluster: Vec<Clust> = Vec::with_capacity(10);
    let mut extracted_cluster: Vec<Clust> = Vec::with_capacity(hits.len() / 2);
    let mut i: usize = 0;
    while i < hits.len()
        invariant
            i <= hits.len(),
            time_sorted(hits@),
            time_span_ok(hits@),
            extracted_cluster@ + current_cluster@
                == clusters_of(hits@.subrange(0, i as int), eps_space, eps_time_count),
            i == 0 ==> extracted_cluster@.len() == 0 && current_cluster@.len() == 0,
            i > 0 ==> times_at_most(extracted_cluster@ + current_cluster@, hits@[i as int - 1].time),
            hits@.len() > 0 ==> times_at_least(extracted_cluster@ + current_cluster@, hits@[0].time),
            times_nondecreasing(extracted_cluster@ + current_cluster@),
            i < hits.len() ==> forall|k: int|
                0 <= k < extracted_cluster@.len()
                    ==> hits@[i as int].time as int - (#[trigger] extracted_cluster@[k]).time as int
                    > eps_time_count as int,
        decreases hits.len() - i,
    {
        let hit = hits[i];
        let ghost cs = extracted_cluster@ + current_cluster@;
        proof {
            assert forall|k: int| 0 <= k < cs.len() implies (#[trigger] cs[k]).time <= hit.time by {
                assert(hits@[i as int - 1].time <= hits@[i as int].time);
            }
            assert forall|k: int| 0 <= k < cs.len() implies hit.time as int - (#[trigger] cs[k]).time as int
                <= i64::MAX as int by {
                assert(hits@[0].time <= cs[k].time);
                assert(hits@[i as int].time as int - hits@[0].time as int <= i64::MAX as int);
            }
            assert forall|k: int| 0 <= k < extracted_cluster@.len() implies hit.time as int
                - (#[trigger] extracted_cluster@[k]).time as int > eps_time_count as int by {
                assert(extracted_cluster@[k] == cs[k]);
            }
        }
        scan_hit_ring(&mut extracted_cluster, &mut current_cluster, &hit, eps_space, eps_time_count);
        proof {
            lemma_clusters_of_snoc(hits@, i as int, eps_space, eps_time_count);
            lemma_scan_preserves_shape(cs, hit, eps_space, eps_time_count, 0, hits@[0].time);
            if i + 1 < hits.len() {
                assert forall|k: int| 0 <= k < extracted_cluster@.len() implies hits@[i as int + 1].time as int
                    - (#[trigger] extracted_cluster@[k]).time as int > eps_time_count as int by {
                    assert(hits@[i as int].time <= hits@[i as int + 1].time);
                }
            }
        }
        i += 1;
    }
    extracted_cluster.append(&mut current_cluster);
    proof {
        assert(hits@.subrange(0, hits@.len() as int) =~= hits@);
    }
    extracted_cluster
}

/// One scan step with a compaction cursor and an early exit on the time
/// predicate: once one cluster has passed the time check, every later one
/// passes it too (cluster times never decrease and stay at or below the
/// hit's time), so the check is skipped for the rest of the scan. The
/// result is exactly a full scan from index 0.
fn scan_hit_skip(clusters: &mut Vec<Clust>, hit: &Event, eps_space: u16, eps_time_count: i64, oldest_index: usize) -> (new_oldest: usize)
    requires
        oldest_index <= old(clusters).len(),
        times_at_most(old(clusters)@, hit.time),
        times_nondecreasing(old(clusters)@),
        forall|k: int|
            0 <= k < old(clusters)@.len()
                ==> hit.time as int - (#[trigger] old(clusters)@[k]).time as int <= i64::MAX as int,
        forall|k: int|
            0 <= k < oldest_index
                ==> hit.time as int - (#[trigger] old(clusters)@[k]).time as int > eps_time_count as int,
    ensures
        final(clusters)@ == scan_from(old(clusters)@, *hit, eps_space, eps_time_count, 0),
        new_oldest <= final(clusters)@.len(),
        forall|k: int|
            0 <= k < new_oldest
                ==> hit.time as int - (#[trigger] final(clusters)@[k]).time as int > eps_time_count as int,
{
    let ghost cs0 = clusters@;
    proof {
        lemma_first_match_skip(cs0, *hit, eps_space, eps_time_count, 0, oldest_index as int);
    }
    let len = clusters.len();
    let mut oldest = oldest_index;
    let mut idx = oldest_index;
    let mut check_time = true;
    while idx < len
        invariant
            oldest <= idx <= len,
            len == clusters@.len(),
            cs0 == old(clusters)@,
            clusters@ == cs0,
            times_at_most(cs0, hit.time),
            times_nondecreasing(cs0),
            forall|k: int|
                0 <= k < cs0.len() ==> hit.time as int - (#[trigger] cs0[k]).time as int <= i64::MAX as int,
            forall|k: int|
                0 <= k < oldest ==> hit.time as int - (#[trigger] cs0[k]).time as int > eps_time_count as int,
            !check_time ==> 1 <= idx
                && hit.time as int - cs0[idx - 1].time as int <= eps_time_count as int,
            first_match_from(cs0, *hit, eps_space, eps_time_count, 0)
                == first_match_from(cs0, *hit, eps_space, eps_time_count, idx as int),
        decreases len - idx,
    {
        let c = clusters[idx];
        let mut time_stale = false;
        if check_time {
            if !is_current(hit, &c, eps_time_count) {
                proof {
                    assert forall|k: int| 0 <= k < idx + 1 implies hit.time as int
                        - (#[trigger] cs0[k]).time as int > eps_time_count as int by {
                        assert(cs0[k].time <= cs0[idx as int].time);
                    }
                }
                oldest = idx;
                time_stale = true;
            } else {
                check_time = false;
            }
        }
        if !time_stale {
            proof {
                // Either the check just passed, or an earlier candidate
                // passed it and monotone times carry it forward.
                assert(hit.time as int - cs0[idx as int].time as int <= eps_time_count as int);
                assert(time_dist(hit.time, cs0[idx as int].time) <= eps_time_count as int);
            }
            if is_close(hit, &c, eps_space) {
                proof {
                    assert(spec_merges(*hit, cs0[idx as int], eps_space, eps_time_count));
                    assert(first_match_from(cs0, *hit, eps_space, eps_time_count, idx as int)
                        == Some(idx as int));
                }
                clusters[idx] = merged_with(&c, hit);
                return oldest;
            }
        }
        idx += 1;
    }
    clusters.push(new_cluster(hit));
    oldest
}

/// The early-exit strategy: a compaction cursor plus a per-hit flag that
/// stops re-evaluating the time predicate once one cluster has passed it.
/// The result is proved identical to the reference clustering
/// [`clusters_of`].
pub fn clust_analysis_skip(hits: &Vec<Event>, eps_space: u16, eps_time_count: i64) -> (r: Vec<Clust>)
    requires
        time_sorted(hits@),
        time_span_ok(hits@),
    ensures
        r@ == clusters_of(hits@, eps_space, eps_time_count),
{
    let mut extracted_cluster: Vec<Clust> = Vec::with_capacity(hits.len() / 2);
    let mut oldest_index: usize = 0;
    let mut i: usize = 0;
    while i < hits.len()
        invariant
            i <= hits.len(),
            time_sorted(hits@),
            time_span_ok(hits@),
            extracted_cluster@ == clusters_of(hits@.subrange(0, i as int), eps_space, eps_time_count),
            oldest_index <= extracted_cluster@.len(),
            i == 0 ==> extracted_cluster@.len() == 0 && oldest_index == 0,
            i > 0 ==> times_at_most(extracted_cluster@, hits@[i as int - 1].time),
            hits@.len() > 0 ==> times_at_least(extracted_cluster@, hits@[0].time),
            times_nondecreasing(extracted_cluster@),
            i < hits.len() ==> forall|k: int|
                0 <= k < oldest_index
                    ==> hits@[i as int].time as int - (#[trigger] extracted_cluster@[k]).time as int
                    > eps_time_count as int,
        decreases hits.len() - i,
    {
        let hit = hits[i];
        let ghost cs = extracted_cluster@;
        proof {
            assert forall|k: int| 0 <= k < cs.len() implies (#[trigger] cs[k]).time <= hit.time by {
                assert(hits@[i as int - 1].time <= hits@[i as int].time);
            }
            assert forall|k: int| 0 <= k < cs.len() implies hit.time as int - (#[trigger] cs[k]).time as int
                <= i64::MAX as int by {
                assert(hits@[0].time <= cs[k].time);
                assert(hits@[i as int].time as int - hits@[0].time as int <= i64::MAX as int);
            }
        }
        oldest_index = scan_hit_skip(&mut extracted_cluster, &hit, eps_space, eps_time_count, oldest_index);
        proof {
            lemma_clusters_of_snoc(hits@, i as int, eps_space, eps_time_count);
            lemma_scan_preserves_shape(cs, hit, eps_space, eps_time_count, 0, hits@[0].time);
            if i + 1 < hits.len() {
                assert forall|k: int| 0 <= k < oldest_index implies hits@[i as int + 1].time as int
                    - (#[trigger] extracted_cluster@[k]).time as int > eps_time_count as int by {
                    assert(hits@[i as int].time <= hits@[i as int + 1].time);
                }
            }
        }
        i += 1;
    }
    proof {
        assert(hits@.subrange(0, hits@.len() as int) =~= hits@);
    }
    extracted_cluster
}

} // verus!
