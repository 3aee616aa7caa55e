//! The library's laws: properties of the clustering model that hold for
//! every input, stated and proved once, here, rather than only observed in
//! tests. Each executable strategy ties its result to [`clusters_of`] or
//! [`clusters_window_of`], so these laws carry over to every strategy.

use vstd::prelude::*;

use crate::{
    clusters_of, clusters_window_of, first_match_from, lemma_first_match_some, merge_of,
    pixel_dist, singleton_of, spec_merges, time_dist, time_sorted, times_at_most,
    window_start, Clust, Event,
};

verus! {

/// Determinism: a strategy's result is a function of input and parameters
/// alone, so two runs that both meet the strategy's contract agree exactly,
/// in order and content.
pub proof fn lemma_determinism(hits: Seq<Event>, eps_space: u16, eps_time_count: i64, r1: Seq<Clust>, r2: Seq<Clust>)
    requires
        r1 == clusters_of(hits, eps_space, eps_time_count),
        r2 == clusters_of(hits, eps_space, eps_time_count),
    ensures
        r1 == r2,
{
}

/// Determinism of the bounded-window strategy, in the same sense.
pub proof fn lemma_determinism_window(hits: Seq<Event>, eps_space: u16, eps_time_count: i64, k: nat, r1: Seq<Clust>, r2: Seq<Clust>)
    requires
        r1 == clusters_window_of(hits, eps_space, eps_time_count, k),
        r2 == clusters_window_of(hits, eps_space, eps_time_count, k),
    ensures
        r1 == r2,
{
}

/// Strategy equivalence: the compaction, eviction-buffer and early-exit
/// strategies each ensure equality with the reference clustering, so any
/// two results agree as sequences and hence as multisets of clusters.
pub proof fn lemma_strategy_equivalence(hits: Seq<Event>, eps_space: u16, eps_time_count: i64, r1: Seq<Clust>, r2: Seq<Clust>)
    requires
        r1 == clusters_of(hits, eps_space, eps_time_count),
        r2 == clusters_of(hits, eps_space, eps_time_count),
    ensures
        r1 == r2,
        r1.to_multiset() == r2.to_multiset(),
{
}

/// One more hit never reduces the number of open clusters.
pub proof fn lemma_cluster_count_step(hits: Seq<Event>, eps_space: u16, eps_time_count: i64)
    requires
        hits.len() > 0,
    ensures
        clusters_of(hits.drop_last(), eps_space, eps_time_count).len()
            <= clusters_of(hits, eps_space, eps_time_count).len(),
{
    let prev = clusters_of(hits.drop_last(), eps_space, eps_time_count);
    let h = hits.last();
    match first_match_from(prev, h, eps_space, eps_time_count, 0) {
        Some(m) => {
            lemma_first_match_some(prev, h, eps_space, eps_time_count, 0, m);
            assert(clusters_of(hits, eps_space, eps_time_count)
                == prev.update(m, merge_of(prev[m], h)));
        },
        None => {
            assert(clusters_of(hits, eps_space, eps_time_count) == prev.push(singleton_of(h)));
        },
    }
}

/// The number of open clusters grows with the processed prefix.
pub proof fn lemma_cluster_count_monotone(hits: Seq<Event>, eps_space: u16, eps_time_count: i64, n: int)
    requires
        0 <= n <= hits.len(),
    ensures
        clusters_of(hits.subrange(0, n), eps_space, eps_time_count).len()
            <= clusters_of(hits, eps_space, eps_time_count).len(),
    decreases hits.len() - n,
{
    if n == hits.len() {
        assert(hits.subrange(0, n) =~= hits);
    } else {
        lemma_cluster_count_monotone(hits, eps_space, eps_time_count, n + 1);
        let s = hits.subrange(0, n + 1);
        assert(s.drop_last() =~= hits.subrange(0, n));
        lemma_cluster_count_step(s, eps_space, eps_time_count);
    }
}

/// A window at least as large as the final cluster count sees every open
/// cluster at every step, so the bounded-window clustering coincides with
/// the reference clustering.
pub proof fn lemma_window_covers(hits: Seq<Event>, eps_space: u16, eps_time_count: i64, k: nat)
    requires
        k >= clusters_of(hits, eps_space, eps_time_count).len(),
    ensures
        clusters_window_of(hits, eps_space, eps_time_count, k) == clusters_of(hits, eps_space, eps_time_count),
    decreases hits.len(),
{
    if hits.len() > 0 {
        let prefix = hits.drop_last();
        let prev_ref = clusters_of(prefix, eps_space, eps_time_count);
        assert(prefix =~= hits.subrange(0, hits.len() - 1));
        lemma_cluster_count_monotone(hits, eps_space, eps_time_count, hits.len() - 1);
        lemma_window_covers(prefix, eps_space, eps_time_count, k);
        assert(window_start(prev_ref.len(), k) == 0);
    }
}

/// Merge correctness: two hits within both thresholds of one another, and
/// no other hit, collapse into a single cluster of size 2 whose intensity
/// sum is the sum of both hits.
pub proof fn lemma_pair_merges(h1: Event, h2: Event, eps_space: u16, eps_time_count: i64)
    requires
        spec_merges(h2, singleton_of(h1), eps_space, eps_time_count),
    ensures
        clusters_of(seq![h1, h2], eps_space, eps_time_count) == seq![merge_of(singleton_of(h1), h2)],
        clusters_of(seq![h1, h2], eps_space, eps_time_count)[0].size == 2,
{
    let s = seq![h1, h2];
    let s1 = seq![h1];
    assert(s.drop_last() =~= s1);
    assert(s1.drop_last() =~= Seq::<Event>::empty());
    assert(clusters_of(Seq::<Event>::empty(), eps_space, eps_time_count) =~= Seq::<Clust>::empty());
    assert(clusters_of(s1, eps_space, eps_time_count) =~= seq![singleton_of(h1)]);
    let prev = clusters_of(s1, eps_space, eps_time_count);
    assert(first_match_from(prev, h2, eps_space, eps_time_count, 0) == Some(0int));
    assert(clusters_of(s, eps_space, eps_time_count) =~= seq![merge_of(singleton_of(h1), h2)]);
}

/// Boundary inclusivity: a hit exactly at the pixel threshold, or exactly
/// at the time threshold, still merges — both bounds are inclusive.
pub proof fn lemma_boundary_inclusive(h: Event, c: Clust, eps_space: u16, eps_time_count: i64)
    requires
        (pixel_dist(h.x, h.y, c.x, c.y) == eps_space as int
            && time_dist(h.time, c.time) <= eps_time_count as int)
        || (time_dist(h.time, c.time) == eps_time_count as int
            && pixel_dist(h.x, h.y, c.x, c.y) <= eps_space as int),
    ensures
        spec_merges(h, c, eps_space, eps_time_count),
{
}

/// Tie-break stability: a merging hit of equal intensity leaves the
/// cluster anchored at the earlier hit's position — only a strictly
/// stronger hit moves the anchor.
pub proof fn lemma_tiebreak_keeps_anchor(c: Clust, h: Event)
    requires
        h.intens == c.intens,
    ensures
        merge_of(c, h).x == c.x,
        merge_of(c, h).y == c.y,
        merge_of(c, h).intens == c.intens,
{
}

/// The cluster `c` is anchored at the hit at index `j`: it carries that
/// hit's position and intensity, and opened no later than that hit arrived.
pub open spec fn anchored_in(c: Clust, hits: Seq<Event>, j: int) -> bool {
    &&& 0 <= j < hits.len()
    &&& c.x == hits[j].x
    &&& c.y == hits[j].y
    &&& c.intens == hits[j].intens
    &&& c.time <= hits[j].time
}

/// The cluster is anchored at one of the given hits.
pub open spec fn has_anchor(c: Clust, hits: Seq<Event>) -> bool {
    exists|j: int| anchored_in(c, hits, j)
}

/// Every cluster is anchored at one of the hits it was drawn from.
pub open spec fn anchors_from(cs: Seq<Clust>, hits: Seq<Event>) -> bool {
    forall|k: int| 0 <= k < cs.len() ==> has_anchor(#[trigger] cs[k], hits)
}

/// Dropping the last hit keeps the input time sorted.
proof fn lemma_sorted_drop_last(hits: Seq<Event>)
    requires
        time_sorted(hits),
        hits.len() > 0,
    ensures
        time_sorted(hits.drop_last()),
{
    let prefix = hits.drop_last();
    assert forall|i: int, j: int| 0 <= i <= j < prefix.len() implies #[trigger] prefix[i].time
        <= #[trigger] prefix[j].time by {
        assert(hits[i].time <= hits[j].time);
    }
}

/// On time-sorted input, every cluster of the reference clustering opened
/// no later than the last hit and is anchored at one of the hits: its
/// position and intensity are those of an actual hit, arrived at or after
/// the cluster's own (earliest) time.
pub proof fn lemma_clusters_anchored(hits: Seq<Event>, eps_space: u16, eps_time_count: i64)
    requires
        time_sorted(hits),
    ensures
        hits.len() == 0 ==> clusters_of(hits, eps_space, eps_time_count).len() == 0,
        hits.len() > 0 ==> times_at_most(clusters_of(hits, eps_space, eps_time_count), hits.last().time),
        anchors_from(clusters_of(hits, eps_space, eps_time_count), hits),
    decreases hits.len(),
{
    if hits.len() == 0 {
    } else {
        let prefix = hits.drop_last();
        let h = hits.last();
        lemma_sorted_drop_last(hits);
        lemma_clusters_anchored(prefix, eps_space, eps_time_count);
        let prev = clusters_of(prefix, eps_space, eps_time_count);
        let cs = clusters_of(hits, eps_space, eps_time_count);
        assert(times_at_most(prev, h.time)) by {
            if prefix.len() > 0 {
                assert(hits[hits.len() - 2].time <= hits[hits.len() - 1].time);
                assert forall|k: int| 0 <= k < prev.len() implies (#[trigger] prev[k]).time <= h.time by {
                    assert(prev[k].time <= prefix.last().time);
                }
            }
        }
        // Anchors of the prefix remain anchors of the whole input.
        assert forall|k: int| 0 <= k < prev.len() implies has_anchor(#[trigger] prev[k], hits) by {
            assert(has_anchor(prev[k], prefix));
            let j = choose|j: int| anchored_in(prev[k], prefix, j);
            assert(anchored_in(prev[k], hits, j));
        }
        match first_match_from(prev, h, eps_space, eps_time_count, 0) {
            Some(m) => {
                lemma_first_match_some(prev, h, eps_space, eps_time_count, 0, m);
                assert(cs == prev.update(m, merge_of(prev[m], h)));
                assert(merge_of(prev[m], h).time == prev[m].time);
                assert forall|k: int| 0 <= k < cs.len() implies has_anchor(#[trigger] cs[k], hits) by {
                    if k == m {
                        if prev[m].intens < h.intens {
                            assert(anchored_in(cs[k], hits, hits.len() - 1));
                        } else {
                            assert(has_anchor(prev[m], hits));
                            let j = choose|j: int| anchored_in(prev[m], hits, j);
                            assert(anchored_in(cs[k], hits, j));
                        }
                    } else {
                        assert(cs[k] == prev[k]);
                        assert(has_anchor(prev[k], hits));
                    }
                }
                assert(times_at_most(cs, h.time));
            },
            None => {
                assert(cs == prev.push(singleton_of(h)));
                assert forall|k: int| 0 <= k < cs.len() implies has_anchor(#[trigger] cs[k], hits) by {
                    if k == cs.len() - 1 {
                        assert(anchored_in(cs[k], hits, hits.len() - 1));
                    } else {
                        assert(cs[k] == prev[k]);
                        assert(has_anchor(prev[k], hits));
                    }
                }
                assert(times_at_most(cs, h.time));
            },
        }
    }
}

/// The hit at `i` has no neighbor among the other hits within both
/// inclusive thresholds.
pub open spec fn isolated(hits: Seq<Event>, i: int, eps_space: u16, eps_time_count: i64) -> bool {
    forall|j: int|
        0 <= j < hits.len() && j != i
            ==> !(pixel_dist(hits[i].x, hits[i].y, (#[trigger] hits[j]).x, hits[j].y) <= eps_space as int
                && time_dist(hits[i].time, hits[j].time) <= eps_time_count as int)
}

/// Once the isolated hit's singleton cluster stands at index `p`, no later
/// hit ever merges into it, so it survives to the final result unchanged.
proof fn lemma_singleton_stays(hits: Seq<Event>, eps_space: u16, eps_time_count: i64, i: int, m: int, p: int)
    requires
        time_sorted(hits),
        isolated(hits, i, eps_space, eps_time_count),
        0 <= i < m <= hits.len(),
        0 <= p < clusters_of(hits.subrange(0, m), eps_space, eps_time_count).len(),
        clusters_of(hits.subrange(0, m), eps_space, eps_time_count)[p] == singleton_of(hits[i]),
    ensures
        0 <= p < clusters_of(hits, eps_space, eps_time_count).len(),
        clusters_of(hits, eps_space, eps_time_count)[p] == singleton_of(hits[i]),
    decreases hits.len() - m,
{
    if m == hits.len() {
        assert(hits.subrange(0, m) =~= hits);
    } else {
        let cs_m = clusters_of(hits.subrange(0, m), eps_space, eps_time_count);
        let h = hits[m];
        crate::lemma_clusters_of_snoc(hits, m, eps_space, eps_time_count);
        let cs_m1 = clusters_of(hits.subrange(0, m + 1), eps_space, eps_time_count);
        match first_match_from(cs_m, h, eps_space, eps_time_count, 0) {
            Some(q) => {
                lemma_first_match_some(cs_m, h, eps_space, eps_time_count, 0, q);
                if q == p {
                    // The later hit would have to be a within-threshold
                    // neighbor of the isolated hit itself.
                    assert(spec_merges(h, singleton_of(hits[i]), eps_space, eps_time_count));
                    assert(pixel_dist(hits[i].x, hits[i].y, hits[m].x, hits[m].y)
                        == pixel_dist(h.x, h.y, hits[i].x, hits[i].y));
                    assert(time_dist(hits[i].time, hits[m].time) == time_dist(h.time, hits[i].time));
                    assert(false);
                }
                assert(cs_m1[p] == cs_m[p]);
            },
            None => {
                assert(cs_m1[p] == cs_m[p]);
            },
        }
        lemma_singleton_stays(hits, eps_space, eps_time_count, i, m + 1, p);
    }
}

/// Singleton preservation: a hit with no time/space neighbor within the
/// thresholds always produces its own cluster of size 1 — it never joins an
/// existing cluster, and no later hit ever joins it.
pub proof fn lemma_singleton_preserved(hits: Seq<Event>, eps_space: u16, eps_time_count: i64, i: int)
    requires
        time_sorted(hits),
        0 <= i < hits.len(),
        isolated(hits, i, eps_space, eps_time_count),
    ensures
        exists|k: int|
            0 <= k < clusters_of(hits, eps_space, eps_time_count).len()
                && #[trigger] clusters_of(hits, eps_space, eps_time_count)[k] == singleton_of(hits[i]),
{
    let si = hits.subrange(0, i);
    let h = hits[i];
    assert(time_sorted(si)) by {
        assert forall|a: int, b: int| 0 <= a <= b < si.len() implies #[trigger] si[a].time
            <= #[trigger] si[b].time by {
            assert(hits[a].time <= hits[b].time);
        }
    }
    lemma_clusters_anchored(si, eps_space, eps_time_count);
    let cs_i = clusters_of(si, eps_space, eps_time_count);
    assert(times_at_most(cs_i, h.time)) by {
        if i > 0 {
            assert(hits[i - 1].time <= hits[i].time);
            assert forall|k: int| 0 <= k < cs_i.len() implies (#[trigger] cs_i[k]).time <= h.time by {
                assert(cs_i[k].time <= si.last().time);
            }
        }
    }
    // The isolated hit matches no existing cluster: a match would make the
    // cluster's anchor hit a within-threshold neighbor.
    match first_match_from(cs_i, h, eps_space, eps_time_count, 0) {
        Some(q) => {
            lemma_first_match_some(cs_i, h, eps_space, eps_time_count, 0, q);
            assert(has_anchor(cs_i[q], si));
            let j = choose|j: int| anchored_in(cs_i[q], si, j);
            assert(si[j] == hits[j]);
            assert(hits[j].time <= hits[i].time);
            assert(time_dist(h.time, cs_i[q].time) == h.time as int - cs_i[q].time as int);
            assert(time_dist(hits[i].time, hits[j].time) <= h.time as int - cs_i[q].time as int);
            assert(pixel_dist(hits[i].x, hits[i].y, hits[j].x, hits[j].y)
                == pixel_dist(h.x, h.y, cs_i[q].x, cs_i[q].y));
            assert(false);
        },
        None => {},
    }
    crate::lemma_clusters_of_snoc(hits, i, eps_space, eps_time_count);
    let cs_i1 = clusters_of(hits.subrange(0, i + 1), eps_space, eps_time_count);
    assert(si =~= hits.subrange(0, i));
    assert(cs_i1 == cs_i.push(singleton_of(h)));
    let p = cs_i.len() as int;
    lemma_singleton_stays(hits, eps_space, eps_time_count, i, i + 1, p);
    assert(clusters_of(hits, eps_space, eps_time_count)[p] == singleton_of(hits[i]));
}

/// Empty input: zero hits produce zero clusters, for the reference and for
/// every window size.
pub proof fn lemma_empty_input(eps_space: u16, eps_time_count: i64, k: nat)
    ensures
        clusters_of(Seq::empty(), eps_space, eps_time_count) == Seq::<Clust>::empty(),
        clusters_window_of(Seq::empty(), eps_space, eps_time_count, k) == Seq::<Clust>::empty(),
{
}

} // verus!
