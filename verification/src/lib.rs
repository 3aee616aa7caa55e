//! Spatiotemporal clustering of detector hit events.
//!
//! A time-sorted stream of pixel "hits" (position, arrival time, intensity)
//! is grouped into clusters that approximate the charge spread of single
//! particle impacts. Several scan strategies share one merge rule; all of
//! them are proved to return exactly the clustering described by the
//! specification function [`clusters_of`] (or, for the bounded-window
//! variant, [`clusters_window_of`]).

use vstd::prelude::*;

pub mod columns;
pub mod laws;
pub mod paper;
pub mod slow_ref;

verus! {

/// One raw detector trigger event: pixel position, arrival time
/// (in detector ticks), and intensity.
#[derive(Clone, Copy, PartialEq, Eq, Structural, Debug)]
pub struct Event {
    pub x: u16,
    pub y: u16,
    pub time: i64,
    pub intens: u16,
}

/// An auxiliary timing trigger; read, stored and re-emitted unchanged.
#[derive(Clone, Copy, PartialEq, Eq, Structural, Debug)]
pub struct Trigger {
    pub time: i64,
    pub type_: u8,
}

/// A group of hits: position and intensity of the strongest contributing
/// hit, earliest contributing time, hit count and wrapping intensity sum.
#[derive(Clone, Copy, PartialEq, Eq, Structural, Debug)]
pub struct Clust {
    pub x: u16,
    pub y: u16,
    pub time: i64,
    pub size: u16,
    pub sum: u16,
    pub intens: u16,
}

/// Absolute value over mathematical integers.
pub open spec fn abs_i(a: int) -> int {
    if a < 0 { -a } else { a }
}

/// Calculates abs(x-y) of unsigned integer variables.
pub fn abs_diff(x: u16, y: u16) -> (r: u16)
    ensures
        r as int == abs_i(x as int - y as int),
{
    u16::saturating_sub(x, y) + u16::saturating_sub(y, x)
}

/// L1 (Manhattan) pixel distance between a hit position and a cluster anchor.
pub open spec fn pixel_dist(hx: u16, hy: u16, cx: u16, cy: u16) -> int {
    abs_i(hx as int - cx as int) + abs_i(hy as int - cy as int)
}

/// Distance between two times, over mathematical integers.
pub open spec fn time_dist(a: i64, b: i64) -> int {
    abs_i(a as int - b as int)
}

/// The merge rule: a hit joins a cluster iff it is within the time
/// threshold AND the pixel threshold. Both bounds are inclusive.
pub open spec fn spec_merges(h: Event, c: Clust, eps_space: u16, eps_time_count: i64) -> bool {
    &&& time_dist(h.time, c.time) <= eps_time_count as int
    &&& pixel_dist(h.x, h.y, c.x, c.y) <= eps_space as int
}

/// A fresh cluster holding exactly one hit.
pub open spec fn singleton_of(h: Event) -> Clust {
    Clust { x: h.x, y: h.y, time: h.time, size: 1, sum: h.intens, intens: h.intens }
}

/// The cluster after one more hit is merged in: the count and the intensity
/// sum are wrapping 16-bit accumulators (wraparound is this library's
/// documented overflow policy); the time tracks the minimum; the anchor
/// position moves only on a strictly stronger hit, so equal intensity keeps
/// the earlier anchor.
pub open spec fn merge_of(c: Clust, h: Event) -> Clust {
    Clust {
        x: if c.intens < h.intens { h.x } else { c.x },
        y: if c.intens < h.intens { h.y } else { c.y },
        time: if h.time < c.time { h.time } else { c.time },
        size: c.size.wrapping_add(1),
        sum: c.sum.wrapping_add(h.intens),
        intens: if c.intens < h.intens { h.intens } else { c.intens },
    }
}

/// Index of the first cluster at or after `i` that the hit merges into,
/// or None if no candidate from `i` on satisfies the merge rule.
pub open spec fn first_match_from(cs: Seq<Clust>, h: Event, eps_space: u16, eps_time_count: i64, i: int) -> Option<int>
    decreases cs.len() - i,
{
    if 0 <= i < cs.len() {
        if spec_merges(h, cs[i], eps_space, eps_time_count) {
            Some(i)
        } else {
            first_match_from(cs, h, eps_space, eps_time_count, i + 1)
        }
    } else {
        None
    }
}

/// One scan step: the hit merges into the first matching cluster at or
/// after `start`, or opens a new singleton cluster at the end.
pub open spec fn scan_from(cs: Seq<Clust>, h: Event, eps_space: u16, eps_time_count: i64, start: int) -> Seq<Clust> {
    match first_match_from(cs, h, eps_space, eps_time_count, start) {
        Some(i) => cs.update(i, merge_of(cs[i], h)),
        None => cs.push(singleton_of(h)),
    }
}

/// Where a bounded window of size `k` begins: only the last `k` clusters
/// are candidates.
pub open spec fn window_start(len: nat, k: nat) -> int {
    if len > k { len - k } else { 0 }
}

/// The reference clustering: every open cluster is a candidate for every
/// hit, tested in creation order, first match wins.
pub open spec fn clusters_of(hits: Seq<Event>, eps_space: u16, eps_time_count: i64) -> Seq<Clust>
    decreases hits.len(),
{
    if hits.len() == 0 {
        Seq::empty()
    } else {
        scan_from(clusters_of(hits.drop_last(), eps_space, eps_time_count), hits.last(), eps_space, eps_time_count, 0)
    }
}

/// The bounded-window clustering: only the last `k` clusters are candidates
/// for each hit. For `k` at least the total cluster count this coincides
/// with [`clusters_of`]; for smaller `k` it is a deliberate approximation.
pub open spec fn clusters_window_of(hits: Seq<Event>, eps_space: u16, eps_time_count: i64, k: nat) -> Seq<Clust>
    decreases hits.len(),
{
    if hits.len() == 0 {
        Seq::empty()
    } else {
        let prev = clusters_window_of(hits.drop_last(), eps_space, eps_time_count, k);
        scan_from(prev, hits.last(), eps_space, eps_time_count, window_start(prev.len(), k))
    }
}

/// The input contract: hit times never decrease along the sequence.
pub open spec fn time_sorted(hits: Seq<Event>) -> bool {
    forall|i: int, j: int| 0 <= i <= j < hits.len() ==> #[trigger] hits[i].time <= #[trigger] hits[j].time
}

/// No two hit times are further apart than `i64::MAX` ticks, so every time
/// difference the scan takes is representable.
pub open spec fn time_span_ok(hits: Seq<Event>) -> bool {
    forall|i: int, j: int|
        0 <= i < hits.len() && 0 <= j < hits.len()
            ==> #[trigger] hits[j].time as int - #[trigger] hits[i].time as int <= i64::MAX as int
}

/// All cluster times lie at or below `hi`.
pub open spec fn times_at_most(cs: Seq<Clust>, hi: i64) -> bool {
    forall|k: int| 0 <= k < cs.len() ==> (#[trigger] cs[k]).time <= hi
}

/// All cluster times lie at or above `lo`.
pub open spec fn times_at_least(cs: Seq<Clust>, lo: i64) -> bool {
    forall|k: int| 0 <= k < cs.len() ==> lo <= (#[trigger] cs[k]).time
}

/// Cluster times never decrease in creation order.
pub open spec fn times_nondecreasing(cs: Seq<Clust>) -> bool {
    forall|a: int, b: int| 0 <= a <= b < cs.len() ==> (#[trigger] cs[a]).time <= (#[trigger] cs[b]).time
}

/// If the hit merges with no cluster in `[a, b)`, the first match from `a`
/// is the first match from `b`.
pub proof fn lemma_first_match_skip(cs: Seq<Clust>, h: Event, eps_space: u16, eps_time_count: i64, a: int, b: int)
    requires
        0 <= a <= b <= cs.len(),
        forall|k: int| a <= k < b ==> !spec_merges(h, #[trigger] cs[k], eps_space, eps_time_count),
    ensures
        first_match_from(cs, h, eps_space, eps_time_count, a) == first_match_from(cs, h, eps_space, eps_time_count, b),
    decreases b - a,
{
    if a < b {
        lemma_first_match_skip(cs, h, eps_space, eps_time_count, a + 1, b);
    }
}

/// A found first match lies in range, satisfies the merge rule, and nothing
/// before it (at or after the scan start) does.
pub proof fn lemma_first_match_some(cs: Seq<Clust>, h: Event, eps_space: u16, eps_time_count: i64, start: int, m: int)
    requires
        first_match_from(cs, h, eps_space, eps_time_count, start) == Some(m),
    ensures
        start <= m < cs.len(),
        spec_merges(h, cs[m], eps_space, eps_time_count),
        forall|k: int| start <= k < m ==> !spec_merges(h, #[trigger] cs[k], eps_space, eps_time_count),
    decreases cs.len() - start,
{
    if 0 <= start < cs.len() && !spec_merges(h, cs[start], eps_space, eps_time_count) {
        lemma_first_match_some(cs, h, eps_space, eps_time_count, start + 1, m);
    }
}

/// The hit is within the time threshold of the cluster. The scan visits a
/// cluster only when its time is at or below the hit's time (the input is
/// time sorted), so the distance is the plain difference.
pub(crate) fn is_current(hit: &Event, c: &Clust, eps_time_count: i64) -> (r: bool)
    requires
        c.time <= hit.time,
        hit.time as int - c.time as int <= i64::MAX as int,
    ensures
        r == (time_dist(hit.time, c.time) <= eps_time_count as int),
{
    hit.time - c.time <= eps_time_count
}

/// The hit is within the pixel threshold of the cluster anchor. The two
/// axis distances are summed in 32 bits so that far-apart pixels cannot
/// overflow the comparison.
pub(crate) fn is_close(hit: &Event, c: &Clust, eps_space: u16) -> (r: bool)
    ensures
        r == (pixel_dist(hit.x, hit.y, c.x, c.y) <= eps_space as int),
{
    abs_diff(hit.x, c.x) as u32 + abs_diff(hit.y, c.y) as u32 <= eps_space as u32
}

/// The cluster value after one hit is merged in; see [`merge_of`].
pub(crate) fn merged_with(c: &Clust, hit: &Event) -> (r: Clust)
    ensures
        r == merge_of(*c, *hit),
{
    let mut r = *c;
    r.size = r.size.wrapping_add(1);
    r.sum = r.sum.wrapping_add(hit.intens);
    if hit.time < r.time {
        r.time = hit.time;
    }
    if r.intens < hit.intens {
        r.intens = hit.intens;
        r.x = hit.x;
        r.y = hit.y;
    }
    r
}

/// A fresh cluster holding exactly this hit; see [`singleton_of`].
pub(crate) fn new_cluster(hit: &Event) -> (c: Clust)
    ensures
        c == singleton_of(*hit),
{
    Clust { x: hit.x, y: hit.y, time: hit.time, size: 1, sum: hit.intens, intens: hit.intens }
}

/// Processing one more hit extends the reference clustering by one scan
/// step over the whole open set.
pub proof fn lemma_clusters_of_snoc(hits: Seq<Event>, i: int, eps_space: u16, eps_time_count: i64)
    requires
        0 <= i < hits.len(),
    ensures
        clusters_of(hits.subrange(0, i + 1), eps_space, eps_time_count)
            == scan_from(clusters_of(hits.subrange(0, i), eps_space, eps_time_count), hits[i], eps_space, eps_time_count, 0),
{
    let s = hits.subrange(0, i + 1);
    assert(s.drop_last() =~= hits.subrange(0, i));
    assert(s.last() == hits[i]);
}

/// Processing one more hit extends the bounded-window clustering by one
/// scan step over the window suffix.
pub proof fn lemma_clusters_window_of_snoc(hits: Seq<Event>, i: int, eps_space: u16, eps_time_count: i64, k: nat)
    requires
        0 <= i < hits.len(),
    ensures
        clusters_window_of(hits.subrange(0, i + 1), eps_space, eps_time_count, k)
            == scan_from(
            clusters_window_of(hits.subrange(0, i), eps_space, eps_time_count, k),
            hits[i],
            eps_space,
            eps_time_count,
            window_start(clusters_window_of(hits.subrange(0, i), eps_space, eps_time_count, k).len(), k),
        ),
{
    let s = hits.subrange(0, i + 1);
    assert(s.drop_last() =~= hits.subrange(0, i));
    assert(s.last() == hits[i]);
}

/// A scan step keeps every cluster time inside `[lo, h.time]` and keeps the
/// creation-order times non-decreasing, provided the incoming hit arrives
/// no earlier than every open cluster (time-sorted input guarantees that).
/// A merge never changes the cluster's time here, because the minimum is
/// already held.
pub proof fn lemma_scan_preserves_shape(cs: Seq<Clust>, h: Event, eps_space: u16, eps_time_count: i64, start: int, lo: i64)
    requires
        times_at_most(cs, h.time),
        times_at_least(cs, lo),
        times_nondecreasing(cs),
        lo <= h.time,
    ensures
        times_at_most(scan_from(cs, h, eps_space, eps_time_count, start), h.time),
        times_at_least(scan_from(cs, h, eps_space, eps_time_count, start), lo),
        times_nondecreasing(scan_from(cs, h, eps_space, eps_time_count, start)),
        cs.len() <= scan_from(cs, h, eps_space, eps_time_count, start).len() <= cs.len() + 1,
{
    let r = scan_from(cs, h, eps_space, eps_time_count, start);
    match first_match_from(cs, h, eps_space, eps_time_count, start) {
        Some(m) => {
            lemma_first_match_some(cs, h, eps_space, eps_time_count, start, m);
            assert(merge_of(cs[m], h).time == cs[m].time);
            assert forall|k: int| 0 <= k < r.len() implies (#[trigger] r[k]).time == cs[k].time by {}
        },
        None => {},
    }
}

/// One scan step over the open clusters, starting at `start`: merge the hit
/// into the first matching cluster, or push a new singleton cluster.
pub(crate) fn scan_hit_from(clusters: &mut Vec<Clust>, hit: &Event, eps_space: u16, eps_time_count: i64, start: usize)
    requires
        start <= old(clusters).len(),
        times_at_most(old(clusters)@, hit.time),
        forall|k: int|
            0 <= k < old(clusters)@.len()
                ==> hit.time as int - (#[trigger] old(clusters)@[k]).time as int <= i64::MAX as int,
    ensures
        final(clusters)@ == scan_from(old(clusters)@, *hit, eps_space, eps_time_count, start as int),
{
    let ghost cs0 = clusters@;
    let len = clusters.len();
    let mut idx = start;
    while idx < len
        invariant
            start <= idx <= len,
            len == clusters@.len(),
            cs0 == old(clusters)@,
            clusters@ == cs0,
            times_at_most(cs0, hit.time),
            forall|k: int| 0 <= k < cs0.len() ==> hit.time as int - (#[trigger] cs0[k]).time as int <= i64::MAX as int,
            first_match_from(cs0, *hit, eps_space, eps_time_count, start as int)
                == first_match_from(cs0, *hit, eps_space, eps_time_count, idx as int),
        decreases len - idx,
    {
        let c = clusters[idx];
        if is_current(hit, &c, eps_time_count) && is_close(hit, &c, eps_space) {
            proof {
                assert(spec_merges(*hit, cs0[idx as int], eps_space, eps_time_count));
                assert(first_match_from(cs0, *hit, eps_space, eps_time_count, idx as int)
                    == Some(idx as int));
            }
            clusters[idx] = merged_with(&c, hit);
            return;
        }
        idx += 1;
    }
    clusters.push(new_cluster(hit));
}

/// One scan step with a compaction cursor: clusters below `oldest_index`
/// are already time-stale for this hit (and, the input being time sorted,
/// for every later hit), so the scan starts at the cursor and advances it
/// past every stale cluster it meets. Because cluster times never decrease
/// in creation order, a stale cluster proves everything before it stale
/// too, and skipping the prefix cannot change the first match: the result
/// is exactly a full scan from index 0.
fn scan_hit_compact(clusters: &mut Vec<Clust>, hit: &Event, eps_space: u16, eps_time_count: i64, oldest_index: usize) -> (new_oldest: usize)
    requires
        oldest_index <= old(clusters).len(),
        times_at_most(old(clusters)@, hit.time),
        times_nondecreasing(old(clusters)@),
        forall|k: int|
            0 <= k < old(clusters)@.len()
                ==> hit.time as int - (#[trigger] old(clusters)@[k]).time as int <= i64::MAX as int,
        forall|k: int|
            0 <= k < oldest_index
                ==> hit.time as int - (#[trigger] old(clusters)@[k]).time as int > eps_time_count as int,
    ensures
        final(clusters)@ == scan_from(old(clusters)@, *hit, eps_space, eps_time_count, 0),
        new_oldest <= final(clusters)@.len(),
        forall|k: int|
            0 <= k < new_oldest
                ==> hit.time as int - (#[trigger] final(clusters)@[k]).time as int > eps_time_count as int,
{
    let ghost cs0 = clusters@;
    proof {
        lemma_first_match_skip(cs0, *hit, eps_space, eps_time_count, 0, oldest_index as int);
    }
    let len = clusters.len();
    let mut oldest = oldest_index;
    let mut idx = oldest_index;
    while idx < len
        invariant
            oldest <= idx <= len,
            len == clusters@.len(),
            cs0 == old(clusters)@,
            clusters@ == cs0,
            times_at_most(cs0, hit.time),
            times_nondecreasing(cs0),
            forall|k: int|
                0 <= k < cs0.len() ==> hit.time as int - (#[trigger] cs0[k]).time as int <= i64::MAX as int,
            forall|k: int|
                0 <= k < oldest ==> hit.time as int - (#[trigger] cs0[k]).time as int > eps_time_count as int,
            first_match_from(cs0, *hit, eps_space, eps_time_count, 0)
                == first_match_from(cs0, *hit, eps_space, eps_time_count, idx as int),
        decreases len - idx,
    {
        let c = clusters[idx];
        if !is_current(hit, &c, eps_time_count) {
            proof {
                assert forall|k: int| 0 <= k < idx + 1 implies hit.time as int
                    - (#[trigger] cs0[k]).time as int > eps_time_count as int by {
                    assert(cs0[k].time <= cs0[idx as int].time);
                }
            }
            oldest = idx;
        } else if is_close(hit, &c, eps_space) {
            proof {
                assert(spec_merges(*hit, cs0[idx as int], eps_space, eps_time_count));
                assert(first_match_from(cs0, *hit, eps_space, eps_time_count, idx as int)
                    == Some(idx as int));
            }
            clusters[idx] = merged_with(&c, hit);
            return oldest;
        }
        idx += 1;
    }
    clusters.push(new_cluster(hit));
    oldest
}

/// Cluster analysis of the hits: the compaction strategy. A monotonically
/// advancing "oldest-active" cursor skips clusters already proven
/// time-stale; the result is proved identical to the reference clustering
/// [`clusters_of`] over all open clusters.
pub fn clust_analysis(hits: &Vec<Event>, eps_space: u16, eps_time_count: i64) -> (r: Vec<Clust>)
    requires
        time_sorted(hits@),
        time_span_ok(hits@),
    ensures
        r@ == clusters_of(hits@, eps_space, eps_time_count),
{
    let mut extracted_cluster: Vec<Clust> = Vec::with_capacity(hits.len() / 2);
    let mut oldest_index: usize = 0;
    let mut i: usize = 0;
    while i < hits.len()
        invariant
            i <= hits.len(),
            time_sorted(hits@),
            time_span_ok(hits@),
            extracted_cluster@ == clusters_of(hits@.subrange(0, i as int), eps_space, eps_time_count),
            oldest_index <= extracted_cluster@.len(),
            i == 0 ==> extracted_cluster@.len() == 0 && oldest_index == 0,
            i > 0 ==> times_at_most(extracted_cluster@, hits@[i as int - 1].time),
            hits@.len() > 0 ==> times_at_least(extracted_cluster@, hits@[0].time),
            times_nondecreasing(extracted_cluster@),
            i < hits.len() ==> forall|k: int|
                0 <= k < oldest_index
                    ==> hits@[i as int].time as int - (#[trigger] extracted_cluster@[k]).time as int
                    > eps_time_count as int,
        decreases hits.len() - i,
    {
        let hit = hits[i];
        let ghost cs = extracted_cluster@;
        proof {
            assert forall|k: int| 0 <= k < cs.len() implies (#[trigger] cs[k]).time <= hit.time by {
                assert(hits@[i as int - 1].time <= hits@[i as int].time);
            }
            assert forall|k: int| 0 <= k < cs.len() implies hit.time as int - (#[trigger] cs[k]).time as int
                <= i64::MAX as int by {
                assert(hits@[0].time <= cs[k].time);
                assert(hits@[i as int].time as int - hits@[0].time as int <= i64::MAX as int);
            }
        }
        oldest_index = scan_hit_compact(&mut extracted_cluster, &hit, eps_space, eps_time_count, oldest_index);
        proof {
            lemma_clusters_of_snoc(hits@, i as int, eps_space, eps_time_count);
            lemma_scan_preserves_shape(cs, hit, eps_space, eps_time_count, 0, hits@[0].time);
            if i + 1 < hits.len() {
                assert forall|k: int| 0 <= k < oldest_index implies hits@[i as int + 1].time as int
                    - (#[trigger] extracted_cluster@[k]).time as int > eps_time_count as int by {
                    assert(hits@[i as int].time <= hits@[i as int + 1].time);
                }
            }
        }
        i += 1;
    }
    proof {
        assert(hits@.subrange(0, hits@.len() as int) =~= hits@);
    }
    extracted_cluster
}

/// Cluster analysis using a cutoff and no dynamic buffer size: for each hit
/// only the last `cut_off` open clusters are candidates. This bounds the
/// per-hit work at the price of splitting clusters whose true match has
/// fallen out of the window; the result is exactly
/// [`clusters_window_of`]`(hits, eps_space, eps_time_count, cut_off)`.
pub fn clust_analysis_cutoff(hits: &Vec<Event>, eps_space: u16, eps_time_count: i64, cut_off: usize) -> (r: Vec<Clust>)
    requires
        time_sorted(hits@),
        time_span_ok(hits@),
    ensures
        r@ == clusters_window_of(hits@, eps_space, eps_time_count, cut_off as nat),
{
    let mut extracted_cluster: Vec<Clust> = Vec::with_capacity(hits.len() / 2);
    let mut i: usize = 0;
    while i < hits.len()
        invariant
            i <= hits.len(),
            time_sorted(hits@),
            time_span_ok(hits@),
            extracted_cluster@ == clusters_window_of(hits@.subrange(0, i as int), eps_space, eps_time_count, cut_off as nat),
            i == 0 ==> extracted_cluster@.len() == 0,
            i > 0 ==> times_at_most(extracted_cluster@, hits@[i as int - 1].time),
            hits@.len() > 0 ==> times_at_least(extracted_cluster@, hits@[0].time),
            times_nondecreasing(extracted_cluster@),
        decreases hits.len() - i,
    {
        let hit = hits[i];
        let ghost cs = extracted_cluster@;
        proof {
            assert forall|k: int| 0 <= k < cs.len() implies (#[trigger] cs[k]).time <= hit.time by {
                assert(hits@[i as int - 1].time <= hits@[i as int].time);
            }
            assert forall|k: int| 0 <= k < cs.len() implies hit.time as int - (#[trigger] cs[k]).time as int
                <= i64::MAX as int by {
                assert(hits@[0].time <= cs[k].time);
                assert(hits@[i as int].time as int - hits@[0].time as int <= i64::MAX as int);
            }
        }
        let total_len = extracted_cluster.len();
        let start_idx = if total_len > cut_off { total_len - cut_off } else { 0 };
        scan_hit_from(&mut extracted_cluster, &hit, eps_space, eps_time_count, start_idx);
        proof {
            lemma_clusters_window_of_snoc(hits@, i as int, eps_space, eps_time_count, cut_off as nat);
            lemma_scan_preserves_shape(cs, hit, eps_space, eps_time_count, start_idx as int, hits@[0].time);
        }
        i += 1;
    }
    proof {
        assert(hits@.subrange(0, hits@.len() as int) =~= hits@);
    }
    extracted_cluster
}

/// Validates the engine's input contract — hit times never decrease and
/// the total time span is representable — so that defensive callers can
/// fail fast instead of silently mis-clustering an unsorted stream.
pub fn check_time_sorted(hits: &Vec<Event>) -> (r: bool)
    ensures
        r == (time_sorted(hits@) && time_span_ok(hits@)),
{
    if hits.len() == 0 {
        return true;
    }
    let mut i: usize = 1;
    while i < hits.len()
        invariant
            1 <= i <= hits@.len(),
            forall|a: int, b: int| 0 <= a <= b < i ==> #[trigger] hits@[a].time <= #[trigger] hits@[b].time,
        decreases hits@.len() - i,
    {
        if hits[i - 1].time > hits[i].time {
            return false;
        }
        proof {
            assert forall|a: int| 0 <= a < i implies #[trigger] hits@[a].time <= hits@[i as int].time by {
                assert(hits@[a].time <= hits@[i as int - 1].time);
            }
        }
        i += 1;
    }
    // Sorted: the extreme pair bounds every difference.
    let first = hits[0].time;
    let last = hits[hits.len() - 1].time;
    let span_ok = first >= 0 || last <= i64::MAX + first;
    proof {
        if span_ok {
            assert forall|a: int, b: int| 0 <= a < hits@.len() && 0 <= b < hits@.len() implies
                #[trigger] hits@[b].time as int - #[trigger] hits@[a].time as int <= i64::MAX as int by {
                assert(hits@[0].time <= hits@[a].time);
                assert(hits@[b].time <= hits@[hits@.len() - 1].time);
            }
        } else {
            assert(hits@[hits@.len() - 1].time as int - hits@[0].time as int > i64::MAX as int);
        }
    }
    span_ok
}

} // verus!

