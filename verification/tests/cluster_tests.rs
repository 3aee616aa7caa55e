use cluster_event::paper::cluster_analysis;
use cluster_event::slow_ref::{clust_analysis_skip, clust_analysis_with_ring};
use cluster_event::{abs_diff, check_time_sorted, clust_analysis, clust_analysis_cutoff, Clust, Event};

fn hit(x: u16, y: u16, time: i64, intens: u16) -> Event {
    Event { x, y, time, intens }
}

/// Deterministic synthetic measurement: groups of three nearby hits,
/// separated by time gaps far beyond the merge threshold.
fn synthetic_hits() -> Vec<Event> {
    let mut hits = Vec::new();
    for g in 0u16..50 {
        let bx = (g * 7) % 90;
        let by = (g * 13) % 90;
        let bt = g as i64 * 1_000_000;
        hits.push(hit(bx, by, bt, 10));
        hits.push(hit(bx + 1, by, bt + 100, 30));
        hits.push(hit(bx, by + 1, bt + 200, 20));
    }
    hits
}

#[test]
fn compare_impl() {
    let hits = synthetic_hits();
    let eps_time: f64 = 500e-9;
    let eps_time_count = (eps_time / 1e-12) as i64;
    let clusters = clust_analysis(&hits, 5, eps_time_count);
    let clusters_cutoff = clust_analysis_cutoff(&hits, 5, eps_time_count, 5);
    let clusters_ring = clust_analysis_with_ring(&hits, 5, eps_time_count);
    assert_eq!(clusters_ring.len(), clusters.len());
    for (c1, c2) in clusters.iter().zip(clusters_ring.iter()) {
        assert_eq!(c1.x, c2.x);
        assert_eq!(c1.y, c2.y);
        assert_eq!(c1.intens, c2.intens);
    }
    assert_eq!(clusters_cutoff.len(), clusters.len());
    for (c1, c2) in clusters.iter().zip(clusters_cutoff.iter()) {
        assert_eq!(c1.x, c2.x);
        assert_eq!(c1.y, c2.y);
        assert_eq!(c1.intens, c2.intens);
    }
}

#[test]
fn all_strategies_agree_on_synthetic_data() {
    let hits = synthetic_hits();
    let reference = clust_analysis(&hits, 5, 500_000);
    assert_eq!(reference.len(), 50);
    assert_eq!(clust_analysis_skip(&hits, 5, 500_000), reference);
    assert_eq!(clust_analysis_with_ring(&hits, 5, 500_000), reference);
    // A window larger than the total cluster count sees every candidate.
    assert_eq!(clust_analysis_cutoff(&hits, 5, 500_000, reference.len()), reference);
    assert_eq!(cluster_analysis(&hits, 5, 500_000, hits.len()), reference);
    for c in &reference {
        assert_eq!(c.size, 3);
        assert_eq!(c.sum, 60);
        assert_eq!(c.intens, 30);
    }
}

#[test]
fn repeated_runs_are_identical() {
    let hits = synthetic_hits();
    assert_eq!(clust_analysis(&hits, 5, 500_000), clust_analysis(&hits, 5, 500_000));
    assert_eq!(
        clust_analysis_cutoff(&hits, 5, 500_000, 5),
        clust_analysis_cutoff(&hits, 5, 500_000, 5)
    );
    assert_eq!(
        clust_analysis_with_ring(&hits, 5, 500_000),
        clust_analysis_with_ring(&hits, 5, 500_000)
    );
    assert_eq!(
        clust_analysis_skip(&hits, 5, 500_000),
        clust_analysis_skip(&hits, 5, 500_000)
    );
}

#[test]
fn end_to_end_scenario() {
    let hits = vec![hit(0, 0, 0, 10), hit(1, 0, 1, 20), hit(50, 50, 2, 5)];
    let clusters = clust_analysis(&hits, 5, 10);
    assert_eq!(clusters.len(), 2);
    assert_eq!(
        clusters[0],
        Clust { x: 1, y: 0, time: 0, size: 2, sum: 30, intens: 20 }
    );
    assert_eq!(
        clusters[1],
        Clust { x: 50, y: 50, time: 2, size: 1, sum: 5, intens: 5 }
    );
    // The same scenario through every other strategy.
    assert_eq!(clust_analysis_with_ring(&hits, 5, 10), clusters);
    assert_eq!(clust_analysis_skip(&hits, 5, 10), clusters);
    assert_eq!(clust_analysis_cutoff(&hits, 5, 10, 4), clusters);
    assert_eq!(cluster_analysis(&hits, 5, 10, 4), clusters);
}

#[test]
fn two_neighbors_merge_to_size_two() {
    let hits = vec![hit(10, 10, 0, 4), hit(12, 11, 3, 9)];
    let clusters = clust_analysis(&hits, 5, 10);
    assert_eq!(clusters.len(), 1);
    assert_eq!(
        clusters[0],
        Clust { x: 12, y: 11, time: 0, size: 2, sum: 13, intens: 9 }
    );
}

#[test]
fn boundary_pixel_distance_is_inclusive() {
    // Pixel distance exactly at the threshold still merges.
    let hits = vec![hit(0, 0, 0, 10), hit(5, 0, 1, 10)];
    let clusters = clust_analysis(&hits, 5, 10);
    assert_eq!(clusters.len(), 1);
    assert_eq!(clusters[0].size, 2);
}

#[test]
fn boundary_time_distance_is_inclusive() {
    // Time distance exactly at the threshold still merges.
    let hits = vec![hit(0, 0, 0, 10), hit(0, 0, 10, 10)];
    let clusters = clust_analysis(&hits, 5, 10);
    assert_eq!(clusters.len(), 1);
    assert_eq!(clusters[0].size, 2);
}

#[test]
fn just_beyond_either_threshold_does_not_merge() {
    let far_pixel = vec![hit(0, 0, 0, 10), hit(6, 0, 1, 10)];
    assert_eq!(clust_analysis(&far_pixel, 5, 10).len(), 2);
    let far_time = vec![hit(0, 0, 0, 10), hit(0, 0, 11, 10)];
    assert_eq!(clust_analysis(&far_time, 5, 10).len(), 2);
}

#[test]
fn equal_intensity_keeps_first_anchor() {
    let hits = vec![hit(2, 2, 0, 7), hit(3, 2, 1, 7)];
    let clusters = clust_analysis(&hits, 5, 10);
    assert_eq!(clusters.len(), 1);
    assert_eq!(
        clusters[0],
        Clust { x: 2, y: 2, time: 0, size: 2, sum: 14, intens: 7 }
    );
}

#[test]
fn isolated_hit_stays_a_singleton() {
    let hits = vec![
        hit(0, 0, 0, 10),
        hit(1, 0, 1, 20),
        hit(80, 80, 2, 3),
        hit(0, 1, 3, 5),
    ];
    let clusters = clust_analysis(&hits, 5, 10);
    assert_eq!(clusters.len(), 2);
    assert_eq!(
        clusters[1],
        Clust { x: 80, y: 80, time: 2, size: 1, sum: 3, intens: 3 }
    );
}

#[test]
fn empty_input_gives_empty_output() {
    let hits: Vec<Event> = Vec::new();
    assert!(clust_analysis(&hits, 5, 10).is_empty());
    assert!(clust_analysis_cutoff(&hits, 5, 10, 3).is_empty());
    assert!(clust_analysis_with_ring(&hits, 5, 10).is_empty());
    assert!(clust_analysis_skip(&hits, 5, 10).is_empty());
    assert!(cluster_analysis(&hits, 5, 10, 3).is_empty());
}

#[test]
fn intensity_sum_wraps_on_overflow() {
    let hits = vec![hit(0, 0, 0, 60000), hit(0, 0, 1, 60000)];
    let clusters = clust_analysis(&hits, 5, 10);
    assert_eq!(clusters.len(), 1);
    assert_eq!(clusters[0].size, 2);
    // 120000 mod 65536
    assert_eq!(clusters[0].sum, 54464);
    assert_eq!(clusters[0].intens, 60000);
    assert_eq!(clusters[0].x, 0);
}

#[test]
fn a_small_window_can_even_merge_more_than_the_reference() {
    // With a window of one, the third hit only sees the second cluster,
    // merges into it and drags its anchor close to the fourth hit; the
    // full scan instead merges the third hit into the first cluster. The
    // bounded window is an approximation in both directions: it can split
    // clusters, and (through moved anchors) also join what the reference
    // keeps apart.
    let hits = vec![hit(2, 2, 0, 0), hit(4, 6, 2, 2), hit(2, 4, 2, 3), hit(2, 3, 3, 2)];
    let reference = clust_analysis(&hits, 4, 2);
    let windowed = clust_analysis_cutoff(&hits, 4, 2, 1);
    assert_eq!(reference.len(), 3);
    assert_eq!(windowed.len(), 2);
    assert_eq!(
        reference[0],
        Clust { x: 2, y: 4, time: 0, size: 2, sum: 3, intens: 3 }
    );
    assert_eq!(
        windowed[1],
        Clust { x: 2, y: 4, time: 2, size: 3, sum: 7, intens: 3 }
    );
}

#[test]
fn both_window_variants_agree() {
    let hits = vec![hit(2, 2, 0, 0), hit(4, 6, 2, 2), hit(2, 4, 2, 3), hit(2, 3, 3, 2)];
    for k in 0..6 {
        assert_eq!(
            cluster_analysis(&hits, 4, 2, k),
            clust_analysis_cutoff(&hits, 4, 2, k)
        );
    }
}

#[test]
fn negative_time_threshold_never_merges() {
    let hits = vec![hit(0, 0, 5, 1), hit(0, 0, 5, 2), hit(0, 0, 5, 3)];
    let clusters = clust_analysis(&hits, 5, -1);
    assert_eq!(clusters.len(), 3);
}

#[test]
fn zero_pixel_threshold_merges_only_the_same_pixel() {
    let hits = vec![hit(3, 3, 0, 1), hit(3, 3, 1, 2), hit(3, 4, 2, 3)];
    let clusters = clust_analysis(&hits, 0, 10);
    assert_eq!(clusters.len(), 2);
    assert_eq!(clusters[0].size, 2);
    assert_eq!(clusters[1].size, 1);
}

#[test]
fn abs_diff_is_symmetric() {
    assert_eq!(abs_diff(3, 10), 7);
    assert_eq!(abs_diff(10, 3), 7);
    assert_eq!(abs_diff(42, 42), 0);
    assert_eq!(abs_diff(0, u16::MAX), u16::MAX);
}

#[test]
fn sortedness_check_accepts_and_rejects() {
    let sorted = vec![hit(0, 0, -5, 1), hit(1, 1, 0, 1), hit(2, 2, 7, 1)];
    assert!(check_time_sorted(&sorted));
    let unsorted = vec![hit(0, 0, 3, 1), hit(1, 1, 2, 1)];
    assert!(!check_time_sorted(&unsorted));
    let empty: Vec<Event> = Vec::new();
    assert!(check_time_sorted(&empty));
}

#[test]
fn sortedness_check_rejects_an_unrepresentable_span() {
    let wide = vec![hit(0, 0, i64::MIN, 1), hit(1, 1, i64::MAX, 1)];
    assert!(!check_time_sorted(&wide));
}
