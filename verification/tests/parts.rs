use ordered_float::NotNan;
use rust_fast_cluster::cache::DistanceCache;
use rust_fast_cluster::candidate::Candidate;
use rust_fast_cluster::clustering::names_ward;
use rust_fast_cluster::condensed::{condensed_index, point_count};
use rust_fast_cluster::distance::{finite, rank_of};
use rust_fast_cluster::queue::CandidateQueue;

fn candidate(dist: f64, lo: usize, hi: usize) -> Candidate {
    Candidate { dist: dist.to_bits(), lo, hi }
}

fn samples() -> Vec<f64> {
    vec![
        -f64::MAX,
        -1.0e10,
        -2.5,
        -1.0,
        -f64::MIN_POSITIVE,
        -5e-324,
        -0.0,
        0.0,
        5e-324,
        f64::MIN_POSITIVE,
        0.1,
        1.0,
        1.0000000000000002,
        2.5,
        1.0e10,
        f64::MAX,
    ]
}

#[test]
fn offsets_follow_the_rows_of_the_upper_triangle() {
    assert_eq!(condensed_index(0, 1, 4), 0);
    assert_eq!(condensed_index(0, 2, 4), 1);
    assert_eq!(condensed_index(0, 3, 4), 2);
    assert_eq!(condensed_index(1, 2, 4), 3);
    assert_eq!(condensed_index(1, 3, 4), 4);
    assert_eq!(condensed_index(2, 3, 4), 5);
    assert_eq!(condensed_index(0, 1, 2), 0);
}

#[test]
fn offsets_count_up_through_all_pairs() {
    for n in 2..40usize {
        let mut k = 0;
        for i in 0..n {
            for j in (i + 1)..n {
                assert_eq!(condensed_index(i, j, n), k);
                k += 1;
            }
        }
        assert_eq!(k, n * (n - 1) / 2);
    }
}

#[test]
fn an_offset_is_computed_for_the_largest_matrix() {
    let n: usize = 6074001000;
    assert_eq!(condensed_index(n - 2, n - 1, n), 18446744070963499499);
    assert_eq!(condensed_index(0, n - 1, n), n - 2);
    assert_eq!(condensed_index(1, 2, n), n - 1);
}

#[test]
fn point_counts_are_found_for_triangular_lengths_only() {
    assert_eq!(point_count(0), None);
    assert_eq!(point_count(1), Some(2));
    assert_eq!(point_count(2), None);
    assert_eq!(point_count(3), Some(3));
    assert_eq!(point_count(5), None);
    assert_eq!(point_count(6), Some(4));
    assert_eq!(point_count(10), Some(5));
    assert_eq!(point_count(4950), Some(100));
    assert_eq!(point_count(4951), None);
    assert_eq!(point_count(usize::MAX), None);
    assert_eq!(point_count(18446744070963499500), Some(6074001000));
    assert_eq!(point_count(18446744070963499499), None);
    assert_eq!(point_count(18446744070963499501), None);
}

#[test]
fn finite_patterns_are_told_from_infinities_and_nans() {
    for x in samples() {
        assert!(finite(x.to_bits()));
    }
    assert!(!finite(f64::INFINITY.to_bits()));
    assert!(!finite(f64::NEG_INFINITY.to_bits()));
    assert!(!finite(f64::NAN.to_bits()));
    assert!(!finite((-f64::NAN).to_bits()));
    assert!(!finite(u64::MAX));
    assert!(finite(0x7fef_ffff_ffff_ffff));
    assert!(!finite(0x7ff0_0000_0000_0000));
}

#[test]
fn ranks_are_signed_magnitudes() {
    assert_eq!(rank_of(0), 0);
    assert_eq!(rank_of(0x8000_0000_0000_0000), 0);
    assert_eq!(rank_of(1), 1);
    assert_eq!(rank_of(0x8000_0000_0000_0001), -1);
    assert_eq!(rank_of(1.0f64.to_bits()), 0x3ff0_0000_0000_0000);
    assert_eq!(rank_of((-1.0f64).to_bits()), -0x3ff0_0000_0000_0000);
}

#[test]
fn ranks_order_patterns_as_their_values() {
    for x in samples() {
        for y in samples() {
            let by_rank = rank_of(x.to_bits()) < rank_of(y.to_bits());
            assert_eq!(by_rank, x < y);
            assert_eq!(by_rank, NotNan::new(x).unwrap() < NotNan::new(y).unwrap());
            assert_eq!(rank_of(x.to_bits()) == rank_of(y.to_bits()), x == y);
        }
    }
}

#[test]
fn candidates_are_ordered_by_distance_then_ids() {
    let ids = [(0usize, 1usize), (0, 2), (1, 2), (1, 3)];
    for x in samples() {
        for y in samples() {
            for p in ids {
                for q in ids {
                    let key_x = (NotNan::new(x).unwrap(), p.0, p.1);
                    let key_y = (NotNan::new(y).unwrap(), q.0, q.1);
                    let a = candidate(x, p.0, p.1);
                    let b = candidate(y, q.0, q.1);
                    if key_x != key_y {
                        assert_eq!(a.before(&b), key_x < key_y);
                    }
                }
            }
        }
    }
    assert!(candidate(1.0, 0, 5).before(&candidate(1.0, 1, 2)));
    assert!(candidate(1.0, 1, 2).before(&candidate(1.0, 1, 3)));
    assert!(!candidate(1.0, 1, 2).before(&candidate(1.0, 1, 2)));
    assert!(candidate(0.0, 1, 2).before(&candidate(-0.0, 1, 2)));
    assert!(!candidate(-0.0, 1, 2).before(&candidate(0.0, 1, 2)));
}

#[test]
fn the_queue_gives_candidates_in_order() {
    let mut q = CandidateQueue::new();
    let values = [5.0, 3.0, 8.0, 1.0, 9.0, 2.0, 7.0, 1.0, 6.0, 4.0, -3.0, 0.0];
    for (k, x) in values.iter().enumerate() {
        q.push(candidate(*x, k, k + 1));
    }
    assert_eq!(q.len(), 12);
    let mut out = Vec::new();
    while let Some(c) = q.pop() {
        out.push((f64::from_bits(c.dist), c.lo));
    }
    assert_eq!(
        out,
        vec![
            (-3.0, 10),
            (0.0, 11),
            (1.0, 3),
            (1.0, 7),
            (2.0, 5),
            (3.0, 1),
            (4.0, 9),
            (5.0, 0),
            (6.0, 8),
            (7.0, 6),
            (8.0, 2),
            (9.0, 4)
        ]
    );
    assert_eq!(q.len(), 0);
    assert_eq!(q.pop(), None);
}

#[test]
fn the_queue_keeps_a_candidate_as_often_as_it_was_pushed() {
    let mut q = CandidateQueue::new();
    q.push(candidate(1.0, 0, 1));
    q.push(candidate(1.0, 0, 1));
    q.push(candidate(0.5, 2, 3));
    assert_eq!(q.pop(), Some(candidate(0.5, 2, 3)));
    assert_eq!(q.pop(), Some(candidate(1.0, 0, 1)));
    assert_eq!(q.pop(), Some(candidate(1.0, 0, 1)));
    assert_eq!(q.pop(), None);
}

#[test]
fn stale_candidates_are_passed_over_and_discarded() {
    let mut q = CandidateQueue::new();
    q.push(candidate(1.0, 0, 1));
    q.push(candidate(2.0, 0, 2));
    q.push(candidate(3.0, 1, 2));
    q.push(candidate(4.0, 2, 3));
    q.push(candidate(5.0, 3, 4));
    let active = vec![false, true, true, true, true];
    assert_eq!(q.pop_closest_active(&active), Some(candidate(3.0, 1, 2)));
    assert_eq!(q.len(), 2);
    let active = vec![false, false, false, true, true];
    assert_eq!(q.pop_closest_active(&active), Some(candidate(5.0, 3, 4)));
    assert_eq!(q.len(), 0);
    assert_eq!(q.pop_closest_active(&active), None);
}

#[test]
fn a_queue_without_live_candidates_is_emptied() {
    let mut q = CandidateQueue::new();
    q.push(candidate(1.0, 0, 1));
    q.push(candidate(2.0, 0, 2));
    q.push(candidate(3.0, 1, 7));
    let active = vec![false, true, true];
    assert_eq!(q.pop_closest_active(&active), None);
    assert_eq!(q.len(), 0);
}

#[test]
fn a_cluster_without_a_flag_is_not_live() {
    let mut q = CandidateQueue::new();
    q.push(candidate(1.0, 0, 9));
    q.push(candidate(2.0, 0, 1));
    let active = vec![true, true];
    assert_eq!(q.pop_closest_active(&active), Some(candidate(2.0, 0, 1)));
}

#[test]
fn the_cache_reads_pairs_of_points_from_the_matrix() {
    let base: Vec<u64> = vec![10, 20, 30, 40, 50, 60];
    let cache = DistanceCache::new(base, 4);
    assert_eq!(cache.get(0, 1), Some(10));
    assert_eq!(cache.get(1, 0), Some(10));
    assert_eq!(cache.get(0, 3), Some(30));
    assert_eq!(cache.get(2, 1), Some(40));
    assert_eq!(cache.get(3, 2), Some(60));
    assert_eq!(cache.get(2, 2), None);
    assert_eq!(cache.get(0, 4), None);
    assert_eq!(cache.get(5, 4), None);
}

#[test]
fn the_cache_stores_a_derived_distance_once() {
    let base: Vec<u64> = vec![10, 20, 30];
    let mut cache = DistanceCache::new(base, 3);
    assert!(cache.put(3, 2, 77));
    assert_eq!(cache.get(2, 3), Some(77));
    assert_eq!(cache.get(3, 2), Some(77));
    assert!(!cache.put(2, 3, 88));
    assert_eq!(cache.get(2, 3), Some(77));
    assert!(cache.put(3, 4, 99));
    assert_eq!(cache.get(4, 3), Some(99));
    assert_eq!(cache.get(2, 4), None);
}

#[test]
fn the_cache_takes_no_distance_for_two_points_or_one_cluster() {
    let base: Vec<u64> = vec![10, 20, 30];
    let mut cache = DistanceCache::new(base, 3);
    assert!(!cache.put(0, 1, 5));
    assert_eq!(cache.get(0, 1), Some(10));
    assert!(!cache.put(4, 4, 5));
    assert_eq!(cache.get(4, 4), None);
}

#[test]
fn pairs_with_swapped_ids_have_different_keys() {
    let mut cache = DistanceCache::new(Vec::new(), 0);
    assert!(cache.put(1, 2, 12));
    assert!(cache.put(2, 3, 23));
    assert!(cache.put(0, usize::MAX, 7));
    assert!(cache.put(usize::MAX - 1, usize::MAX, 8));
    assert_eq!(cache.get(2, 1), Some(12));
    assert_eq!(cache.get(3, 2), Some(23));
    assert_eq!(cache.get(usize::MAX, 0), Some(7));
    assert_eq!(cache.get(usize::MAX, usize::MAX - 1), Some(8));
    assert_eq!(cache.get(1, 3), None);
}

#[test]
fn only_the_name_of_the_method_is_accepted() {
    assert!(names_ward("ward"));
    assert!(!names_ward("war"));
    assert!(!names_ward("ward "));
    assert!(!names_ward("WARD"));
    assert!(!names_ward("complete"));
}
