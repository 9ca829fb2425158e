use rust_fast_cluster::clustering::Clustering;
use rust_fast_cluster::condensed::condensed_index;
use rust_fast_cluster::linkage;
use rust_fast_cluster::model::{LinkageError, Merge, WardTerms};

fn ward_root(t: WardTerms) -> u64 {
    let size_a = t.size_a as f64;
    let size_b = t.size_b as f64;
    let size_i = t.size_i as f64;
    let d_ai = f64::from_bits(t.d_ai);
    let d_bi = f64::from_bits(t.d_bi);
    let d_ab = f64::from_bits(t.d_ab);
    let numerator =
        (size_a + size_i) * d_ai.powi(2) + (size_b + size_i) * d_bi.powi(2) - size_i * d_ab.powi(2);
    let value = numerator / (size_a + size_b + size_i);
    value.sqrt().to_bits()
}

fn patterns(d: &[f64]) -> Vec<u64> {
    d.iter().map(|x| x.to_bits()).collect()
}

fn cluster(d: &[f64]) -> Result<Vec<Merge>, LinkageError> {
    linkage(&patterns(d), "ward", ward_root)
}

fn merge(a: usize, b: usize, dist: f64, size: usize) -> Merge {
    Merge { a, b, dist: dist.to_bits(), size }
}

fn grid(n: usize) -> Vec<f64> {
    let mut d = Vec::new();
    for i in 0..n {
        for j in (i + 1)..n {
            let x = (i * i) as f64 * 1.25 - j as f64 * 0.5;
            let y = (i as f64) * 0.75 + ((7 * j) % 5) as f64;
            let u = (j * j) as f64 * 1.25 - i as f64 * 0.5;
            let v = (j as f64) * 0.75 + ((7 * i) % 5) as f64;
            d.push(((x - u).powi(2) + (y - v).powi(2)).sqrt());
        }
    }
    d
}

fn exchange(p: usize, q: usize, i: usize) -> usize {
    if i == p {
        q
    } else if i == q {
        p
    } else {
        i
    }
}

fn relabel(d: &[f64], n: usize, p: usize, q: usize) -> Vec<f64> {
    let mut out = vec![0.0; d.len()];
    for i in 0..n {
        for j in (i + 1)..n {
            let (a, b) = (exchange(p, q, i), exchange(p, q, j));
            out[condensed_index(a.min(b), a.max(b), n)] = d[condensed_index(i, j, n)];
        }
    }
    out
}

fn relabel_row(r: &Merge, p: usize, q: usize) -> Merge {
    let (a, b) = (exchange(p, q, r.a), exchange(p, q, r.b));
    Merge { a: a.min(b), b: a.max(b), dist: r.dist, size: r.size }
}

#[test]
fn exchanging_two_labels_exchanges_them_in_the_rows() {
    let n = 8usize;
    let d = grid(n);
    let rows = cluster(&d).unwrap();
    for p in 0..n {
        for q in (p + 1)..n {
            let mirrored = cluster(&relabel(&d, n, p, q)).unwrap();
            let expected: Vec<Merge> = rows.iter().map(|r| relabel_row(r, p, q)).collect();
            assert_eq!(mirrored, expected);
        }
    }
}

#[test]
fn between_equal_distances_the_labels_decide() {
    let d = [1.0, 1.0, 1.0];
    let rows = cluster(&d).unwrap();
    let mirrored = cluster(&relabel(&d, 3, 0, 2)).unwrap();
    assert_eq!((rows[0].a, rows[0].b), (0, 1));
    assert_eq!((mirrored[0].a, mirrored[0].b), (0, 1));
    assert_eq!(relabel_row(&rows[0], 0, 2), Merge { a: 1, b: 2, dist: 1.0f64.to_bits(), size: 2 });
}

#[test]
fn finite_answers_always_complete_the_clustering() {
    for n in 2..10usize {
        let d = patterns(&grid(n));
        let rows = linkage(&d, "ward", |t: WardTerms| t.d_ai.min(t.d_bi)).unwrap();
        assert_eq!(rows.len(), n - 1);
        assert_eq!(rows[n - 2].size, n);
    }
}

#[test]
fn four_points_merge_the_closest_pair_first() {
    let rows = cluster(&[0.1, 0.2, 0.3, 0.4, 0.5, 0.6]).unwrap();
    assert_eq!(rows.len(), 3);
    assert_eq!(rows[0], merge(0, 1, 0.1, 2));
    assert_eq!(rows[2].size, 4);
}

#[test]
fn four_points_give_these_rows() {
    let rows = cluster(&[0.1, 0.2, 0.3, 0.4, 0.5, 0.6]).unwrap();
    let d24 = ((2.0 * 0.2f64.powi(2) + 2.0 * 0.4f64.powi(2) - 0.1f64.powi(2)) / 3.0).sqrt();
    let d34 = ((2.0 * 0.3f64.powi(2) + 2.0 * 0.5f64.powi(2) - 0.1f64.powi(2)) / 3.0).sqrt();
    let d35 = ((2.0 * 0.6f64.powi(2) + 3.0 * d34.powi(2) - d24.powi(2)) / 4.0).sqrt();
    assert_eq!(rows, vec![merge(0, 1, 0.1, 2), merge(2, 4, d24, 3), merge(3, 5, d35, 4)]);
    assert!((d24 - 0.36055512754639896).abs() < 1e-12);
    assert!((d35 - 0.5612486080160912).abs() < 1e-12);
}

#[test]
fn two_points_give_one_row() {
    let rows = cluster(&[2.5]).unwrap();
    assert_eq!(rows, vec![merge(0, 1, 2.5, 2)]);
}

#[test]
fn three_points_give_two_rows() {
    let rows = cluster(&[3.0, 1.0, 2.0]).unwrap();
    let d13 = ((2.0 * 3.0f64.powi(2) + 2.0 * 2.0f64.powi(2) - 1.0) / 3.0).sqrt();
    assert_eq!(rows, vec![merge(0, 2, 1.0, 2), merge(1, 3, d13, 3)]);
}

#[test]
fn a_length_that_no_point_count_has_is_refused() {
    assert_eq!(cluster(&[0.1, 0.2, 0.3, 0.4, 0.5]), Err(LinkageError::InvalidInputShape));
    assert_eq!(cluster(&[0.1, 0.2]), Err(LinkageError::InvalidInputShape));
}

#[test]
fn an_empty_matrix_is_refused() {
    assert_eq!(cluster(&[]), Err(LinkageError::InvalidInputShape));
}

#[test]
fn another_method_is_refused() {
    let d = patterns(&[0.1, 0.2, 0.3]);
    assert_eq!(linkage(&d, "single", ward_root), Err(LinkageError::UnsupportedMethod));
    assert_eq!(linkage(&d, "", ward_root), Err(LinkageError::UnsupportedMethod));
    assert_eq!(linkage(&d, "Ward", ward_root), Err(LinkageError::UnsupportedMethod));
    assert_eq!(linkage(&d, "wards", ward_root), Err(LinkageError::UnsupportedMethod));
    assert_eq!(linkage(&d, "w\u{e4}rd", ward_root), Err(LinkageError::UnsupportedMethod));
}

#[test]
fn a_distance_that_is_not_finite_is_refused() {
    assert_eq!(cluster(&[0.1, f64::INFINITY, 0.3]), Err(LinkageError::NonFiniteInput));
    assert_eq!(cluster(&[0.1, 0.2, f64::NEG_INFINITY]), Err(LinkageError::NonFiniteInput));
    assert_eq!(cluster(&[f64::NAN]), Err(LinkageError::NonFiniteInput));
    assert_eq!(cluster(&[-f64::NAN, 1.0, 2.0]), Err(LinkageError::NonFiniteInput));
}

#[test]
fn the_largest_finite_distance_is_accepted() {
    let rows = cluster(&[f64::MAX]).unwrap();
    assert_eq!(rows, vec![merge(0, 1, f64::MAX, 2)]);
}

#[test]
fn the_method_is_checked_before_the_matrix() {
    let d = patterns(&[f64::NAN, 0.2]);
    assert_eq!(linkage(&d, "single", ward_root), Err(LinkageError::UnsupportedMethod));
}

#[test]
fn the_length_is_checked_before_the_distances() {
    assert_eq!(cluster(&[f64::NAN, 0.2]), Err(LinkageError::InvalidInputShape));
}

#[test]
fn there_is_one_row_fewer_than_points() {
    for n in 2..12usize {
        let rows = cluster(&grid(n)).unwrap();
        assert_eq!(rows.len(), n - 1);
    }
}

#[test]
fn each_size_is_the_sum_of_the_sizes_joined() {
    let n = 9usize;
    let rows = cluster(&grid(n)).unwrap();
    for row in rows.iter() {
        let size_a = if row.a < n { 1 } else { rows[row.a - n].size };
        let size_b = if row.b < n { 1 } else { rows[row.b - n].size };
        assert_eq!(row.size, size_a + size_b);
    }
    assert_eq!(rows[n - 2].size, n);
}

#[test]
fn each_cluster_is_joined_once_and_after_it_was_made() {
    let n = 10usize;
    let rows = cluster(&grid(n)).unwrap();
    let mut joined = vec![0usize; 2 * n - 1];
    for (k, row) in rows.iter().enumerate() {
        assert!(row.a < row.b);
        assert!(row.b < n + k);
        joined[row.a] += 1;
        joined[row.b] += 1;
    }
    for id in 0..(2 * n - 2) {
        assert_eq!(joined[id], 1);
    }
    assert_eq!(joined[2 * n - 2], 0);
}

#[test]
fn two_runs_give_the_same_rows() {
    let d = grid(8);
    assert_eq!(cluster(&d), cluster(&d));
}

#[test]
fn equal_distances_are_merged_in_the_order_of_the_ids() {
    let rows = cluster(&[1.0, 1.0, 1.0, 1.0, 1.0, 1.0]).unwrap();
    assert_eq!(rows[0], merge(0, 1, 1.0, 2));
    assert_eq!((rows[1].a, rows[1].b), (2, 3));
    assert_eq!((rows[2].a, rows[2].b, rows[2].size), (4, 5, 4));
}

#[test]
fn both_zeros_are_equal_distances() {
    let rows = cluster(&[0.0, 5.0, -0.0]).unwrap();
    assert_eq!((rows[0].a, rows[0].b), (0, 1));
    let rows = cluster(&[-0.0, 5.0, 0.0]).unwrap();
    assert_eq!(rows[0], merge(0, 1, -0.0, 2));
}

#[test]
fn negative_distances_come_before_positive_ones() {
    let rows = cluster(&[3.0, -0.5, 2.0]).unwrap();
    assert_eq!(rows[0], merge(0, 2, -0.5, 2));
    assert_eq!((rows[1].a, rows[1].b, rows[1].size), (1, 3, 3));
}

#[test]
fn a_negative_combination_is_dropped() {
    assert_eq!(cluster(&[1.0, -2.0, 0.5]), Err(LinkageError::InternalInvariantViolation));
}

#[test]
fn a_dropped_distance_leaves_no_pair_to_merge() {
    let d = patterns(&[1.0, 2.0, 3.0]);
    let r = linkage(&d, "ward", |_t: WardTerms| f64::NAN.to_bits());
    assert_eq!(r, Err(LinkageError::InternalInvariantViolation));
    let r = linkage(&d, "ward", |_t: WardTerms| f64::INFINITY.to_bits());
    assert_eq!(r, Err(LinkageError::InternalInvariantViolation));
}

#[test]
fn a_dropped_distance_is_missed_by_a_later_update() {
    let d = patterns(&[1.0, 2.0, 3.0, 4.0, 5.0, 6.0]);
    let r = linkage(&d, "ward", |_t: WardTerms| f64::NAN.to_bits());
    assert_eq!(r, Err(LinkageError::InternalInvariantViolation));
}

#[test]
fn the_answers_decide_the_later_merges() {
    let d = patterns(&[1.0, 2.0, 3.0, 4.0, 5.0, 6.0]);
    let near = linkage(&d, "ward", |_t: WardTerms| 0.5f64.to_bits()).unwrap();
    assert_eq!(near[1], merge(2, 4, 0.5, 3));
    let far = linkage(&d, "ward", |_t: WardTerms| 10.0f64.to_bits()).unwrap();
    assert_eq!(far[1], merge(2, 3, 6.0, 2));
    assert_eq!(far[2], merge(4, 5, 10.0, 4));
}

#[test]
fn requests_carry_sizes_and_distances_of_the_last_merge() {
    let d = patterns(&[0.1, 0.2, 0.3, 0.4, 0.5, 0.6]);
    let st = Clustering::start(&d, "ward").unwrap();
    assert_eq!(st.points(), 4);
    assert!(!st.is_finished());
    let t = st.request().unwrap();
    assert_eq!(
        t,
        WardTerms {
            size_a: 1,
            size_b: 1,
            size_i: 1,
            d_ai: 0.2f64.to_bits(),
            d_bi: 0.4f64.to_bits(),
            d_ab: 0.1f64.to_bits(),
        }
    );
    let st = st.supply(ward_root(t)).unwrap();
    let t = st.request().unwrap();
    assert_eq!((t.d_ai, t.d_bi), (0.3f64.to_bits(), 0.5f64.to_bits()));
    let d34 = ward_root(t);
    let st = st.supply(d34).unwrap();
    let t = st.request().unwrap();
    assert_eq!((t.size_a, t.size_b, t.size_i), (1, 2, 1));
    assert_eq!((t.d_ai, t.d_bi), (0.6f64.to_bits(), d34));
    let st = st.supply(ward_root(t)).unwrap();
    assert!(st.is_finished());
    assert_eq!(st.request(), None);
    assert_eq!(st.into_rows().len(), 3);
}

#[test]
fn a_finished_clustering_takes_no_more_answers() {
    let d = patterns(&[2.5]);
    let st = Clustering::start(&d, "ward").unwrap();
    assert!(st.is_finished());
    let st = st.supply(1.0f64.to_bits()).unwrap();
    assert!(st.is_finished());
    assert_eq!(st.into_rows(), vec![merge(0, 1, 2.5, 2)]);
}

#[test]
fn starting_checks_method_length_and_distances() {
    assert!(matches!(
        Clustering::start(&patterns(&[1.0]), "average"),
        Err(LinkageError::UnsupportedMethod)
    ));
    assert!(matches!(
        Clustering::start(&patterns(&[1.0, 2.0]), "ward"),
        Err(LinkageError::InvalidInputShape)
    ));
    assert!(matches!(
        Clustering::start(&patterns(&[1.0, f64::NAN, 2.0]), "ward"),
        Err(LinkageError::NonFiniteInput)
    ));
}
