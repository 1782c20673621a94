use semsearch::dist::squared_distance;
use semsearch::errors::RetrievalError;
use semsearch::index::SpatialIndex;
use semsearch::pipeline::index_points;
use semsearch::pipeline::run_query;
use semsearch::point::VectorPoint;
use semsearch::query::Neighbor;
use semsearch::records::Book;
use semsearch::records::EmbeddedBook;

fn pt(coords: Vec<i32>, id: u64) -> VectorPoint {
    VectorPoint::new(coords, id)
}

fn brute_distance(a: &[i32], b: &[i32]) -> u128 {
    let mut acc: u128 = 0;
    for i in 0..a.len() {
        let d = (a[i] as i64) - (b[i] as i64);
        acc += ((d as i128) * (d as i128)) as u128;
    }
    acc
}

fn lcg(state: &mut u64) -> u64 {
    *state = state
        .wrapping_mul(6364136223846793005)
        .wrapping_add(1442695040888963407);
    *state
}

fn small_coord(state: &mut u64) -> i32 {
    ((lcg(state) >> 33) % 2001) as i32 - 1000
}

#[test]
fn squared_distance_exact() {
    assert_eq!(squared_distance(&vec![3, 4], &vec![0, 0]), 25);
    assert_eq!(squared_distance(&vec![], &vec![]), 0);
    assert_eq!(squared_distance(&vec![-2, 7, 1], &vec![1, 7, -1]), 13);
    // the largest single-dimension case is exact, with no overflow
    assert_eq!(
        squared_distance(&vec![i32::MAX], &vec![i32::MIN]),
        18446744065119617025u128
    );
}

#[test]
fn build_empty_is_empty_index_error() {
    let r = SpatialIndex::build(Vec::new());
    assert!(matches!(r, Err(RetrievalError::EmptyIndex)));
}

#[test]
fn build_zero_dimension_is_dimension_mismatch() {
    let r = SpatialIndex::build(vec![pt(vec![], 0)]);
    assert!(matches!(r, Err(RetrievalError::DimensionMismatch)));
}

#[test]
fn build_mixed_dimensions_is_dimension_mismatch() {
    let r = SpatialIndex::build(vec![pt(vec![1, 2], 0), pt(vec![1], 1)]);
    assert!(matches!(r, Err(RetrievalError::DimensionMismatch)));
}

#[test]
fn two_nearest_of_three_with_tie() {
    // A=(0,0), B=(1,1), C=(5,5); query (0,1): A and B are both at
    // squared distance 1, C at 41 is excluded.
    let points = vec![
        pt(vec![0, 0], 0),
        pt(vec![1, 1], 1),
        pt(vec![5, 5], 2),
    ];
    let idx = SpatialIndex::build(points).unwrap();
    let r = idx.k_nearest(&vec![0, 1], 2);
    assert_eq!(r.len(), 2);
    assert_eq!(r[0].distance, 1);
    assert_eq!(r[1].distance, 1);
    let mut ids: Vec<u64> = r.iter().map(|n| n.payload).collect();
    ids.sort();
    assert_eq!(ids, vec![0, 1]);
}

#[test]
fn full_query_covers_every_point_once_sorted() {
    let points = vec![
        pt(vec![4, -1], 0),
        pt(vec![0, 0], 1),
        pt(vec![-3, 9], 2),
        pt(vec![7, 7], 3),
        pt(vec![1, -2], 4),
    ];
    let idx = SpatialIndex::build(points).unwrap();
    let r = idx.k_nearest(&vec![1, 1], 5);
    assert_eq!(r.len(), 5);
    let mut ids: Vec<u64> = r.iter().map(|n| n.payload).collect();
    ids.sort();
    assert_eq!(ids, vec![0, 1, 2, 3, 4]);
    for w in r.windows(2) {
        assert!(w[0].distance <= w[1].distance);
    }
}

#[test]
fn oversized_k_equals_exact_k() {
    let points = vec![
        pt(vec![4, -1], 0),
        pt(vec![0, 0], 1),
        pt(vec![-3, 9], 2),
        pt(vec![7, 7], 3),
        pt(vec![1, -2], 4),
    ];
    let idx = SpatialIndex::build(points).unwrap();
    let exact = idx.k_nearest(&vec![2, 3], 5);
    let oversized = idx.k_nearest(&vec![2, 3], 9);
    assert_eq!(exact, oversized);
}

#[test]
fn zero_k_is_empty() {
    let points = vec![pt(vec![1, 2], 0), pt(vec![3, 4], 1)];
    let idx = SpatialIndex::build(points).unwrap();
    let r = idx.k_nearest(&vec![0, 0], 0);
    assert!(r.is_empty());
}

#[test]
fn repeated_queries_are_identical() {
    let mut state: u64 = 7;
    let mut points = Vec::new();
    for id in 0..40u64 {
        points.push(pt(vec![small_coord(&mut state), small_coord(&mut state)], id));
    }
    let idx = SpatialIndex::build(points).unwrap();
    let q = vec![small_coord(&mut state), small_coord(&mut state)];
    let r1 = idx.k_nearest(&q, 7);
    let r2 = idx.k_nearest(&q, 7);
    assert_eq!(r1, r2);
}

#[test]
fn all_identical_points() {
    let points: Vec<VectorPoint> = (0..5u64).map(|id| pt(vec![3, 3], id)).collect();
    let idx = SpatialIndex::build(points).unwrap();
    let r = idx.k_nearest(&vec![0, 0], 3);
    assert_eq!(r.len(), 3);
    for n in &r {
        assert_eq!(n.distance, 18);
    }
    let r_all = idx.k_nearest(&vec![0, 0], 5);
    assert_eq!(r_all.len(), 5);
    let mut ids: Vec<u64> = r_all.iter().map(|n| n.payload).collect();
    ids.sort();
    assert_eq!(ids, vec![0, 1, 2, 3, 4]);
}

#[test]
fn pruned_branch_still_reached() {
    // One-dimensional points whose nearest neighbor sits on the far side
    // of the first split: a query at 2 must come back with the point at 1,
    // not settle for the point at 0.
    let points = vec![pt(vec![0], 0), pt(vec![100], 1), pt(vec![1], 2)];
    let idx = SpatialIndex::build(points).unwrap();
    let r = idx.k_nearest(&vec![2], 1);
    assert_eq!(r.len(), 1);
    assert_eq!(r[0].payload, 2);
    assert_eq!(r[0].distance, 1);
}

#[test]
fn matches_brute_force_oracle() {
    let mut state: u64 = 424242;
    for &n in &[1usize, 2, 3, 5, 8, 17, 33, 60, 200, 500] {
        let mut raw: Vec<Vec<i32>> = Vec::new();
        for _ in 0..n {
            raw.push(vec![small_coord(&mut state), small_coord(&mut state)]);
        }
        let points: Vec<VectorPoint> = raw
            .iter()
            .enumerate()
            .map(|(id, c)| pt(c.clone(), id as u64))
            .collect();
        let idx = SpatialIndex::build(points).unwrap();
        for &k in &[1usize, 2, n / 2, n, n + 3] {
            let q = vec![small_coord(&mut state), small_coord(&mut state)];
            let got = idx.k_nearest(&q, k);
            let mut oracle: Vec<(u128, u64)> = raw
                .iter()
                .enumerate()
                .map(|(id, c)| (brute_distance(c, &q), id as u64))
                .collect();
            oracle.sort();
            let keep = k.min(n);
            assert_eq!(got.len(), keep);
            // distances agree exactly with the brute-force top-k
            for j in 0..keep {
                assert_eq!(got[j].distance, oracle[j].0);
            }
            // payload sets agree whenever no tie straddles the cut
            if keep == n || (keep > 0 && oracle[keep - 1].0 != oracle[keep].0) {
                let mut got_ids: Vec<u64> = got.iter().map(|x| x.payload).collect();
                let mut want_ids: Vec<u64> =
                    oracle[..keep].iter().map(|x| x.1).collect();
                got_ids.sort();
                want_ids.sort();
                assert_eq!(got_ids, want_ids);
            }
        }
    }
}

#[test]
fn index_points_numbers_records_in_order() {
    let pts = index_points(vec![vec![1, 2], vec![3, 4], vec![5, 6]]);
    assert_eq!(pts.len(), 3);
    assert_eq!(pts[0].payload, 0);
    assert_eq!(pts[2].payload, 2);
    assert_eq!(pts[1].coords, vec![3, 4]);
}

#[test]
fn run_query_propagates_embedding_failure() {
    let idx = SpatialIndex::build(vec![pt(vec![1, 1], 0)]).unwrap();
    let r = run_query(&idx, Err(RetrievalError::EmbeddingFailure), 3);
    assert!(matches!(r, Err(RetrievalError::EmbeddingFailure)));
}

#[test]
fn run_query_rejects_wrong_dimensionality() {
    let idx = SpatialIndex::build(vec![pt(vec![1, 1], 0)]).unwrap();
    let r = run_query(&idx, Ok(vec![1, 2, 3]), 1);
    assert!(matches!(r, Err(RetrievalError::DimensionMismatch)));
}

#[test]
fn run_query_returns_ranked_results() {
    let idx = SpatialIndex::build(vec![
        pt(vec![0, 0], 0),
        pt(vec![10, 10], 1),
        pt(vec![2, 2], 2),
    ])
    .unwrap();
    let r = run_query(&idx, Ok(vec![1, 1]), 2).unwrap();
    assert_eq!(r.len(), 2);
    assert_eq!(r[0].distance, 2);
    assert_eq!(r[1].distance, 2);
    let ids: Vec<u64> = r.iter().map(|n: &Neighbor| n.payload).collect();
    assert!(ids.contains(&0) && ids.contains(&2));
}

#[test]
fn book_to_embedded_carries_fields() {
    let b = Book {
        title: String::from("Utopia"),
        author: String::from("More"),
        summary: String::from("an island"),
    };
    let e = b.to_embedded(vec![1, -1]);
    assert_eq!(e.title.as_deref(), Some("Utopia"));
    assert_eq!(e.author.as_deref(), Some("More"));
    assert_eq!(e.summary.as_deref(), Some("an island"));
    assert_eq!(e.embeddings, vec![1, -1]);
}

#[test]
fn topic_has_no_metadata() {
    let e = EmbeddedBook::topic(vec![9, 8, 7]);
    assert!(e.title.is_none());
    assert!(e.author.is_none());
    assert!(e.summary.is_none());
    assert_eq!(e.at(0), 9);
    assert_eq!(e.at(2), 7);
}

#[test]
fn coordinate_reads_one_dimension() {
    let p = pt(vec![5, -6, 7], 3);
    assert_eq!(p.coordinate(0), 5);
    assert_eq!(p.coordinate(1), -6);
    assert_eq!(p.coordinate(2), 7);
}
