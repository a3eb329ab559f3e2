use std::io::Read;

use rinha::clustering::{build_index_image, group_by_cluster, initialize_centroids, CLUSTER_COUNT};
use rinha::features::{is_unknown_merchant, label_code, mcc_risk_percent};
use rinha::index::{needs_wide_scan, Index, LayoutError, NPROBE, NPROBE_WIDE};
use rinha::select::{k_smallest, nearest};
use rinha::vectors::VectorsData;

fn row(v: u32) -> [u32; 14] {
    [v; 14]
}

#[test]
fn k_smallest_keeps_the_smallest_in_order() {
    let keys = vec![5u32, 1, 4, 1, 3];
    assert_eq!(k_smallest(&keys, 3), vec![1, 3, 4]);
    assert_eq!(k_smallest(&keys, 1), vec![1]);
    assert_eq!(k_smallest(&keys, 0), Vec::<usize>::new());
    assert_eq!(k_smallest(&keys, 10), vec![1, 3, 4, 2, 0]);
    assert_eq!(k_smallest(&vec![], 5), Vec::<usize>::new());
}

#[test]
fn k_smallest_orders_like_float_distances() {
    let dists = [0.5f32, 0.0, 2.0, 0.25, 1e-9];
    let keys: Vec<u32> = dists.iter().map(|d| d.to_bits()).collect();
    assert_eq!(k_smallest(&keys, 3), vec![1, 4, 3]);
}

#[test]
fn nearest_is_the_first_minimum() {
    assert_eq!(nearest(&vec![3, 1, 2, 1]), 1);
    assert_eq!(nearest(&vec![7]), 0);
}

fn small_index() -> Index {
    // three clusters: {0,1}, {}, {2,3,4}
    Index::new(
        vec![row(1), row(2), row(3)],
        vec![0, 2, 2, 5],
        vec![[0i16; 14], [1; 14], [2; 14], [3; 14], [4; 14]],
        vec![1, 0, 1, 1, 0],
    )
    .unwrap()
}

#[test]
fn index_new_checks_layout() {
    let v = vec![[0i16; 14]; 2];
    assert_eq!(Index::new(vec![row(1)], vec![0], v.clone(), vec![0, 0]).err(), Some(LayoutError::OffsetCount));
    assert_eq!(Index::new(vec![row(1)], vec![0, 2], v.clone(), vec![0]).err(), Some(LayoutError::LabelCount));
    assert_eq!(Index::new(vec![row(1)], vec![0, 3], v.clone(), vec![0, 0]).err(), Some(LayoutError::OffsetOutOfRange));
    let ix = Index::new(vec![row(1)], vec![0, 2], v, vec![0, 0]).unwrap();
    assert_eq!(ix.cluster_count(), 1);
    assert_eq!(ix.len(), 2);
}

#[test]
fn cluster_members_concatenates_probed_clusters() {
    let ix = small_index();
    assert_eq!(ix.cluster_members(&vec![2, 0]), vec![2, 3, 4, 0, 1]);
    assert_eq!(ix.cluster_members(&vec![1]), Vec::<usize>::new());
    assert_eq!(ix.vector(3), &[3i16; 14]);
}

#[test]
fn vote_counts_frauds_among_nearest() {
    let ix = small_index();
    let members = ix.cluster_members(&vec![2, 0]);
    // keys for members 2,3,4,0,1
    let keys = vec![10u32, 40, 30, 20, 50];
    assert_eq!(ix.vote(&members, &keys, 3), (2, 3)); // vectors 2, 0, 4 -> labels 1,1,0
    assert_eq!(ix.vote(&members, &keys, 5), (3, 5));
    assert_eq!(ix.vote(&members, &keys, 0), (0, 0));
    assert_eq!(ix.count_frauds(&members), 3);
}

#[test]
fn candidates_come_from_the_nearest_clusters() {
    let ix = small_index();
    // centroid keys: cluster 2 nearest, then 0, then 1
    let keys = vec![20u32, 30, 10];
    assert_eq!(ix.candidates(&keys, 1), vec![2, 3, 4]);
    assert_eq!(ix.candidates(&keys, 2), vec![2, 3, 4, 0, 1]);
    assert_eq!(ix.candidates(&keys, 8), vec![2, 3, 4, 0, 1]);
    assert_eq!(ix.candidates(&keys, 0), Vec::<usize>::new());
}

#[test]
fn wide_scan_only_when_inconclusive() {
    assert!(!needs_wide_scan(0));
    assert!(!needs_wide_scan(1));
    assert!(needs_wide_scan(2));
    assert!(needs_wide_scan(3));
    assert!(!needs_wide_scan(4));
    assert!(!needs_wide_scan(5));
    assert_eq!((NPROBE, NPROBE_WIDE), (8, 24));
}

#[test]
fn initial_centroids_are_distinct_data_vectors() {
    let data = VectorsData { vectors: (0..10).map(row).collect(), labels: vec![false; 10] };
    let centroids = initialize_centroids(&data);
    assert_eq!(centroids.len(), 10);
    let mut seen: Vec<u32> = centroids.iter().map(|c| c[0]).collect();
    seen.sort();
    assert_eq!(seen, (0..10).collect::<Vec<u32>>());
    let big = VectorsData { vectors: (0..3000).map(row).collect(), labels: vec![false; 3000] };
    let centroids = initialize_centroids(&big);
    assert_eq!(centroids.len(), CLUSTER_COUNT);
    let mut seen: Vec<u32> = centroids.iter().map(|c| c[0]).collect();
    seen.sort();
    seen.dedup();
    assert_eq!(seen.len(), CLUSTER_COUNT);
}

#[test]
fn grouping_keeps_data_order() {
    let groups = group_by_cluster(&vec![2u16, 0, 2, 1, 0], 4);
    assert_eq!(groups, vec![vec![1, 4], vec![3], vec![0, 2], vec![]]);
}

fn centroids() -> Vec<[u32; 14]> {
    (0..CLUSTER_COUNT as u32).map(row).collect()
}

#[test]
fn built_image_stores_vectors_cluster_by_cluster() {
    let data = VectorsData {
        vectors: vec![row(10), row(11), row(12), row(13), row(14)],
        labels: vec![true, false, false, true, false],
    };
    let img = build_index_image(&data, centroids(), &vec![2u16, 0, 2, 0, 0]);
    assert_eq!(img.centroids, centroids());
    assert_eq!(img.offsets.len(), CLUSTER_COUNT + 1);
    assert_eq!(&img.offsets[..4], &[0, 3, 3, 5]);
    assert!(img.offsets[4..].iter().all(|&o| o == 5));
    assert_eq!(img.vectors, vec![row(11), row(13), row(14), row(10), row(12)]);
    assert_eq!(img.labels, vec![0, 1, 0, 1, 0]);
}

#[test]
fn built_image_answers_queries_by_cluster() {
    let data = VectorsData {
        vectors: vec![row(10), row(11), row(12), row(13)],
        labels: vec![true, false, true, true],
    };
    let img = build_index_image(&data, centroids(), &vec![1u16, 0, 1, 1]);
    let quantized = vec![[0i16; 14]; img.vectors.len()];
    let ix = Index::new(img.centroids, img.offsets, quantized, img.labels).unwrap();
    assert_eq!(ix.cluster_members(&vec![1]), vec![1, 2, 3]);
    assert_eq!(ix.count_frauds(&vec![1, 2, 3]), 3);
}

#[test]
fn a_pass_probes_nearest_clusters_and_votes() {
    let ix = small_index();
    // centroid keys: cluster 2 nearest; vector keys by position
    let centroid_key = |c: usize| [20u32, 30, 10][c];
    let vector_key = |i: usize| [15u32, 25, 10, 40, 30][i];
    assert_eq!(ix.pass(&centroid_key, &vector_key, 2, 1), (1, 2)); // vectors 2, 4
    assert_eq!(ix.pass(&centroid_key, &vector_key, 3, 2), (2, 3)); // vectors 2, 0, 1
    assert_eq!(ix.pass(&centroid_key, &vector_key, 3, 0), (0, 0));
}

#[test]
fn second_pass_only_when_first_is_inconclusive() {
    // 40 clusters of one vector each; vector i is a fraud when i is odd
    let n = 40usize;
    let ix = Index::new(
        (0..n as u32).map(row).collect(),
        (0..=n as u32).collect(),
        vec![[0i16; 14]; n],
        (0..n).map(|i| (i % 2) as u8).collect(),
    )
    .unwrap();
    let key = |i: usize| i as u32;
    // first pass: clusters 0..8, neighbours 0..5 -> 2 frauds -> second pass, same 5 neighbours
    assert_eq!(ix.knn_fraud_counts(&key, &key, 5), (2, 5));
    // keys making the first pass conclusive: nearest are 1, 3, 5, ...
    let odd_first = |i: usize| if i % 2 == 1 { i as u32 } else { 100 + i as u32 };
    assert_eq!(ix.knn_fraud_counts(&odd_first, &odd_first, 5), (5, 5));
    // first pass (clusters 0..8) keeps 0..5 with frauds 1 and 3; the wide
    // pass reaches clusters 9..17, whose odd vectors are nearest
    let centroid_key = |c: usize| c as u32;
    let vector_key = |i: usize| if (9..=17).contains(&i) && i % 2 == 1 { 0 } else { i as u32 + 1 };
    assert_eq!(ix.pass(&centroid_key, &vector_key, 5, 8), (2, 5));
    assert_eq!(ix.knn_fraud_counts(&centroid_key, &vector_key, 5), (5, 5));
}

#[test]
fn labels_code_fraud_as_one() {
    assert_eq!(label_code(&"fraud".to_string()), 1);
    assert_eq!(label_code(&"legit".to_string()), 0);
    assert_eq!(label_code(&"Fraud".to_string()), 0);
}

#[test]
fn mcc_risks() {
    let cases = [
        ("5411", 15), ("5812", 30), ("5912", 20), ("5944", 45), ("7801", 80),
        ("7802", 75), ("7995", 85), ("4511", 35), ("5311", 25), ("5999", 50), ("0000", 50), ("", 50),
    ];
    for (mcc, risk) in cases {
        assert_eq!(mcc_risk_percent(&mcc.to_string()), risk, "{mcc}");
    }
    assert_eq!(mcc_risk_percent(&"5411".to_string()) as f32 / 100.0, 0.15f32);
    assert_eq!(mcc_risk_percent(&"7802".to_string()) as f32 / 100.0, 0.75f32);
}

#[test]
fn unknown_merchants() {
    let known = vec!["MERC-003".to_string(), "MERC-016".to_string()];
    assert!(!is_unknown_merchant(&known, &"MERC-016".to_string()));
    assert!(is_unknown_merchant(&known, &"MERC-001".to_string()));
    assert!(is_unknown_merchant(&vec![], &"MERC-001".to_string()));
}

#[test]
fn built_index_file_for_two_vectors() {
    let one = 1.0f32.to_bits();
    let data = VectorsData { vectors: vec![[0u32; 14], [one; 14]], labels: vec![false, true] };
    let img = build_index_image(&data, vec![[0u32; 14]; CLUSTER_COUNT], &vec![1u16, 0]);
    let mut out = Vec::new();
    flate2::read::GzDecoder::new(&img.compress()[..]).read_to_end(&mut out).unwrap();
    let mut expected = b"rivf".to_vec();
    expected.extend_from_slice(&2u32.to_le_bytes());
    expected.extend_from_slice(&2048u32.to_le_bytes());
    expected.extend_from_slice(&14u32.to_le_bytes());
    for _ in 0..2048 * 14 {
        expected.extend_from_slice(&0.0f32.to_le_bytes());
    }
    expected.extend_from_slice(&0u32.to_le_bytes());
    expected.extend_from_slice(&1u32.to_le_bytes());
    for _ in 0..2047 {
        expected.extend_from_slice(&2u32.to_le_bytes());
    }
    for _ in 0..14 {
        expected.extend_from_slice(&1.0f32.to_le_bytes());
    }
    for _ in 0..14 {
        expected.extend_from_slice(&0.0f32.to_le_bytes());
    }
    expected.extend_from_slice(&[1u8, 0u8]);
    assert_eq!(out, expected);
}
