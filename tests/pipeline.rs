use zipclust::pipeline::{build, build_distance_table, build_from_table};
use zipclust::zip_distance::{compress, compressed_bytes, distance, distance_from_sizes};

#[test]
fn distance_from_sizes_exact() {
    assert_eq!(distance_from_sizes(10, 20, 25), Some(750_000));
    assert_eq!(distance_from_sizes(20, 10, 25), Some(750_000));
    assert_eq!(distance_from_sizes(3, 3, 4), Some(333_333));
    assert_eq!(distance_from_sizes(10, 20, 5), Some(0));
    assert_eq!(distance_from_sizes(0, 0, 7), None);
    assert_eq!(distance_from_sizes(0, 4, 4), Some(1_000_000));
}

#[test]
fn compress_shrinks_repetitive_input() {
    let data = vec![b'a'; 10_000];
    let l = compress(&data);
    assert!(l < 200);
    assert_eq!(compressed_bytes(&data), l);
}

#[test]
fn distance_is_small_for_identical_and_large_for_unrelated() {
    let a: Vec<u8> = (0..4000u32).map(|i| (i % 17) as u8 + b'a').collect();
    let mut state: u32 = 12345;
    let b: Vec<u8> = (0..4000)
        .map(|_| {
            state = state.wrapping_mul(1_103_515_245).wrapping_add(12_345);
            (state >> 16) as u8
        })
        .collect();
    let same = distance(&a, &a).unwrap();
    let other = distance(&a, &b).unwrap();
    assert!(same < other);
    assert!(other > 500_000);
}

#[test]
fn table_is_square_and_matches_distance() {
    let items: Vec<&[u8]> = vec![b"hello hello hello", b"world", b"hello world"];
    let t = build_distance_table(&items).unwrap();
    assert_eq!(t.len(), 3);
    for i in 0..3 {
        assert_eq!(t[i].len(), 3);
        for j in 0..3 {
            assert_eq!(Some(t[i][j]), distance(items[i], items[j]));
        }
    }
}

#[test]
fn build_from_table_follows_the_full_graph() {
    let t = vec![
        vec![0, 10, 90, 95],
        vec![10, 0, 20, 99],
        vec![90, 20, 0, 97],
        vec![95, 99, 97, 0],
    ];
    let r = build_from_table(&t, 30);
    assert_eq!(r[0], r[1]);
    assert_eq!(r[1], r[2]);
    assert_ne!(r[2], r[3]);
    let r = build_from_table(&t, 5);
    assert_ne!(r[0], r[1]);
    assert_ne!(r[1], r[2]);
    assert!(build_from_table(&[], 5).is_empty());
}

#[test]
fn build_groups_similar_blobs() {
    let text_a: Vec<u8> = b"the quick brown fox jumps over the lazy dog. ".repeat(40);
    let mut text_b = text_a.clone();
    text_b.extend_from_slice(b"and then some");
    let mut state: u32 = 7;
    let noise: Vec<u8> = (0..2000)
        .map(|_| {
            state = state.wrapping_mul(1_103_515_245).wrapping_add(12_345);
            (state >> 16) as u8
        })
        .collect();
    let items: Vec<&[u8]> = vec![&text_a, &noise, &text_b];
    let r = build(&items, 450_000).unwrap();
    assert_eq!(r.len(), 3);
    assert_eq!(r[0], r[2]);
    assert_ne!(r[0], r[1]);
}

#[test]
fn build_of_nothing_is_empty() {
    let items: Vec<&[u8]> = Vec::new();
    assert_eq!(build(&items, 450_000), Some(Vec::new()));
}
