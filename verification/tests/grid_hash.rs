use pbf_core::grid::GridDims;
use pbf_core::hash::{build_hashtable, SpatialHash};

fn dims(x: usize, y: usize, z: usize) -> GridDims {
    GridDims::new(x, y, z).expect("grid dimensions")
}

#[test]
fn grid_new_refuses_degenerate_axes() {
    assert!(GridDims::new(2, 4, 4).is_none());
    assert!(GridDims::new(4, 1, 4).is_none());
    assert!(GridDims::new(4, 4, 0).is_none());
    assert!(GridDims::new(3, 3, 3).is_some());
}

#[test]
fn grid_linear_ids_are_row_major() {
    let d = dims(4, 5, 6);
    assert_eq!(d.index2grid_offset(0, 0, 0), 0);
    assert_eq!(d.index2grid_offset(0, 0, 1), 1);
    assert_eq!(d.index2grid_offset(0, 1, 0), 6);
    assert_eq!(d.index2grid_offset(1, 0, 0), 30);
    assert_eq!(d.index2grid_offset(3, 4, 5), 4 * 5 * 6 - 1);
}

#[test]
fn grid_linear_ids_are_distinct() {
    let d = dims(3, 4, 5);
    let mut seen = vec![false; 3 * 4 * 5];
    for gx in 0..3 {
        for gy in 0..4 {
            for gz in 0..5 {
                let id = d.index2grid_offset(gx, gy, gz);
                assert!(!seen[id]);
                seen[id] = true;
            }
        }
    }
    assert!(seen.iter().all(|&s| s));
}

#[test]
fn counting_sort_small_example() {
    // Cells of five particles over four cells; bucket 2 is empty.
    let ids: Vec<usize> = vec![1, 3, 0, 1, 3];
    let (index, hashed) = build_hashtable(&ids, 4);
    assert_eq!(index, vec![0, 1, 3, 3, 5]);
    // Each bucket holds exactly its own particles, in unspecified order.
    let mut bucket1: Vec<usize> = hashed[index[1]..index[2]].to_vec();
    bucket1.sort();
    assert_eq!(bucket1, vec![0, 3]);
    let mut bucket3: Vec<usize> = hashed[index[3]..index[4]].to_vec();
    bucket3.sort();
    assert_eq!(bucket3, vec![1, 4]);
    assert_eq!(&hashed[index[0]..index[1]], &[2]);
}

#[test]
fn counting_sort_is_a_permutation() {
    // Many particles, few cells: the scatter must list 0..n exactly once.
    let n = 200;
    let m = 7;
    let ids: Vec<usize> = (0..n).map(|i| (i * 13 + 5) % m).collect();
    let (index, hashed) = build_hashtable(&ids, m);
    assert_eq!(index[m], n);
    let mut sorted = hashed.clone();
    sorted.sort();
    let expected: Vec<usize> = (0..n).collect();
    assert_eq!(sorted, expected);
}

#[test]
fn counting_sort_buckets_hold_their_own_cell() {
    let n = 150;
    let m = 11;
    let ids: Vec<usize> = (0..n).map(|i| (i * i + 3 * i) % m).collect();
    let (index, hashed) = build_hashtable(&ids, m);
    for c in 0..m {
        assert!(index[c] <= index[c + 1]);
        for k in index[c]..index[c + 1] {
            assert_eq!(ids[hashed[k]], c);
        }
    }
}

#[test]
fn counting_sort_empty_input() {
    let ids: Vec<usize> = Vec::new();
    let (index, hashed) = build_hashtable(&ids, 5);
    assert_eq!(index, vec![0; 6]);
    assert!(hashed.is_empty());
}

#[test]
fn spatial_hash_build_matches_counting_sort() {
    let d = dims(4, 4, 4);
    // Three particles in one interior cell, one in another.
    let coords = vec![(1, 1, 1), (2, 2, 2), (1, 1, 1), (1, 1, 1)];
    let h = SpatialHash::build(d, coords);
    let c0 = d.index2grid_offset(1, 1, 1);
    let c1 = d.index2grid_offset(2, 2, 2);
    assert_eq!(h.cell_of, vec![c0, c1, c0, c0]);
    assert_eq!(h.hashtableindex[c0 + 1] - h.hashtableindex[c0], 3);
    assert_eq!(h.hashtableindex[c1 + 1] - h.hashtableindex[c1], 1);
    let s = h.hashtableindex[c0];
    let mut bucket: Vec<usize> = h.hashtable[s..s + 3].to_vec();
    bucket.sort();
    assert_eq!(bucket, vec![0, 2, 3]);
}
