use pbf_core::grid::GridDims;
use pbf_core::hash::SpatialHash;

fn dims(x: usize, y: usize, z: usize) -> GridDims {
    GridDims::new(x, y, z).expect("grid dimensions")
}

fn sorted_candidates(h: &SpatialHash, p: usize) -> Vec<usize> {
    let mut c = h.neighbor_candidates(p);
    c.sort();
    c
}

#[test]
fn candidates_in_one_cell_are_all_others() {
    let d = dims(4, 4, 4);
    let coords = vec![(2, 2, 2), (2, 2, 2), (2, 2, 2)];
    let h = SpatialHash::build(d, coords);
    assert_eq!(sorted_candidates(&h, 0), vec![1, 2]);
    assert_eq!(sorted_candidates(&h, 1), vec![0, 2]);
    assert_eq!(sorted_candidates(&h, 2), vec![0, 1]);
}

#[test]
fn candidates_span_adjacent_cells_only() {
    let d = dims(6, 6, 6);
    // 0 and 1 adjoin diagonally; 2 is two cells away from 0 along X but
    // adjoins 1; 3 is far from everyone.
    let coords = vec![(1, 1, 1), (2, 2, 2), (3, 1, 1), (4, 4, 4)];
    let h = SpatialHash::build(d, coords);
    assert_eq!(sorted_candidates(&h, 0), vec![1]);
    assert_eq!(sorted_candidates(&h, 1), vec![0, 2]);
    assert_eq!(sorted_candidates(&h, 2), vec![1]);
    assert_eq!(sorted_candidates(&h, 3), Vec::<usize>::new());
}

#[test]
fn candidates_are_symmetric_and_clean() {
    let d = dims(5, 5, 5);
    let coords = vec![
        (1, 1, 1),
        (1, 2, 1),
        (2, 2, 2),
        (3, 3, 3),
        (3, 3, 2),
        (1, 1, 1),
        (3, 1, 3),
    ];
    let n = coords.len();
    let h = SpatialHash::build(d, coords);
    let lists: Vec<Vec<usize>> = (0..n).map(|p| h.neighbor_candidates(p)).collect();
    for p in 0..n {
        // No particle lists itself, and none twice.
        assert!(!lists[p].contains(&p));
        let mut sorted = lists[p].clone();
        sorted.sort();
        sorted.dedup();
        assert_eq!(sorted.len(), lists[p].len());
        // Whoever p sees also sees p.
        for &j in &lists[p] {
            assert!(lists[j].contains(&p));
        }
    }
}

#[test]
fn hash_round_trip_corners() {
    // Eight particles at the corners of a cube of side 0.6 inside a tank of
    // side 0.8, hashed with cell side 0.1: every corner ends up alone in its
    // bucket and no particle has any candidate neighbor.
    let tank = 0.8f32;
    let h_cell = 0.1f32;
    let cells = (tank / h_cell).ceil() as usize + 2;
    let d = dims(cells, cells, cells);
    let mut coords: Vec<(usize, usize, usize)> = Vec::new();
    for &x in &[-0.3f32, 0.3f32] {
        for &y in &[-0.3f32, 0.3f32] {
            for &z in &[-0.3f32, 0.3f32] {
                let gc = |v: f32| -> usize {
                    let g = ((v + 0.5 * tank) / h_cell) as usize + 1;
                    g.clamp(1, cells - 2)
                };
                coords.push((gc(x), gc(y), gc(z)));
            }
        }
    }
    let h = SpatialHash::build(d, coords);
    for p in 0..8 {
        let c = h.cell_of[p];
        assert_eq!(h.hashtableindex[c + 1] - h.hashtableindex[c], 1);
        assert!(h.neighbor_candidates(p).is_empty());
    }
    // The scatter is a permutation of the eight particles.
    let mut all = h.hashtable.clone();
    all.sort();
    assert_eq!(all, (0..8).collect::<Vec<usize>>());
}
