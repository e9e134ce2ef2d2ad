use crate::hash::{bucket_start, lemma_count_lt_mono, lemma_count_prefix_bounds, SpatialHash};
use vstd::prelude::*;

verus! {

broadcast use vstd::seq_lib::lemma_seq_contains_after_push;

/// Particles `p` and `j` occupy the same or adjacent cells of the grid:
/// their cell coordinates differ by at most one in every axis. Only such
/// pairs can be closer than one cell side, so they are the candidate
/// neighbors the density solver has to look at.
pub open spec fn near(coords: Seq<(usize, usize, usize)>, p: int, j: int) -> bool {
    &&& -1 <= coords[j].0 as int - coords[p].0 as int <= 1
    &&& -1 <= coords[j].1 as int - coords[p].1 as int <= 1
    &&& -1 <= coords[j].2 as int - coords[p].2 as int <= 1
}

/// Cell adjacency is symmetric: `j` is gathered as a candidate around `p`
/// exactly when `p` is gathered as a candidate around `j`, since
/// `neighbor_candidates` returns precisely the other particles that are
/// `near` its argument.
pub proof fn lemma_near_symmetric(coords: Seq<(usize, usize, usize)>, p: int, j: int)
    ensures
        near(coords, p, j) == near(coords, j, p),
{
}

/// Position of `j`'s cell in the scan order of the 27 cells around `p`.
spec fn scan_rank(coords: Seq<(usize, usize, usize)>, p: int, j: int) -> int {
    (coords[j].0 as int - coords[p].0 as int + 1) * 9 + (coords[j].1 as int - coords[p].1 as int
        + 1) * 3 + (coords[j].2 as int - coords[p].2 as int + 1)
}

/// The slot of the hash table that holds `v`.
spec fn slot_of(table: Seq<usize>, v: usize) -> int {
    choose|k: int| 0 <= k < table.len() && table[k] == v
}

/// In a duplicate-free table the slot of a value is the one it is seen at.
proof fn lemma_slot_of_unique(table: Seq<usize>, v: usize, k: int)
    requires
        table.no_duplicates(),
        0 <= k < table.len(),
        table[k] == v,
    ensures
        slot_of(table, v) == k,
{
    assert(exists|i: int| 0 <= i < table.len() && #[trigger] table[i] == v);
    let i = slot_of(table, v);
    assert(0 <= i < table.len() && table[i] == v);
}

impl SpatialHash {
    /// The hash table's slot for particle `v` lies inside the bucket of
    /// `v`'s own cell.
    proof fn lemma_slot_in_own_bucket(self, v: usize)
        requires
            self.wf(),
            (v as int) < self.grid_coord@.len(),
        ensures
            ({
                let ids = self.cell_of@;
                let s = slot_of(self.hashtable@, v);
                &&& bucket_start(ids, ids[v as int] as int) <= s < bucket_start(
                    ids,
                    ids[v as int] as int + 1,
                )
                &&& 0 <= s < self.hashtable@.len()
                &&& self.hashtable@[s] == v
            }),
    {
        let ids = self.cell_of@;
        let n = self.grid_coord@.len() as int;
        assert(ids[v as int] < self.dims.num_cell());
        assert(exists|k: int|
            bucket_start(ids, ids[v as int] as int) <= k < bucket_start(
                ids,
                ids[v as int] as int + 1,
            ) && self.hashtable@[k] == v);
        let k = choose|k: int|
            bucket_start(ids, ids[v as int] as int) <= k < bucket_start(
                ids,
                ids[v as int] as int + 1,
            ) && self.hashtable@[k] == v;
        lemma_count_prefix_bounds(ids, ids[v as int] as int, n);
        lemma_count_prefix_bounds(ids, ids[v as int] as int + 1, n);
        lemma_slot_of_unique(self.hashtable@, v, k);
    }

    /// Gathers the candidate neighbors of particle `p` by scanning the 27
    /// grid cells around `p`'s cell: exactly the other particles whose cell
    /// adjoins `p`'s, each exactly once, in unspecified order.
    #[verifier::loop_isolation(false)]
    #[verifier::rlimit(80)]
    pub fn neighbor_candidates(&self, p: usize) -> (r: Vec<usize>)
        requires
            self.wf(),
            (p as int) < self.grid_coord@.len(),
        ensures
            forall|t: int|
                0 <= t < r@.len() ==> (#[trigger] r@[t] as int) < self.grid_coord@.len()
                    && r@[t] != p && near(self.grid_coord@, p as int, r@[t] as int),
            forall|j: usize|
                (j as int) < self.grid_coord@.len() && j != p && near(
                    self.grid_coord@,
                    p as int,
                    j as int,
                ) ==> #[trigger] r@.contains(j),
            r@.no_duplicates(),
    {
        let ghost cs = self.grid_coord@;
        let ghost ids = self.cell_of@;
        let n = self.grid_coord.len();
        let g = self.grid_coord[p];
        let gx = g.0;
        let gy = g.1;
        let gz = g.2;
        proof {
            self.dims.lemma_axis_bounds();
        }
        let mut result: Vec<usize> = Vec::new();
        let mut ox: usize = 0;
        while ox < 3
            invariant
                ox <= 3,
                result@.no_duplicates(),
                forall|j: usize|
                    #[trigger] result@.contains(j) <==> ((j as int) < n && j != p && near(
                        cs,
                        p as int,
                        j as int,
                    ) && scan_rank(cs, p as int, j as int) < ox * 9),
            decreases 3 - ox,
        {
            let mut oy: usize = 0;
            while oy < 3
                invariant
                    oy <= 3,
                    result@.no_duplicates(),
                    forall|j: usize|
                        #[trigger] result@.contains(j) <==> ((j as int) < n && j != p && near(
                            cs,
                            p as int,
                            j as int,
                        ) && scan_rank(cs, p as int, j as int) < ox * 9 + oy * 3),
                decreases 3 - oy,
            {
                let mut oz: usize = 0;
                while oz < 3
                    invariant
                        oz <= 3,
                        result@.no_duplicates(),
                        forall|j: usize|
                            #[trigger] result@.contains(j) <==> ((j as int) < n && j != p && near(
                                cs,
                                p as int,
                                j as int,
                            ) && scan_rank(cs, p as int, j as int) < ox * 9 + oy * 3 + oz),
                    decreases 3 - oz,
                {
                    let ghost rank = ox * 9 + oy * 3 + oz;
                    let cgx = gx + ox - 1;
                    let cgy = gy + oy - 1;
                    let cgz = gz + oz - 1;
                    let cell = self.dims.index2grid_offset(cgx, cgy, cgz);
                    proof {
                        lemma_count_prefix_bounds(ids, cell as int + 1, n as int);
                        lemma_count_lt_mono(ids, cell as int, cell as int + 1, n as int);
                    }
                    let start = self.hashtableindex[cell];
                    let end = self.hashtableindex[cell + 1];
                    proof {
                        assert(self.hashtableindex@[cell as int] == bucket_start(
                            ids,
                            cell as int,
                        ));
                        assert forall|j: usize|
                            (j as int) < n && j != p && near(cs, p as int, j as int) && scan_rank(
                                cs,
                                p as int,
                                j as int,
                            ) == rank implies slot_of(self.hashtable@, j) >= start by {
                            assert(cs[j as int].0 as int == cgx as int);
                            assert(cs[j as int].1 as int == cgy as int);
                            assert(cs[j as int].2 as int == cgz as int);
                            assert(ids[j as int] == self.dims.cell_id(
                                cs[j as int].0 as int,
                                cs[j as int].1 as int,
                                cs[j as int].2 as int,
                            ));
                            assert(ids[j as int] == cell);
                            self.lemma_slot_in_own_bucket(j);
                        }
                    }
                    let mut t = start;
                    while t < end
                        invariant
                            start <= t <= end,
                            result@.no_duplicates(),
                            forall|j: usize|
                                #[trigger] result@.contains(j) <==> ((j as int) < n && j != p
                                    && near(cs, p as int, j as int) && (scan_rank(
                                    cs,
                                    p as int,
                                    j as int,
                                ) < rank || (scan_rank(cs, p as int, j as int) == rank && slot_of(
                                    self.hashtable@,
                                    j,
                                ) < t))),
                        decreases end - t,
                    {
                        let j = self.hashtable[t];
                        proof {
                            assert(self.hashtableindex@[cell as int] == bucket_start(
                                ids,
                                cell as int,
                            ));
                            assert(self.hashtableindex@[cell as int + 1] == bucket_start(
                                ids,
                                cell as int + 1,
                            ));
                            assert(ids[j as int] == cell);
                            lemma_slot_of_unique(self.hashtable@, j, t as int);
                            self.dims.lemma_cell_id_injective(
                                cs[j as int].0 as int,
                                cs[j as int].1 as int,
                                cs[j as int].2 as int,
                                cgx as int,
                                cgy as int,
                                cgz as int,
                            );
                            assert(near(cs, p as int, j as int));
                            assert(scan_rank(cs, p as int, j as int) == rank);
                        }
                        let ghost result0 = result@;
                        if j != p {
                            proof {
                                assert(!result0.contains(j));
                            }
                            result.push(j);
                            proof {
                                assert forall|a: int, b: int|
                                    0 <= a < result@.len() && 0 <= b < result@.len() && a
                                        != b implies result@[a] != result@[b] by {
                                    if a < result0.len() && b < result0.len() {
                                    } else if a == result0.len() {
                                        if result0[b] == j {
                                            assert(result0.contains(j));
                                        }
                                    } else {
                                        if result0[a] == j {
                                            assert(result0.contains(j));
                                        }
                                    }
                                }
                            }
                        }
                        proof {
                            assert forall|j2: usize|
                                #[trigger] result@.contains(j2) <==> ((j2 as int) < n && j2 != p
                                    && near(cs, p as int, j2 as int) && (scan_rank(
                                    cs,
                                    p as int,
                                    j2 as int,
                                ) < rank || (scan_rank(cs, p as int, j2 as int) == rank && slot_of(
                                    self.hashtable@,
                                    j2,
                                ) < t + 1))) by {
                                if j2 != j && (j2 as int) < n && j2 != p && scan_rank(
                                    cs,
                                    p as int,
                                    j2 as int,
                                ) == rank && slot_of(self.hashtable@, j2) == t {
                                    self.lemma_slot_in_own_bucket(j2);
                                }
                            }
                        }
                        t = t + 1;
                    }
                    proof {
                        assert forall|j: usize|
                            (j as int) < n && j != p && near(cs, p as int, j as int) && scan_rank(
                                cs,
                                p as int,
                                j as int,
                            ) == rank implies #[trigger] result@.contains(j) by {
                            assert(cs[j as int].0 as int == cgx as int);
                            assert(cs[j as int].1 as int == cgy as int);
                            assert(cs[j as int].2 as int == cgz as int);
                            assert(ids[j as int] == self.dims.cell_id(
                                cs[j as int].0 as int,
                                cs[j as int].1 as int,
                                cs[j as int].2 as int,
                            ));
                            assert(ids[j as int] == cell);
                            self.lemma_slot_in_own_bucket(j);
                            assert(slot_of(self.hashtable@, j) < end);
                        }
                    }
                    oz = oz + 1;
                }
                oy = oy + 1;
            }
            ox = ox + 1;
        }
        proof {
            assert forall|t: int| 0 <= t < result@.len() implies (#[trigger] result@[t] as int) < n
                && result@[t] != p && near(cs, p as int, result@[t] as int) by {
                assert(result@.contains(result@[t]));
            }
        }
        result
    }
}

} // verus!
