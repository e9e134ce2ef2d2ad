use crate::grid::GridDims;
use vstd::prelude::*;

verus! {

/// Number of entries among the first `upto` of `ids` that are below `c`.
pub open spec fn count_lt_prefix(ids: Seq<usize>, c: int, upto: int) -> int
    decreases upto,
{
    if upto <= 0 {
        0
    } else {
        count_lt_prefix(ids, c, upto - 1) + if ids[upto - 1] < c {
            1int
        } else {
            0int
        }
    }
}

/// Number of entries among the first `upto` of `ids` that equal `c`.
pub open spec fn count_eq_prefix(ids: Seq<usize>, c: int, upto: int) -> int
    decreases upto,
{
    if upto <= 0 {
        0
    } else {
        count_eq_prefix(ids, c, upto - 1) + if ids[upto - 1] == c {
            1int
        } else {
            0int
        }
    }
}

/// First slot of bucket `c`: the number of entries in smaller cells.
pub open spec fn bucket_start(ids: Seq<usize>, c: int) -> int {
    count_lt_prefix(ids, c, ids.len() as int)
}

/// Size of bucket `c`: the number of entries equal to `c`.
pub open spec fn bucket_size(ids: Seq<usize>, c: int) -> int {
    count_eq_prefix(ids, c, ids.len() as int)
}

/// Both prefix counts lie between 0 and the length of the prefix.
pub proof fn lemma_count_prefix_bounds(ids: Seq<usize>, c: int, upto: int)
    requires
        0 <= upto <= ids.len(),
    ensures
        0 <= count_lt_prefix(ids, c, upto) <= upto,
        0 <= count_eq_prefix(ids, c, upto) <= upto,
    decreases upto,
{
    if upto > 0 {
        lemma_count_prefix_bounds(ids, c, upto - 1);
    }
}

/// Counting below `c + 1` splits into counting below `c` and counting `c`.
pub proof fn lemma_count_lt_split(ids: Seq<usize>, c: int, upto: int)
    requires
        upto <= ids.len(),
    ensures
        count_lt_prefix(ids, c + 1, upto) == count_lt_prefix(ids, c, upto) + count_eq_prefix(
            ids,
            c,
            upto,
        ),
    decreases upto,
{
    if upto > 0 {
        lemma_count_lt_split(ids, c, upto - 1);
    }
}

/// The count of entries below a bound grows with the bound.
pub proof fn lemma_count_lt_mono(ids: Seq<usize>, c1: int, c2: int, upto: int)
    requires
        upto <= ids.len(),
        c1 <= c2,
    ensures
        count_lt_prefix(ids, c1, upto) <= count_lt_prefix(ids, c2, upto),
    decreases upto,
{
    if upto > 0 {
        lemma_count_lt_mono(ids, c1, c2, upto - 1);
    }
}

/// Prefix counts grow with the prefix.
pub proof fn lemma_count_prefix_mono(ids: Seq<usize>, c: int, upto1: int, upto2: int)
    requires
        0 <= upto1 <= upto2 <= ids.len(),
    ensures
        count_lt_prefix(ids, c, upto1) <= count_lt_prefix(ids, c, upto2),
        count_eq_prefix(ids, c, upto1) <= count_eq_prefix(ids, c, upto2),
    decreases upto2,
{
    if upto1 < upto2 {
        lemma_count_prefix_mono(ids, c, upto1, upto2 - 1);
    }
}

/// Nothing counts as below a bound that is at most zero.
pub proof fn lemma_count_lt_zero(ids: Seq<usize>, c: int, upto: int)
    requires
        c <= 0,
        upto <= ids.len(),
    ensures
        count_lt_prefix(ids, c, upto) == 0,
    decreases upto,
{
    if upto > 0 {
        lemma_count_lt_zero(ids, c, upto - 1);
    }
}

/// When every entry is below `m`, the count below `m` is the whole prefix.
pub proof fn lemma_count_lt_full(ids: Seq<usize>, m: int, upto: int)
    requires
        0 <= upto <= ids.len(),
        forall|k: int| 0 <= k < ids.len() ==> ids[k] < m,
    ensures
        count_lt_prefix(ids, m, upto) == upto,
    decreases upto,
{
    if upto > 0 {
        lemma_count_lt_full(ids, m, upto - 1);
    }
}

/// Every slot below the total count lies in the bucket of some cell.
pub proof fn lemma_slot_has_bucket(ids: Seq<usize>, m: int, k: int)
    requires
        0 <= k < count_lt_prefix(ids, m, ids.len() as int),
    ensures
        exists|c: int|
            0 <= c < m && #[trigger] bucket_start(ids, c) <= k < bucket_start(ids, c + 1),
    decreases m,
{
    if m <= 0 {
        lemma_count_lt_zero(ids, m, ids.len() as int);
    } else {
        if bucket_start(ids, m - 1) <= k {
            assert(0 <= m - 1 < m && bucket_start(ids, m - 1) <= k < bucket_start(ids, m));
        } else {
            lemma_slot_has_bucket(ids, m - 1, k);
        }
    }
}

/// Builds the hash table over the given cell ids by counting sort.
///
/// Returns `(hashtableindex, hashtable)`. `hashtableindex[c]` is the first
/// slot of bucket `c`, for every `c` up to and including `num_cell` (so the
/// last entry is the total count and the entries are non-decreasing).
/// `hashtable` lists the input positions sorted by cell id: the slots of
/// bucket `c` hold exactly the positions whose id is `c`, each exactly once.
#[verifier::rlimit(50)]
pub fn build_hashtable(ids: &Vec<usize>, num_cell: usize) -> (r: (Vec<usize>, Vec<usize>))
    requires
        forall|k: int| 0 <= k < ids@.len() ==> ids@[k] < num_cell,
        num_cell < usize::MAX,
    ensures
        r.0@.len() == num_cell + 1,
        r.1@.len() == ids@.len(),
        forall|c: int| 0 <= c <= num_cell ==> r.0@[c] == bucket_start(ids@, c),
        forall|k: int| 0 <= k < ids@.len() ==> r.1@[k] < ids@.len(),
        r.1@.no_duplicates(),
        forall|c: int, k: int|
            #![trigger bucket_start(ids@, c), r.1@[k]]
            0 <= c < num_cell && bucket_start(ids@, c) <= k < bucket_start(ids@, c + 1)
                ==> ids@[r.1@[k] as int] == c,
        forall|v: int|
            0 <= v < ids@.len() ==> exists|k: int|
                bucket_start(ids@, #[trigger] ids@[v] as int) <= k < bucket_start(
                    ids@,
                    ids@[v] as int + 1,
                ) && r.1@[k] == v,
{
    let n = ids.len();
    let mut hashtableindex: Vec<usize> = zero_vec(num_cell + 1);

    // First pass: count the entries of each cell.
    let mut i: usize = 0;
    while i < n
        invariant
            n == ids@.len(),
            i <= n,
            forall|k: int| 0 <= k < n ==> ids@[k] < num_cell,
            hashtableindex@.len() == num_cell + 1,
            forall|c: int|
                0 <= c <= num_cell ==> #[trigger] hashtableindex@[c] == count_eq_prefix(
                    ids@,
                    c,
                    i as int,
                ),
        decreases n - i,
    {
        let c = ids[i];
        proof {
            lemma_count_prefix_bounds(ids@, c as int, i as int);
        }
        let cur = hashtableindex[c];
        hashtableindex.set(c, cur + 1);
        i = i + 1;
    }

    // Second pass: prefix-sum the counts in place, so that entry `c` holds
    // the end of bucket `c`; the sentinel holds the total.
    proof {
        lemma_count_lt_zero(ids@, 0, n as int);
    }
    let mut prefix_sum: usize = 0;
    let mut c: usize = 0;
    while c < num_cell
        invariant
            n == ids@.len(),
            c <= num_cell,
            forall|k: int| 0 <= k < n ==> ids@[k] < num_cell,
            hashtableindex@.len() == num_cell + 1,
            prefix_sum == bucket_start(ids@, c as int),
            forall|c2: int|
                0 <= c2 < c ==> #[trigger] hashtableindex@[c2] == bucket_start(ids@, c2 + 1),
            forall|c2: int|
                c <= c2 <= num_cell ==> #[trigger] hashtableindex@[c2] == bucket_size(ids@, c2),
        decreases num_cell - c,
    {
        proof {
            lemma_count_lt_split(ids@, c as int, n as int);
            lemma_count_prefix_bounds(ids@, c as int + 1, n as int);
        }
        prefix_sum = prefix_sum + hashtableindex[c];
        hashtableindex.set(c, prefix_sum);
        c = c + 1;
    }
    proof {
        lemma_count_lt_full(ids@, num_cell as int, n as int);
    }
    hashtableindex.set(num_cell, prefix_sum);

    // Third pass: walk the entries backward through their buckets, so that
    // entry `c` ends at the first slot of bucket `c` again. The ghost
    // sequence records the slot each entry was scattered to.
    let mut hashtable: Vec<usize> = zero_vec(n);
    let ghost mut positions: Seq<int> = Seq::empty();
    let mut i: usize = 0;
    while i < n
        invariant
            n == ids@.len(),
            i <= n,
            forall|k: int| 0 <= k < n ==> ids@[k] < num_cell,
            hashtableindex@.len() == num_cell + 1,
            hashtable@.len() == n,
            hashtableindex@[num_cell as int] == bucket_start(ids@, num_cell as int),
            forall|c2: int|
                0 <= c2 < num_cell ==> #[trigger] hashtableindex@[c2] == bucket_start(
                    ids@,
                    c2 + 1,
                ) - count_eq_prefix(ids@, c2, i as int),
            forall|c2: int, k: int|
                #![trigger hashtableindex@[c2], hashtable@[k]]
                0 <= c2 < num_cell && hashtableindex@[c2] <= k < bucket_start(ids@, c2 + 1)
                    ==> hashtable@[k] < i && ids@[hashtable@[k] as int] == c2,
            forall|c2: int, k1: int, k2: int|
                #![trigger hashtableindex@[c2], hashtable@[k1], hashtable@[k2]]
                0 <= c2 < num_cell && hashtableindex@[c2] <= k1 < k2 < bucket_start(ids@, c2 + 1)
                    ==> hashtable@[k1] > hashtable@[k2],
            positions.len() == i,
            forall|v: int|
                #![trigger positions[v]]
                0 <= v < i ==> hashtableindex@[ids@[v] as int] <= positions[v] < bucket_start(
                    ids@,
                    ids@[v] as int + 1,
                ) && hashtable@[positions[v]] == v,
        decreases n - i,
    {
        let c = ids[i];
        proof {
            lemma_count_prefix_bounds(ids@, c as int, i as int);
            lemma_count_prefix_mono(ids@, c as int, i as int + 1, n as int);
            lemma_count_lt_split(ids@, c as int, n as int);
            lemma_count_prefix_bounds(ids@, c as int + 1, n as int);
            assert(count_eq_prefix(ids@, c as int, i as int + 1) == count_eq_prefix(
                ids@,
                c as int,
                i as int,
            ) + 1);
        }
        let ghost index0 = hashtableindex@;
        let ghost table0 = hashtable@;
        let ghost positions0 = positions;
        let slot = hashtableindex[c] - 1;
        proof {
            assert(bucket_start(ids@, c as int) <= slot < bucket_start(ids@, c as int + 1));
        }
        hashtableindex.set(c, slot);
        hashtable.set(slot, i);
        proof {
            positions = positions.push(slot as int);
            // Buckets other than `c` lie entirely on one side of bucket `c`,
            // so their slots are untouched by this scatter.
            assert forall|c2: int|
                0 <= c2 < num_cell && c2 != c implies bucket_start(ids@, c2 + 1) <= bucket_start(
                ids@,
                c as int,
            ) || bucket_start(ids@, c as int + 1) <= #[trigger] bucket_start(ids@, c2) by {
                if c2 < c {
                    lemma_count_lt_mono(ids@, c2 + 1, c as int, n as int);
                } else {
                    lemma_count_lt_mono(ids@, c as int + 1, c2, n as int);
                }
            }
            // Every scatter cursor still sits at or past its bucket start.
            assert forall|c2: int| 0 <= c2 < num_cell implies bucket_start(ids@, c2)
                <= #[trigger] index0[c2] by {
                lemma_count_prefix_mono(ids@, c2, i as int, n as int);
                lemma_count_lt_split(ids@, c2, n as int);
            }
            assert forall|c2: int, k: int|
                #![trigger hashtableindex@[c2], hashtable@[k]]
                0 <= c2 < num_cell && hashtableindex@[c2] <= k < bucket_start(ids@, c2 + 1)
                    implies hashtable@[k] < i + 1 && ids@[hashtable@[k] as int] == c2 by {
                if c2 == c {
                    if k != slot {
                        assert(index0[c2] == slot + 1);
                        assert(index0[c2] <= k);
                        assert(table0[k] < i && ids@[table0[k] as int] == c2);
                        assert(hashtable@[k] == table0[k]);
                    }
                } else {
                    lemma_count_prefix_bounds(ids@, c2 + 1, n as int);
                    assert(hashtableindex@[c2] == index0[c2]);
                    assert(bucket_start(ids@, c2) <= index0[c2]);
                    assert(bucket_start(ids@, c2 + 1) <= bucket_start(ids@, c as int)
                        || bucket_start(ids@, c as int + 1) <= bucket_start(ids@, c2));
                    assert(k != slot);
                    assert(table0[k] < i && ids@[table0[k] as int] == c2);
                    assert(hashtable@[k] == table0[k]);
                }
            }
            assert forall|c2: int, k1: int, k2: int|
                #![trigger hashtableindex@[c2], hashtable@[k1], hashtable@[k2]]
                0 <= c2 < num_cell && hashtableindex@[c2] <= k1 < k2 < bucket_start(ids@, c2 + 1)
                    implies hashtable@[k1] > hashtable@[k2] by {
                if c2 == c {
                    assert(index0[c2] == slot + 1);
                    if k1 == slot {
                        assert(index0[c2] <= k2);
                        assert(table0[k2] < i && ids@[table0[k2] as int] == c2);
                        assert(hashtable@[k2] == table0[k2]);
                        assert(hashtable@[k1] == i);
                    } else {
                        assert(index0[c2] <= k1 < k2 < bucket_start(ids@, c2 + 1));
                        assert(table0[k1] > table0[k2]);
                        assert(hashtable@[k1] == table0[k1] && hashtable@[k2] == table0[k2]);
                    }
                } else {
                    lemma_count_prefix_bounds(ids@, c2 + 1, n as int);
                    assert(hashtableindex@[c2] == index0[c2]);
                    assert(bucket_start(ids@, c2) <= index0[c2]);
                    assert(bucket_start(ids@, c2 + 1) <= bucket_start(ids@, c as int)
                        || bucket_start(ids@, c as int + 1) <= bucket_start(ids@, c2));
                    assert(k1 != slot && k2 != slot);
                    assert(table0[k1] > table0[k2]);
                    assert(hashtable@[k1] == table0[k1] && hashtable@[k2] == table0[k2]);
                }
            }
            assert forall|v: int|
                #![trigger positions[v]]
                0 <= v < i + 1 implies hashtableindex@[ids@[v] as int] <= positions[v]
                < bucket_start(ids@, ids@[v] as int + 1) && hashtable@[positions[v]] == v by {
                if v == i {
                    assert(positions[v] == slot);
                } else {
                    assert(positions[v] == positions0[v]);
                    assert(index0[ids@[v] as int] <= positions0[v] < bucket_start(
                        ids@,
                        ids@[v] as int + 1,
                    ) && table0[positions0[v]] == v);
                    let c2 = ids@[v] as int;
                    if c2 == c {
                        assert(index0[c2] == slot + 1);
                        assert(positions0[v] != slot);
                    } else {
                        lemma_count_prefix_bounds(ids@, c2 + 1, n as int);
                        assert(hashtableindex@[c2] == index0[c2]);
                        assert(bucket_start(ids@, c2) <= index0[c2]);
                        assert(bucket_start(ids@, c2 + 1) <= bucket_start(ids@, c as int)
                            || bucket_start(ids@, c as int + 1) <= bucket_start(ids@, c2));
                        assert(positions0[v] != slot);
                    }
                    assert(hashtable@[positions0[v]] == table0[positions0[v]]);
                }
            }
        }
        i = i + 1;
    }

    proof {
        lemma_count_lt_full(ids@, num_cell as int, n as int);
        assert forall|c2: int| 0 <= c2 <= num_cell implies #[trigger] hashtableindex@[c2]
            == bucket_start(ids@, c2) by {
            if c2 < num_cell {
                lemma_count_lt_split(ids@, c2, n as int);
            }
        }
        assert forall|c2: int, k: int|
            #![trigger bucket_start(ids@, c2), hashtable@[k]]
            0 <= c2 < num_cell && bucket_start(ids@, c2) <= k < bucket_start(ids@, c2 + 1)
                implies ids@[hashtable@[k] as int] == c2 && hashtable@[k] < n by {
            assert(hashtableindex@[c2] == bucket_start(ids@, c2));
            assert(hashtable@[k] < n && ids@[hashtable@[k] as int] == c2);
        }
        assert forall|k: int| 0 <= k < n implies hashtable@[k] < n by {
            lemma_slot_has_bucket(ids@, num_cell as int, k);
            let cb = choose|c2: int|
                0 <= c2 < num_cell && #[trigger] bucket_start(ids@, c2) <= k < bucket_start(
                    ids@,
                    c2 + 1,
                );
            assert(hashtableindex@[cb] == bucket_start(ids@, cb));
        }
        assert(hashtable@.no_duplicates()) by {
            assert forall|k1: int, k2: int|
                0 <= k1 < hashtable@.len() && 0 <= k2 < hashtable@.len() && k1
                    != k2 implies hashtable@[k1] != hashtable@[k2] by {
                lemma_slot_has_bucket(ids@, num_cell as int, k1);
                lemma_slot_has_bucket(ids@, num_cell as int, k2);
                let c1 = choose|c2: int|
                    0 <= c2 < num_cell && #[trigger] bucket_start(ids@, c2) <= k1 < bucket_start(
                        ids@,
                        c2 + 1,
                    );
                let c2 = choose|c3: int|
                    0 <= c3 < num_cell && #[trigger] bucket_start(ids@, c3) <= k2 < bucket_start(
                        ids@,
                        c3 + 1,
                    );
                assert(hashtableindex@[c1] == bucket_start(ids@, c1));
                assert(hashtableindex@[c2] == bucket_start(ids@, c2));
                if c1 == c2 {
                    if k1 < k2 {
                        assert(hashtable@[k1] > hashtable@[k2]);
                    } else {
                        assert(hashtable@[k2] > hashtable@[k1]);
                    }
                } else {
                    assert(ids@[hashtable@[k1] as int] == c1);
                    assert(ids@[hashtable@[k2] as int] == c2);
                }
            }
        }
        assert forall|v: int| 0 <= v < n implies exists|k: int|
            bucket_start(ids@, #[trigger] ids@[v] as int) <= k < bucket_start(
                ids@,
                ids@[v] as int + 1,
            ) && hashtable@[k] == v by {
            assert(hashtableindex@[ids@[v] as int] <= positions[v] < bucket_start(
                ids@,
                ids@[v] as int + 1,
            ) && hashtable@[positions[v]] == v);
            assert(hashtableindex@[ids@[v] as int] == bucket_start(ids@, ids@[v] as int));
            assert(bucket_start(ids@, ids@[v] as int) <= positions[v] < bucket_start(
                ids@,
                ids@[v] as int + 1,
            ) && hashtable@[positions[v]] == v);
        }
    }
    (hashtableindex, hashtable)
}


/// The spatial hash of one time step: every particle's grid coordinates and
/// cell id, with the counting-sort bucket table over them.
///
/// `hashtable` lists the particles sorted by cell id; bucket `c` spans the
/// slots `hashtableindex[c] .. hashtableindex[c + 1]` and holds exactly the
/// particles whose predicted position fell into cell `c`, in unspecified
/// order.
pub struct SpatialHash {
    pub dims: GridDims,
    pub grid_coord: Vec<(usize, usize, usize)>,
    pub cell_of: Vec<usize>,
    pub hashtable: Vec<usize>,
    pub hashtableindex: Vec<usize>,
}

impl SpatialHash {
    /// Number of particles hashed.
    pub open spec fn num(self) -> int {
        self.grid_coord@.len() as int
    }

    /// The hash is well formed: the coordinates sit strictly inside the
    /// padding ring, the cell ids match them, the index array walks the
    /// bucket starts, and the table scatters every particle into the bucket
    /// of its own cell, each exactly once.
    pub open spec fn wf(self) -> bool {
        let n = self.num();
        let ids = self.cell_of@;
        &&& self.dims.wf()
        &&& self.cell_of@.len() == n
        &&& self.hashtable@.len() == n
        &&& self.hashtableindex@.len() == self.dims.num_cell() + 1
        &&& forall|p: int|
            #![trigger self.grid_coord@[p]]
            0 <= p < n ==> self.dims.in_interior(
                self.grid_coord@[p].0 as int,
                self.grid_coord@[p].1 as int,
                self.grid_coord@[p].2 as int,
            )
        &&& forall|p: int|
            0 <= p < n ==> #[trigger] ids[p] == self.dims.cell_id(
                self.grid_coord@[p].0 as int,
                self.grid_coord@[p].1 as int,
                self.grid_coord@[p].2 as int,
            ) && ids[p] < self.dims.num_cell()
        &&& forall|c: int|
            0 <= c <= self.dims.num_cell() ==> #[trigger] self.hashtableindex@[c] == bucket_start(
                ids,
                c,
            )
        &&& forall|k: int| 0 <= k < n ==> #[trigger] self.hashtable@[k] < n
        &&& self.hashtable@.no_duplicates()
        &&& forall|c: int, k: int|
            #![trigger bucket_start(ids, c), self.hashtable@[k]]
            0 <= c < self.dims.num_cell() && bucket_start(ids, c) <= k < bucket_start(ids, c + 1)
                ==> ids[self.hashtable@[k] as int] == c
        &&& forall|v: int|
            0 <= v < n ==> exists|k: int|
                bucket_start(ids, #[trigger] ids[v] as int) <= k < bucket_start(
                    ids,
                    ids[v] as int + 1,
                ) && self.hashtable@[k] == v
    }

    /// Hashes the particles' grid coordinates: computes each cell id and
    /// builds the counting-sort bucket table over them.
    pub fn build(dims: GridDims, grid_coord: Vec<(usize, usize, usize)>) -> (r: SpatialHash)
        requires
            dims.wf(),
            forall|p: int|
                #![trigger grid_coord@[p]]
                0 <= p < grid_coord@.len() ==> dims.in_interior(
                    grid_coord@[p].0 as int,
                    grid_coord@[p].1 as int,
                    grid_coord@[p].2 as int,
                ),
        ensures
            r.wf(),
            r.dims == dims,
            r.grid_coord@ == grid_coord@,
    {
        proof {
            dims.lemma_axis_bounds();
        }
        let n = grid_coord.len();
        let mut cell_of: Vec<usize> = Vec::new();
        let mut p: usize = 0;
        while p < n
            invariant
                n == grid_coord@.len(),
                p <= n,
                dims.wf(),
                forall|q: int|
                    #![trigger grid_coord@[q]]
                    0 <= q < n ==> dims.in_interior(
                        grid_coord@[q].0 as int,
                        grid_coord@[q].1 as int,
                        grid_coord@[q].2 as int,
                    ),
                cell_of@.len() == p,
                forall|q: int|
                    0 <= q < p ==> #[trigger] cell_of@[q] == dims.cell_id(
                        grid_coord@[q].0 as int,
                        grid_coord@[q].1 as int,
                        grid_coord@[q].2 as int,
                    ) && cell_of@[q] < dims.num_cell(),
            decreases n - p,
        {
            let g = grid_coord[p];
            let id = dims.index2grid_offset(g.0, g.1, g.2);
            cell_of.push(id);
            p = p + 1;
        }
        proof {
            dims.lemma_axis_bounds();
        }
        let yz = dims.cell_y * dims.cell_z;
        let m = dims.cell_x * yz;
        let (hashtableindex, hashtable) = build_hashtable(&cell_of, m);
        SpatialHash { dims, grid_coord, cell_of, hashtable, hashtableindex }
    }

    /// The bucket index never decreases, and its sentinel entry is the
    /// particle count: bucket `c` is exactly the slot range
    /// `hashtableindex[c] .. hashtableindex[c + 1]`, and the buckets
    /// together cover the whole table.
    pub proof fn lemma_index_monotone(self)
        requires
            self.wf(),
        ensures
            forall|c1: int, c2: int|
                #![trigger self.hashtableindex@[c1], self.hashtableindex@[c2]]
                0 <= c1 <= c2 <= self.dims.num_cell() ==> self.hashtableindex@[c1]
                    <= self.hashtableindex@[c2],
            self.hashtableindex@[self.dims.num_cell()] == self.num(),
    {
        let ids = self.cell_of@;
        assert forall|c1: int, c2: int|
            #![trigger self.hashtableindex@[c1], self.hashtableindex@[c2]]
            0 <= c1 <= c2 <= self.dims.num_cell() implies self.hashtableindex@[c1]
            <= self.hashtableindex@[c2] by {
            lemma_count_lt_mono(ids, c1, c2, ids.len() as int);
        }
        lemma_count_lt_full(ids, self.dims.num_cell(), ids.len() as int);
        assert(self.hashtableindex@[self.dims.num_cell()] == bucket_start(
            ids,
            self.dims.num_cell(),
        ));
    }

    /// The hash table lists every particle exactly once: as a multiset, its
    /// slots hold exactly the particle indices `0 .. n`.
    pub proof fn lemma_is_permutation(self)
        requires
            self.wf(),
        ensures
            self.hashtable@.to_multiset() == Seq::new(
                self.num() as nat,
                |v: int| v as usize,
            ).to_multiset(),
    {
        broadcast use vstd::seq_lib::group_to_multiset_ensures;

        vstd::std_specs::vec::axiom_spec_len(&self.grid_coord);
        let n = self.num();
        let ids = self.cell_of@;
        let table = self.hashtable@;
        let idseq = Seq::new(n as nat, |v: int| v as usize);
        assert(idseq.no_duplicates()) by {
            assert forall|a: int, b: int|
                0 <= a < idseq.len() && 0 <= b < idseq.len() && a != b implies idseq[a]
                != idseq[b] by {
                assert(idseq[a] == a as usize && idseq[b] == b as usize);
            }
        }
        table.lemma_multiset_has_no_duplicates();
        idseq.lemma_multiset_has_no_duplicates();
        assert forall|x: usize| table.to_multiset().count(x) == idseq.to_multiset().count(
            x,
        ) by {
            if (x as int) < n {
                lemma_count_prefix_bounds(ids, ids[x as int] as int, n);
                lemma_count_prefix_bounds(ids, ids[x as int] as int + 1, n);
                assert(exists|k: int|
                    bucket_start(ids, ids[x as int] as int) <= k < bucket_start(
                        ids,
                        ids[x as int] as int + 1,
                    ) && table[k] == x);
                let k = choose|k: int|
                    bucket_start(ids, ids[x as int] as int) <= k < bucket_start(
                        ids,
                        ids[x as int] as int + 1,
                    ) && table[k] == x;
                assert(table.contains(x));
                assert(idseq[x as int] == x);
                assert(idseq.contains(x));
                assert(table.to_multiset().count(x) == 1);
                assert(idseq.to_multiset().count(x) == 1);
            } else {
                assert(!table.contains(x)) by {
                    if table.contains(x) {
                        let k = choose|i: int| 0 <= i < table.len() && table[i] == x;
                        assert(table[k] < n);
                    }
                }
                assert(!idseq.contains(x)) by {
                    if idseq.contains(x) {
                        let k = choose|i: int| 0 <= i < idseq.len() && idseq[i] == x;
                        assert(idseq[k] == k as usize);
                    }
                }
                assert(table.to_multiset().count(x) == 0);
                assert(idseq.to_multiset().count(x) == 0);
            }
        }
        assert(table.to_multiset() =~= idseq.to_multiset());
    }
}

/// A vector of `len` zeroed slots.
fn zero_vec(len: usize) -> (r: Vec<usize>)
    ensures
        r@.len() == len,
        forall|k: int| 0 <= k < len ==> r@[k] == 0,
{
    let mut r: Vec<usize> = Vec::new();
    let mut i: usize = 0;
    while i < len
        invariant
            i <= len,
            r@.len() == i,
            forall|k: int| 0 <= k < i ==> r@[k] == 0,
        decreases len - i,
    {
        r.push(0);
        i = i + 1;
    }
    r
}

} // verus!
