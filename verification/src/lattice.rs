use vstd::prelude::*;

verus! {

/// One site of the staggered close-packed lattice that seeds a scene.
///
/// The site at integer coordinates `(ix, iy, iz)` becomes a particle at
/// `base + (ix * dx, iy * dy, iz * dz)`, shifted by one particle radius in X
/// and Z when it is `staggered`, which holds on every odd row.
#[derive(Clone, Copy, PartialEq, Eq, Structural)]
pub struct LatticeSite {
    pub ix: usize,
    pub iy: usize,
    pub iz: usize,
    pub staggered: bool,
}

impl LatticeSite {
    /// The site belongs to a lattice of `num_x * num_y * num_z` sites and
    /// sits at position `p` of its row-major enumeration.
    pub open spec fn is_site(self, num_x: int, num_y: int, num_z: int, p: int) -> bool {
        &&& self.ix < num_x
        &&& self.iy < num_y
        &&& self.iz < num_z
        &&& p == (self.ix * num_y + self.iy) * num_z + self.iz
        &&& self.staggered == (self.iy % 2 == 1)
    }
}

/// Enumerates the `num_x * num_y * num_z` sites of the seeding lattice in
/// row-major order: X outermost, then Y, then Z, with every odd row marked
/// staggered.
pub fn lattice_sites(num_x: usize, num_y: usize, num_z: usize) -> (r: Vec<LatticeSite>)
    requires
        num_x * num_y * num_z <= usize::MAX,
    ensures
        r@.len() == num_x * num_y * num_z,
        forall|p: int|
            0 <= p < r@.len() ==> (#[trigger] r@[p]).is_site(
                num_x as int,
                num_y as int,
                num_z as int,
                p,
            ),
{
    let mut sites: Vec<LatticeSite> = Vec::new();
    let mut i: usize = 0;
    while i < num_x
        invariant
            i <= num_x,
            sites@.len() == i * (num_y * num_z),
            forall|p: int|
                0 <= p < sites@.len() ==> (#[trigger] sites@[p]).is_site(
                    num_x as int,
                    num_y as int,
                    num_z as int,
                    p,
                ),
        decreases num_x - i,
    {
        let mut j: usize = 0;
        while j < num_y
            invariant
                i < num_x,
                j <= num_y,
                sites@.len() == i * (num_y * num_z) + j * num_z,
                forall|p: int|
                    0 <= p < sites@.len() ==> (#[trigger] sites@[p]).is_site(
                        num_x as int,
                        num_y as int,
                        num_z as int,
                        p,
                    ),
            decreases num_y - j,
        {
            let mut k: usize = 0;
            while k < num_z
                invariant
                    i < num_x,
                    j < num_y,
                    k <= num_z,
                    sites@.len() == i * (num_y * num_z) + j * num_z + k,
                    forall|p: int|
                        0 <= p < sites@.len() ==> (#[trigger] sites@[p]).is_site(
                            num_x as int,
                            num_y as int,
                            num_z as int,
                            p,
                        ),
                decreases num_z - k,
            {
                proof {
                    assert((i * num_y + j) * num_z + k == i * (num_y * num_z) + j * num_z + k)
                        by (nonlinear_arith);
                }
                sites.push(
                    LatticeSite { ix: i, iy: j, iz: k, staggered: j % 2 == 1 },
                );
                k = k + 1;
            }
            proof {
                assert(i * (num_y * num_z) + j * num_z + num_z == i * (num_y * num_z) + (j + 1)
                    * num_z) by (nonlinear_arith);
            }
            j = j + 1;
        }
        proof {
            assert(i * (num_y * num_z) + num_y * num_z == (i + 1) * (num_y * num_z))
                by (nonlinear_arith);
        }
        i = i + 1;
    }
    proof {
        assert(num_x * (num_y * num_z) == num_x * num_y * num_z) by (nonlinear_arith);
    }
    sites
}

} // verus!
