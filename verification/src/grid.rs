use vstd::arithmetic::div_mod::lemma_fundamental_div_mod_converse;
use vstd::prelude::*;

verus! {

/// Dimensions of the padded uniform grid behind the spatial hash.
///
/// The tank is covered by `cell_x * cell_y * cell_z` cells of side `h`,
/// counting a one-cell padding ring on every face. A particle clamped into
/// the tank always lands strictly inside the ring, so every 3x3x3
/// neighborhood lookup around it stays in range.
#[derive(Clone, Copy, PartialEq, Eq, Structural)]
pub struct GridDims {
    pub cell_x: usize,
    pub cell_y: usize,
    pub cell_z: usize,
}

impl GridDims {
    /// Total number of cells in the grid.
    pub open spec fn num_cell(self) -> int {
        self.cell_x * self.cell_y * self.cell_z
    }

    /// Two padding cells plus at least one interior cell per axis, and the
    /// cell count fits in `usize` with room for the prefix-sum sentinel.
    pub open spec fn wf(self) -> bool {
        &&& self.cell_x >= 3
        &&& self.cell_y >= 3
        &&& self.cell_z >= 3
        &&& self.num_cell() + 1 <= usize::MAX
    }

    /// Linear id of the cell at coordinates `(gx, gy, gz)`.
    pub open spec fn cell_id(self, gx: int, gy: int, gz: int) -> int {
        gx * (self.cell_y * self.cell_z) + gy * self.cell_z + gz
    }

    /// The coordinates name a cell of the grid.
    pub open spec fn in_grid(self, gx: int, gy: int, gz: int) -> bool {
        &&& 0 <= gx < self.cell_x
        &&& 0 <= gy < self.cell_y
        &&& 0 <= gz < self.cell_z
    }

    /// The coordinates lie strictly inside the padding ring: shifting them
    /// by at most one cell in each axis still names a cell of the grid.
    pub open spec fn in_interior(self, gx: int, gy: int, gz: int) -> bool {
        &&& 1 <= gx && gx + 1 < self.cell_x
        &&& 1 <= gy && gy + 1 < self.cell_y
        &&& 1 <= gz && gz + 1 < self.cell_z
    }

    /// Builds the dimensions, refusing degenerate or oversized grids.
    pub fn new(cell_x: usize, cell_y: usize, cell_z: usize) -> (r: Option<GridDims>)
        ensures
            match r {
                Some(d) => {
                    &&& d.cell_x == cell_x
                    &&& d.cell_y == cell_y
                    &&& d.cell_z == cell_z
                    &&& d.wf()
                },
                None => {
                    ||| cell_x < 3
                    ||| cell_y < 3
                    ||| cell_z < 3
                    ||| cell_x * cell_y * cell_z + 1 > usize::MAX
                },
            },
    {
        if cell_x < 3 || cell_y < 3 || cell_z < 3 {
            return None;
        }
        let yz = match cell_y.checked_mul(cell_z) {
            Some(yz) => yz,
            None => {
                proof {
                    assert(cell_x * cell_y * cell_z >= cell_y * cell_z) by (nonlinear_arith)
                        requires
                            cell_x >= 1,
                            cell_y * cell_z >= 0,
                    ;
                }
                return None;
            },
        };
        let total = match cell_x.checked_mul(yz) {
            Some(total) => total,
            None => {
                proof {
                    assert(cell_x * cell_y * cell_z == cell_x * (cell_y * cell_z))
                        by (nonlinear_arith);
                }
                return None;
            },
        };
        if total == usize::MAX {
            proof {
                assert(cell_x * cell_y * cell_z == cell_x * (cell_y * cell_z)) by (nonlinear_arith);
            }
            return None;
        }
        proof {
            assert(cell_x * cell_y * cell_z == cell_x * (cell_y * cell_z)) by (nonlinear_arith);
        }
        Some(GridDims { cell_x, cell_y, cell_z })
    }

    /// Each axis extent, and a single grid slab, is no larger than the
    /// whole grid, whose size factors through the Y-Z slab.
    pub proof fn lemma_axis_bounds(self)
        requires
            self.wf(),
        ensures
            self.cell_x <= self.num_cell(),
            self.cell_y <= self.num_cell(),
            self.cell_z <= self.num_cell(),
            self.cell_y * self.cell_z <= self.num_cell(),
            self.num_cell() == self.cell_x * (self.cell_y * self.cell_z),
    {
        let cx = self.cell_x as int;
        let cy = self.cell_y as int;
        let cz = self.cell_z as int;
        assert(cx <= cx * cy * cz && cy <= cx * cy * cz && cz <= cx * cy * cz && cy * cz <= cx * cy
            * cz && cx * cy * cz == cx * (cy * cz)) by (nonlinear_arith)
            requires
                cx >= 1,
                cy >= 1,
                cz >= 1,
        ;
    }

    /// The linear id of in-grid coordinates lies in `[0, num_cell)`, and a
    /// single grid slab is no larger than the whole grid.
    pub proof fn lemma_cell_id_in_range(self, gx: int, gy: int, gz: int)
        requires
            self.wf(),
            self.in_grid(gx, gy, gz),
        ensures
            0 <= self.cell_id(gx, gy, gz) < self.num_cell(),
            self.cell_y * self.cell_z <= self.num_cell(),
    {
        let cx = self.cell_x as int;
        let cy = self.cell_y as int;
        let cz = self.cell_z as int;
        assert(0 <= gx * (cy * cz) + gy * cz + gz < cx * cy * cz && cy * cz <= cx * cy * cz)
            by (nonlinear_arith)
            requires
                0 <= gx < cx,
                0 <= gy < cy,
                0 <= gz < cz,
                cx >= 1,
        ;
    }

    /// Distinct in-grid coordinates get distinct linear ids: the linear id
    /// is a mixed-radix numeral and decodes uniquely.
    pub proof fn lemma_cell_id_injective(
        self,
        gx1: int,
        gy1: int,
        gz1: int,
        gx2: int,
        gy2: int,
        gz2: int,
    )
        requires
            self.wf(),
            self.in_grid(gx1, gy1, gz1),
            self.in_grid(gx2, gy2, gz2),
            self.cell_id(gx1, gy1, gz1) == self.cell_id(gx2, gy2, gz2),
        ensures
            gx1 == gx2,
            gy1 == gy2,
            gz1 == gz2,
    {
        let cy = self.cell_y as int;
        let cz = self.cell_z as int;
        let yz = cy * cz;
        let id = self.cell_id(gx1, gy1, gz1);
        assert(0 <= gy1 * cz + gz1 < cy * cz && 0 <= gy2 * cz + gz2 < cy * cz)
            by (nonlinear_arith)
            requires
                0 <= gy1 < cy,
                0 <= gz1 < cz,
                0 <= gy2 < cy,
                0 <= gz2 < cz,
        ;
        lemma_fundamental_div_mod_converse(id, yz, gx1, gy1 * cz + gz1);
        lemma_fundamental_div_mod_converse(id, yz, gx2, gy2 * cz + gz2);
        let rem = gy1 * cz + gz1;
        lemma_fundamental_div_mod_converse(rem, cz, gy1, gz1);
        lemma_fundamental_div_mod_converse(rem, cz, gy2, gz2);
    }

    /// Linear cell id of in-grid coordinates, as the hash table indexes it.
    pub fn index2grid_offset(&self, gx: usize, gy: usize, gz: usize) -> (r: usize)
        requires
            self.wf(),
            self.in_grid(gx as int, gy as int, gz as int),
        ensures
            r == self.cell_id(gx as int, gy as int, gz as int),
            r < self.num_cell(),
    {
        proof {
            self.lemma_cell_id_in_range(gx as int, gy as int, gz as int);
            assert(gx * (self.cell_y * self.cell_z) <= self.cell_id(
                gx as int,
                gy as int,
                gz as int,
            ));
        }
        gx * (self.cell_y * self.cell_z) + gy * self.cell_z + gz
    }
}

} // verus!
