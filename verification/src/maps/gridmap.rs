//! The occupancy grid: a dense 2D field of per-cell cost bytes.
//!
//! The origin is at the top left of the map; the y-axis is positive
//! downwards and the x-axis positive rightwards. Cells are stored row-major,
//! so a cell `(x, y)` lives at index `y * width + x`.

use vstd::prelude::*;
use vstd::pervasive::VecAdditionalExecFns;

verus! {

/// Cell is an unknown part of the map.
pub const NO_INFORMATION: u8 = 255;
/// Cell contains a lethal obstacle.
pub const LETHAL_OBSTACLE: u8 = 254;
/// Cell collides with some obstacle if the robot center is in it.
/// Also the default traversability ceiling: a cell is passable when its
/// cost is strictly below this value.
pub const INSCRIBED_INFLATED_OBSTACLE: u8 = 253;
/// Cell is in free space.
pub const FREE_SPACE: u8 = 0;

/// The cell a fixed-point coordinate (thousandths of a cell) rounds to:
/// the nearest cell index, halves rounding up.
pub open spec fn round_to_cell(x: int) -> int {
    (x + 500) / 1000
}

/// A coordinate below one half before the first cell rounds below zero.
proof fn lemma_round_negative(x: int)
    requires
        x < -500,
    ensures
        round_to_cell(x) < 0,
{
    vstd::arithmetic::div_mod::lemma_div_is_ordered(x + 500, -1, 1000);
    assert((-1int) / 1000 == -1);
}

/// A coordinate beyond any 32-bit cell index rounds beyond it too.
proof fn lemma_round_large(x: int)
    requires
        x > 4400000000000,
    ensures
        round_to_cell(x) > u32::MAX,
{
    vstd::arithmetic::div_mod::lemma_div_is_ordered(4400000000500, x + 500, 1000);
    assert(4400000000500int / 1000 == 4400000000);
}

/// The absolute x-extent of a segment, in fixed-point units.
pub open spec fn seg_adx(a: (i64, i64), b: (i64, i64)) -> int {
    let dx = b.0 as int - a.0 as int;
    if dx >= 0 { dx } else { -dx }
}

/// The absolute y-extent of a segment, in fixed-point units.
pub open spec fn seg_ady(a: (i64, i64), b: (i64, i64)) -> int {
    let dy = b.1 as int - a.1 as int;
    if dy >= 0 { dy } else { -dy }
}

/// Whether the x-axis is the dominant (larger-extent) axis of a segment.
pub open spec fn seg_x_dom(a: (i64, i64), b: (i64, i64)) -> bool {
    seg_adx(a, b) >= seg_ady(a, b)
}

/// The dominant extent of a segment.
pub open spec fn seg_dom(a: (i64, i64), b: (i64, i64)) -> int {
    if seg_x_dom(a, b) { seg_adx(a, b) } else { seg_ady(a, b) }
}

/// The minor extent of a segment.
pub open spec fn seg_minor(a: (i64, i64), b: (i64, i64)) -> int {
    if seg_x_dom(a, b) { seg_ady(a, b) } else { seg_adx(a, b) }
}

/// The per-step x-increment of the walk along a segment.
pub open spec fn seg_inc_x(a: (i64, i64), b: (i64, i64)) -> int {
    if b.0 as int - a.0 as int >= 0 { 1000 } else { -1000 }
}

/// The per-step y-increment of the walk along a segment.
pub open spec fn seg_inc_y(a: (i64, i64), b: (i64, i64)) -> int {
    if b.1 as int - a.1 as int >= 0 { 1000 } else { -1000 }
}

/// How many steps the walk along a segment takes: one per cell of the
/// dominant extent, rounded up.
pub open spec fn seg_steps(a: (i64, i64), b: (i64, i64)) -> int {
    (seg_dom(a, b) + 999) / 1000
}

/// The state of the rasterized line walk after `k` steps: the fixed-point
/// position and the accumulated minor-axis error numerator (scaled by the
/// dominant extent). Each step advances one cell along the dominant axis;
/// the minor axis advances when the accumulated error crosses one half
/// step.
pub open spec fn line_walk(
    ax: int,
    ay: int,
    x_dom: bool,
    inc_x: int,
    inc_y: int,
    dom: int,
    minor: int,
    k: nat,
) -> (int, int, int)
    decreases k,
{
    if k == 0 {
        (ax, ay, 0)
    } else {
        let prev = line_walk(ax, ay, x_dom, inc_x, inc_y, dom, minor, (k - 1) as nat);
        if 2 * (prev.2 + minor) < dom {
            if x_dom {
                (prev.0 + inc_x, prev.1, prev.2 + minor)
            } else {
                (prev.0, prev.1 + inc_y, prev.2 + minor)
            }
        } else {
            (prev.0 + inc_x, prev.1 + inc_y, prev.2 + minor - dom)
        }
    }
}

/// Law: a position outside the grid bounds is never traversable, at any
/// ceiling.
pub proof fn lemma_traversable_out_of_bounds(g: Gridmap, pos: (u32, u32), max_cost: u8)
    requires
        !g.spec_in_map(pos),
    ensures
        !g.spec_traversable(pos, max_cost),
{
}

/// Law: a degenerate segment (both endpoints equal) collides with nothing,
/// at any ceiling.
pub proof fn lemma_segment_degenerate(g: Gridmap, a: (i64, i64), max_cost: u8)
    ensures
        !g.spec_segment_collides(a, a, max_cost),
{
}

/// A fixed-size occupancy grid with a cost byte per cell.
///
/// Continuous-space coordinates are carried in thousandths of a cell
/// (fixed point), as is the resolution (thousandths of a meter per cell).
pub struct Gridmap {
    /// Number of cells along the x-axis.
    width: u32,
    /// Number of cells along the y-axis.
    height: u32,
    /// Resolution of the map in thousandths of a meter per cell.
    resolution: u32,
    /// Row-major cell costs; length is always `width * height`.
    cells: Vec<u8>,
}

impl Gridmap {
    /// The grid width, as seen by specifications.
    pub closed spec fn spec_width(&self) -> u32 {
        self.width
    }

    /// The grid height, as seen by specifications.
    pub closed spec fn spec_height(&self) -> u32 {
        self.height
    }

    /// The resolution, as seen by specifications.
    pub closed spec fn spec_resolution(&self) -> u32 {
        self.resolution
    }

    /// The row-major cell costs, as seen by specifications.
    pub closed spec fn cell_seq(&self) -> Seq<u8> {
        self.cells@
    }

    /// Well-formedness: dimensions are positive, the whole grid is
    /// addressable with a 32-bit index, and the cell array matches the
    /// dimensions exactly.
    pub open spec fn wf(&self) -> bool {
        &&& self.spec_width() >= 1
        &&& self.spec_height() >= 1
        &&& self.spec_resolution() >= 1
        &&& self.spec_width() * self.spec_height() <= u32::MAX
        &&& self.cell_seq().len() == self.spec_width() * self.spec_height()
    }

    /// Two grids describe the same map: equal dimensions, resolution and
    /// cell costs. This is what [`Gridmap::clone`] guarantees.
    pub open spec fn same_map(&self, other: &Gridmap) -> bool {
        &&& self.spec_width() == other.spec_width()
        &&& self.spec_height() == other.spec_height()
        &&& self.spec_resolution() == other.spec_resolution()
        &&& self.cell_seq() == other.cell_seq()
    }

    /// Whether a 2D position lies inside the grid.
    pub open spec fn spec_in_map(&self, pos: (u32, u32)) -> bool {
        pos.0 < self.spec_width() && pos.1 < self.spec_height()
    }

    /// The row-major index of an in-bounds 2D position.
    pub open spec fn spec_idx(&self, pos: (u32, u32)) -> int {
        pos.1 * self.spec_width() + pos.0
    }

    /// The stored cost of an in-bounds 2D position.
    pub open spec fn spec_cost(&self, pos: (u32, u32)) -> u8 {
        self.cell_seq()[self.spec_idx(pos)]
    }

    /// Traversability: in bounds, and cost strictly below the ceiling.
    /// Every out-of-bounds position is non-traversable.
    pub open spec fn spec_traversable(&self, pos: (u32, u32), max_cost: u8) -> bool {
        self.spec_in_map(pos) && self.spec_cost(pos) < max_cost
    }

    /// The 2D position of a row-major index.
    pub open spec fn spec_cell_of(&self, i: int) -> (u32, u32) {
        ((i % self.spec_width() as int) as u32, (i / self.spec_width() as int) as u32)
    }

    /// Converting a position to its index and back yields the position.
    pub proof fn lemma_cell_of_idx(&self, pos: (u32, u32))
        requires
            self.wf(),
            self.spec_in_map(pos),
        ensures
            self.spec_cell_of(self.spec_idx(pos)) == pos,
    {
        let w = self.spec_width() as int;
        vstd::arithmetic::div_mod::lemma_fundamental_div_mod_converse(
            self.spec_idx(pos),
            w,
            pos.1 as int,
            pos.0 as int,
        );
    }

    /// Converting an in-range index to its position and back yields the
    /// index, and the position is in bounds.
    pub proof fn lemma_idx_cell_of(&self, i: int)
        requires
            self.wf(),
            0 <= i < self.spec_width() * self.spec_height(),
        ensures
            self.spec_in_map(self.spec_cell_of(i)),
            self.spec_idx(self.spec_cell_of(i)) == i,
    {
        let w = self.spec_width() as int;
        let h = self.spec_height() as int;
        vstd::arithmetic::div_mod::lemma_fundamental_div_mod(i, w);
        vstd::arithmetic::div_mod::lemma_mod_pos_bound(i, w);
        assert(i / w < h) by (nonlinear_arith)
            requires
                w >= 1,
                h >= 1,
                i < w * h,
                i == w * (i / w) + i % w,
                0 <= i % w < w,
        ;
        assert(i / w >= 0) by (nonlinear_arith)
            requires
                w >= 1,
                i >= 0,
                i == w * (i / w) + i % w,
                0 <= i % w < w,
        ;
        assert((i / w) * w + i % w == i) by (nonlinear_arith)
            requires i == w * (i / w) + i % w;
    }

    /// For an in-bounds position the row-major index is within the cell array.
    pub proof fn lemma_idx_in_range(&self, pos: (u32, u32))
        requires
            self.wf(),
            self.spec_in_map(pos),
        ensures
            0 <= self.spec_idx(pos) < self.cell_seq().len(),
    {
        let w = self.spec_width() as int;
        let h = self.spec_height() as int;
        assert(pos.1 * w + pos.0 < h * w) by (nonlinear_arith)
            requires
                pos.0 < w,
                pos.1 < h,
                w >= 1,
                h >= 1,
        ;
    }

    /// Distinct in-bounds positions have distinct row-major indices.
    pub proof fn lemma_idx_injective(&self, p1: (u32, u32), p2: (u32, u32))
        requires
            self.wf(),
            self.spec_in_map(p1),
            self.spec_in_map(p2),
            self.spec_idx(p1) == self.spec_idx(p2),
        ensures
            p1 == p2,
    {
        let w = self.spec_width() as int;
        assert(p1.1 == p2.1 && p1.0 == p2.0) by (nonlinear_arith)
            requires
                p1.0 < w,
                p2.0 < w,
                p1.1 * w + p1.0 == p2.1 * w + p2.0,
                w >= 1,
        ;
    }

    /// Constructor: a grid of the given dimensions with all cells free.
    pub fn new(width: u32, height: u32, resolution: u32) -> (r: Gridmap)
        requires
            width >= 1,
            height >= 1,
            resolution >= 1,
            width * height <= u32::MAX,
        ensures
            r.wf(),
            r.spec_width() == width,
            r.spec_height() == height,
            r.spec_resolution() == resolution,
            forall|i: int| 0 <= i < r.cell_seq().len() ==> r.cell_seq()[i] == FREE_SPACE,
    {
        proof {
            assert(width * height <= u32::MAX) by (nonlinear_arith)
                requires width as int * height as int <= u32::MAX;
        }
        let total: u32 = width * height;
        let n: usize = total as usize;
        let mut cells: Vec<u8> = Vec::new();
        while cells.len() < n
            invariant
                cells@.len() <= n,
                forall|i: int| 0 <= i < cells@.len() ==> cells@[i] == FREE_SPACE,
            decreases n - cells.len(),
        {
            cells.push(FREE_SPACE);
        }
        Gridmap { width, height, resolution, cells }
    }

    /// Get the width of the gridmap.
    pub fn get_width(&self) -> (r: u32)
        ensures
            r == self.spec_width(),
    {
        self.width
    }

    /// Get the height of the gridmap.
    pub fn get_height(&self) -> (r: u32)
        ensures
            r == self.spec_height(),
    {
        self.height
    }

    /// Get the resolution of the gridmap, in thousandths of a meter per cell.
    pub fn get_resolution(&self) -> (r: u32)
        ensures
            r == self.spec_resolution(),
    {
        self.resolution
    }

    /// Get the cell array of the gridmap.
    pub fn get_cells(&self) -> (r: &Vec<u8>)
        ensures
            r@ == self.cell_seq(),
    {
        &self.cells
    }

    /// Mirror a row coordinate across the horizontal middle of the grid.
    pub fn flip_y_u32(&self, y: u32) -> (r: u32)
        requires
            y < self.spec_height(),
        ensures
            r == self.spec_height() - 1 - y,
    {
        self.height - 1 - y
    }

    /// Check if the 1D index of a cell is within the map.
    pub fn idx_in_map(&self, idx: usize) -> (r: bool)
        ensures
            r == (idx < self.cell_seq().len()),
    {
        idx < self.cells.len()
    }

    /// Set the cell value at a 1D index. An out-of-map index is a contract
    /// violation: all call sites are expected to have validated it.
    pub fn set_val_idx(&mut self, val: u8, idx: usize)
        requires
            idx < old(self).cell_seq().len(),
        ensures
            final(self).cell_seq() == old(self).cell_seq().update(idx as int, val),
            final(self).spec_width() == old(self).spec_width(),
            final(self).spec_height() == old(self).spec_height(),
            final(self).spec_resolution() == old(self).spec_resolution(),
            old(self).wf() ==> final(self).wf(),
    {
        self.cells.set(idx, val);
    }

    /// Get the cell value at a 1D index. An out-of-map index is a contract
    /// violation: all call sites are expected to have validated it.
    pub fn get_val_idx(&self, idx: usize) -> (r: u8)
        requires
            idx < self.cell_seq().len(),
        ensures
            r == self.cell_seq()[idx as int],
    {
        self.cells[idx]
    }

    /// Check if the cell at a 1D index is traversable: its cost must be
    /// strictly below `max_cost`.
    pub fn idx_is_traversable(&self, idx: usize, max_cost: &u8) -> (r: bool)
        requires
            idx < self.cell_seq().len(),
        ensures
            r == (self.cell_seq()[idx as int] < *max_cost),
    {
        self.get_val_idx(idx) < *max_cost
    }

    /// Convert from a 2D position to its row-major 1D index.
    pub fn xy_to_idx(&self, pos: (u32, u32)) -> (r: usize)
        requires
            self.wf(),
            self.spec_in_map(pos),
        ensures
            r == self.spec_idx(pos),
            r < self.cell_seq().len(),
    {
        proof {
            self.lemma_idx_in_range(pos);
        }
        (pos.1 * self.width + pos.0) as usize
    }

    /// Convert from a row-major 1D index to a 2D position.
    pub fn idx_to_xy(&self, idx: u32) -> (r: (u32, u32))
        requires
            self.wf(),
        ensures
            r.0 == idx as int % self.spec_width() as int,
            r.1 == idx as int / self.spec_width() as int,
    {
        (idx % self.width, idx / self.width)
    }

    /// Check if a 2D position is within the map.
    pub fn xy_in_map(&self, pos: (u32, u32)) -> (r: bool)
        ensures
            r == self.spec_in_map(pos),
    {
        pos.0 < self.width && pos.1 < self.height
    }

    /// Set the cell value at a 2D position. An out-of-map position is a
    /// contract violation: all call sites are expected to have validated it.
    pub fn set_val_xy(&mut self, val: u8, pos: (u32, u32))
        requires
            old(self).wf(),
            old(self).spec_in_map(pos),
        ensures
            final(self).wf(),
            final(self).cell_seq() == old(self).cell_seq().update(old(self).spec_idx(pos), val),
            final(self).spec_width() == old(self).spec_width(),
            final(self).spec_height() == old(self).spec_height(),
            final(self).spec_resolution() == old(self).spec_resolution(),
            final(self).spec_cost(pos) == val,
            forall|q: (u32, u32)|
                final(self).spec_in_map(q) && q != pos ==> final(self).spec_cost(q) == old(
                    self,
                ).spec_cost(q),
    {
        let idx = self.xy_to_idx(pos);
        self.set_val_idx(val, idx);
        proof {
            self.lemma_idx_in_range(pos);
            assert forall|q: (u32, u32)| self.spec_in_map(q) && q != pos implies self.spec_cost(q)
                == old(self).spec_cost(q) by {
                self.lemma_idx_in_range(q);
                if self.spec_idx(q) == self.spec_idx(pos) {
                    self.lemma_idx_injective(q, pos);
                }
            }
        }
    }

    /// Get the cell value at a 2D position. An out-of-map position is a
    /// contract violation: all call sites are expected to have validated it.
    pub fn get_val_xy(&self, pos: (u32, u32)) -> (r: u8)
        requires
            self.wf(),
            self.spec_in_map(pos),
        ensures
            r == self.spec_cost(pos),
    {
        self.get_val_idx(self.xy_to_idx(pos))
    }

    /// Check if the cell at a 2D position is traversable: it must lie within
    /// the map and its cost must be strictly below `max_cost`. Out-of-bounds
    /// positions are never traversable.
    pub fn xy_is_traversable(&self, pos: &(u32, u32), max_cost: &u8) -> (r: bool)
        requires
            self.wf(),
        ensures
            r == self.spec_traversable(*pos, *max_cost),
    {
        if !self.xy_in_map(*pos) {
            return false;
        }
        self.idx_is_traversable(self.xy_to_idx(*pos), max_cost)
    }

    /// Traversability of a fixed-point position (thousandths of a cell),
    /// judged on the nearest cell (halves round up): the rounded cell must
    /// lie within the map and its cost must be below the ceiling.
    pub open spec fn spec_traversable_fp_xy(&self, x: int, y: int, max_cost: u8) -> bool {
        let cx = round_to_cell(x);
        let cy = round_to_cell(y);
        &&& 0 <= cx < self.spec_width()
        &&& 0 <= cy < self.spec_height()
        &&& self.spec_cost((cx as u32, cy as u32)) < max_cost
    }

    /// Check if a fixed-point position (thousandths of a cell) is
    /// traversable: it is rounded to the nearest cell, which must lie
    /// within the map and cost strictly less than `max_cost`. Positions
    /// rounding outside the map are never traversable.
    pub fn xy_is_traversable_fp(&self, pos: &(i64, i64), max_cost: &u8) -> (r: bool)
        requires
            self.wf(),
        ensures
            r == self.spec_traversable_fp_xy(pos.0 as int, pos.1 as int, *max_cost),
    {
        if pos.0 < -500 || pos.1 < -500 {
            proof {
                if pos.0 < -500 {
                    lemma_round_negative(pos.0 as int);
                } else {
                    lemma_round_negative(pos.1 as int);
                }
            }
            return false;
        }
        if pos.0 > 4400000000000 || pos.1 > 4400000000000 {
            proof {
                if pos.0 > 4400000000000 {
                    lemma_round_large(pos.0 as int);
                } else {
                    lemma_round_large(pos.1 as int);
                }
            }
            return false;
        }
        let cx: u64 = ((pos.0 + 500) as u64) / 1000;
        let cy: u64 = ((pos.1 + 500) as u64) / 1000;
        proof {
            vstd::arithmetic::div_mod::lemma_div_is_ordered(
                pos.0 as int + 500,
                4400000000500,
                1000,
            );
            vstd::arithmetic::div_mod::lemma_div_is_ordered(
                pos.1 as int + 500,
                4400000000500,
                1000,
            );
            assert(4400000000500int / 1000 == 4400000000);
        }
        if cx >= self.width as u64 || cy >= self.height as u64 {
            return false;
        }
        self.get_val_idx(self.xy_to_idx((cx as u32, cy as u32))) < *max_cost
    }

    /// A traversable fixed-point position lies within half a cell of the
    /// grid's span.
    pub proof fn lemma_traversable_fp_bounds(&self, x: int, y: int, max_cost: u8)
        requires
            self.wf(),
            self.spec_traversable_fp_xy(x, y, max_cost),
        ensures
            -500 <= x < self.spec_width() * 1000,
            -500 <= y < self.spec_height() * 1000,
    {
        let w = self.spec_width() as int;
        let h = self.spec_height() as int;
        vstd::arithmetic::div_mod::lemma_fundamental_div_mod(x + 500, 1000);
        vstd::arithmetic::div_mod::lemma_mod_pos_bound(x + 500, 1000);
        vstd::arithmetic::div_mod::lemma_fundamental_div_mod(y + 500, 1000);
        vstd::arithmetic::div_mod::lemma_mod_pos_bound(y + 500, 1000);
        assert(x + 500 == 1000 * round_to_cell(x) + (x + 500) % 1000);
        assert(1000 * round_to_cell(x) <= 1000 * (w - 1)) by (nonlinear_arith)
            requires round_to_cell(x) <= w - 1;
        assert(1000 * round_to_cell(x) >= 0) by (nonlinear_arith)
            requires round_to_cell(x) >= 0;
        assert(1000 * round_to_cell(y) <= 1000 * (h - 1)) by (nonlinear_arith)
            requires round_to_cell(y) <= h - 1;
        assert(1000 * round_to_cell(y) >= 0) by (nonlinear_arith)
            requires round_to_cell(y) >= 0;
    }

    /// A step of the walk from `a` to `b` at index `k`, with the walk
    /// parameters derived from the segment: see [`line_walk`].
    pub open spec fn spec_walk_point(&self, a: (i64, i64), b: (i64, i64), k: int) -> (int, int, int) {
        line_walk(
            a.0 as int,
            a.1 as int,
            seg_x_dom(a, b),
            seg_inc_x(a, b),
            seg_inc_y(a, b),
            seg_dom(a, b),
            seg_minor(a, b),
            k as nat,
        )
    }

    /// What the line collision test reports: whether any sampled position
    /// of the rasterized walk from `a` to `b` is non-traversable. The walk
    /// samples once per cell along the dominant axis, endpoints included;
    /// a degenerate segment never collides.
    pub open spec fn spec_segment_collides(&self, a: (i64, i64), b: (i64, i64), max_cost: u8) -> bool {
        if a.0 == b.0 && a.1 == b.1 {
            false
        } else {
            exists|k: int|
                0 <= k <= seg_steps(a, b) && !self.spec_traversable_fp_xy(
                    (#[trigger] self.spec_walk_point(a, b, k)).0,
                    self.spec_walk_point(a, b, k).1,
                    max_cost,
                )
        }
    }

    /// Checks if the straight rasterized line from fixed-point point
    /// `pos_a` to point `pos_b` crosses a non-traversable cell, endpoints
    /// included. The walk advances one cell along the dominant axis each
    /// step and lets the accumulated error drive the other axis, so one
    /// loop handles every slope octant. A degenerate segment (equal
    /// endpoints) never collides.
    pub fn check_collision_line_fp(&self, pos_a: &(i64, i64), pos_b: &(i64, i64), max_cost: &u8) -> (r:
        bool)
        requires
            self.wf(),
            -4500000000000 <= pos_a.0 <= 4500000000000,
            -4500000000000 <= pos_a.1 <= 4500000000000,
            -4500000000000 <= pos_b.0 <= 4500000000000,
            -4500000000000 <= pos_b.1 <= 4500000000000,
        ensures
            r == self.spec_segment_collides(*pos_a, *pos_b, *max_cost),
            *pos_a == *pos_b ==> r == false,
    {
        let dx = pos_b.0 - pos_a.0;
        let dy = pos_b.1 - pos_a.1;

        // Starting and ending position is the same
        if dx == 0 && dy == 0 {
            return false;
        }

        let adx: i64 = if dx >= 0 {
            dx
        } else {
            -dx
        };
        let ady: i64 = if dy >= 0 {
            dy
        } else {
            -dy
        };
        let x_dom = adx >= ady;
        let dom: i64 = if x_dom {
            adx
        } else {
            ady
        };
        let minor: i64 = if x_dom {
            ady
        } else {
            adx
        };
        let inc_x: i64 = if dx >= 0 {
            1000
        } else {
            -1000
        };
        let inc_y: i64 = if dy >= 0 {
            1000
        } else {
            -1000
        };
        let n: u64 = ((dom as u64) + 999) / 1000;
        proof {
            vstd::arithmetic::div_mod::lemma_fundamental_div_mod(dom as int + 999, 1000);
            vstd::arithmetic::div_mod::lemma_mod_pos_bound(dom as int + 999, 1000);
            assert(adx as int == seg_adx(*pos_a, *pos_b));
            assert(ady as int == seg_ady(*pos_a, *pos_b));
            assert(x_dom == seg_x_dom(*pos_a, *pos_b));
            assert(dom as int == seg_dom(*pos_a, *pos_b));
            assert(minor as int == seg_minor(*pos_a, *pos_b));
            assert(inc_x as int == seg_inc_x(*pos_a, *pos_b));
            assert(inc_y as int == seg_inc_y(*pos_a, *pos_b));
            assert(n as int == seg_steps(*pos_a, *pos_b));
        }

        let ghost ax = pos_a.0 as int;
        let ghost ay = pos_a.1 as int;
        let mut x: i64 = pos_a.0;
        let mut y: i64 = pos_a.1;
        let mut num: i64 = 0;

        if !self.xy_is_traversable_fp(&(x, y), max_cost) {
            proof {
                assert(line_walk(ax, ay, x_dom, inc_x as int, inc_y as int, dom as int,
                    minor as int, 0) == (ax, ay, 0int));
                assert(self.spec_walk_point(*pos_a, *pos_b, 0) == (ax, ay, 0int));
                assert(!self.spec_traversable_fp_xy(
                    self.spec_walk_point(*pos_a, *pos_b, 0).0,
                    self.spec_walk_point(*pos_a, *pos_b, 0).1,
                    *max_cost,
                ));
                assert(self.spec_segment_collides(*pos_a, *pos_b, *max_cost));
            }
            return true;
        }

        let mut k: u64 = 0;
        while k < n
            invariant
                self.wf(),
                ax == pos_a.0 as int,
                ay == pos_a.1 as int,
                x_dom == seg_x_dom(*pos_a, *pos_b),
                dom as int == seg_dom(*pos_a, *pos_b),
                minor as int == seg_minor(*pos_a, *pos_b),
                inc_x as int == seg_inc_x(*pos_a, *pos_b),
                inc_y as int == seg_inc_y(*pos_a, *pos_b),
                n as int == seg_steps(*pos_a, *pos_b),
                !(pos_a.0 == pos_b.0 && pos_a.1 == pos_b.1),
                0 < dom <= 9000000000000,
                0 <= minor <= dom,
                inc_x == 1000 || inc_x == -1000,
                inc_y == 1000 || inc_y == -1000,
                -4500000000000 <= ax <= 4500000000000,
                -4500000000000 <= ay <= 4500000000000,
                k <= n,
                (n as int) * 1000 <= dom + 999,
                -((k as int) * 1000) <= x - ax <= (k as int) * 1000,
                -((k as int) * 1000) <= y - ay <= (k as int) * 1000,
                -(dom as int) <= num <= dom,
                (x as int, y as int, num as int) == line_walk(
                    ax,
                    ay,
                    x_dom,
                    inc_x as int,
                    inc_y as int,
                    dom as int,
                    minor as int,
                    k as nat,
                ),
                forall|j: int|
                    0 <= j <= k ==> self.spec_traversable_fp_xy(
                        #[trigger] line_walk(ax, ay, x_dom, inc_x as int, inc_y as int, dom as int,
                            minor as int, j as nat).0,
                        line_walk(ax, ay, x_dom, inc_x as int, inc_y as int, dom as int,
                            minor as int, j as nat).1,
                        *max_cost,
                    ),
            decreases n - k,
        {
            proof {
                assert(((k + 1) as int) * 1000 == (k as int) * 1000 + 1000 && ((k + 1) as int)
                    * 1000 <= (n as int) * 1000) by (nonlinear_arith)
                    requires k as int + 1 <= n as int;
            }
            if 2 * (num + minor) < dom {
                num = num + minor;
                if x_dom {
                    x = x + inc_x;
                } else {
                    y = y + inc_y;
                }
            } else {
                num = num + minor - dom;
                x = x + inc_x;
                y = y + inc_y;
            }
            k = k + 1;
            proof {
                assert((x as int, y as int, num as int) == line_walk(ax, ay, x_dom, inc_x as int,
                    inc_y as int, dom as int, minor as int, k as nat));
            }
            if !self.xy_is_traversable_fp(&(x, y), max_cost) {
                proof {
                    assert(self.spec_walk_point(*pos_a, *pos_b, k as int) == (x as int, y as int,
                        num as int));
                    assert(!self.spec_traversable_fp_xy(
                        (self.spec_walk_point(*pos_a, *pos_b, k as int)).0,
                        self.spec_walk_point(*pos_a, *pos_b, k as int).1,
                        *max_cost,
                    ));
                    assert(self.spec_segment_collides(*pos_a, *pos_b, *max_cost));
                }
                return true;
            }
        }

        proof {
            assert forall|j: int| 0 <= j <= seg_steps(*pos_a, *pos_b) implies self
                .spec_traversable_fp_xy(
                (#[trigger] self.spec_walk_point(*pos_a, *pos_b, j)).0,
                self.spec_walk_point(*pos_a, *pos_b, j).1,
                *max_cost,
            ) by {
                assert(self.spec_walk_point(*pos_a, *pos_b, j) == line_walk(ax, ay, x_dom,
                    inc_x as int, inc_y as int, dom as int, minor as int, j as nat));
            }
            assert(!self.spec_segment_collides(*pos_a, *pos_b, *max_cost));
        }
        false
    }

    /// The distinct cell values present in the map, each reported once, in
    /// order of first appearance.
    pub fn get_unique_values(&self) -> (r: Vec<u8>)
        ensures
            forall|v: u8| r@.contains(v) <==> self.cell_seq().contains(v),
            r@.no_duplicates(),
    {
        let cells = &self.cells;
        let mut seen: Vec<u8> = Vec::new();
        let mut i: usize = 0;
        while i < cells.len()
            invariant
                i <= cells@.len(),
                cells@ == self.cell_seq(),
                forall|v: u8|
                    seen@.contains(v) <==> (exists|k: int|
                        0 <= k < i && #[trigger] cells@[k] == v),
                seen@.no_duplicates(),
            decreases cells.len() - i,
        {
            let val = cells[i];
            let mut found = false;
            let mut j: usize = 0;
            while j < seen.len()
                invariant
                    j <= seen@.len(),
                    found <==> (exists|k: int| 0 <= k < j && #[trigger] seen@[k] == val),
                decreases seen.len() - j,
            {
                if seen[j] == val {
                    found = true;
                }
                j += 1;
            }
            let ghost old_seen = seen@;
            proof {
                assert(found <==> old_seen.contains(val));
            }
            if !found {
                seen.push(val);
            }
            proof {
                assert forall|v: u8|
                    seen@.contains(v) <==> (exists|k: int|
                        0 <= k < i + 1 && #[trigger] cells@[k] == v) by {
                    if seen@.contains(v) {
                        if old_seen.contains(v) {
                            let k = choose|k: int| 0 <= k < i && #[trigger] cells@[k] == v;
                            assert(cells@[k] == v);
                        } else {
                            assert(v == val);
                            assert(cells@[i as int] == v);
                        }
                    }
                    if exists|k: int| 0 <= k < i + 1 && #[trigger] cells@[k] == v {
                        let k = choose|k: int| 0 <= k < i + 1 && #[trigger] cells@[k] == v;
                        if k < i {
                            assert(old_seen.contains(v));
                            let m = choose|m: int| 0 <= m < old_seen.len() && old_seen[m] == v;
                            assert(seen@[m] == v);
                        } else {
                            assert(v == val);
                            if !found {
                                assert(seen@[seen@.len() - 1] == val);
                            } else {
                                let m = choose|m: int|
                                    0 <= m < old_seen.len() && old_seen[m] == val;
                                assert(seen@[m] == val);
                            }
                        }
                    }
                }
                if !found {
                    assert forall|a: int, b: int|
                        0 <= a < seen@.len() && 0 <= b < seen@.len() && a != b implies seen@[a]
                        != seen@[b] by {
                        if a < seen@.len() - 1 && b < seen@.len() - 1 {
                            assert(old_seen[a] != old_seen[b]);
                        } else if a == seen@.len() - 1 {
                            assert(seen@[b] == old_seen[b]);
                            assert(!old_seen.contains(val));
                        } else {
                            assert(seen@[a] == old_seen[a]);
                            assert(!old_seen.contains(val));
                        }
                    }
                }
            }
            i += 1;
        }
        proof {
            assert forall|v: u8| seen@.contains(v) <==> self.cell_seq().contains(v) by {
                if seen@.contains(v) {
                    let k = choose|k: int| 0 <= k < i && #[trigger] cells@[k] == v;
                    assert(self.cell_seq()[k] == v);
                }
                if self.cell_seq().contains(v) {
                    let k = choose|k: int|
                        0 <= k < self.cell_seq().len() && self.cell_seq()[k] == v;
                    assert(cells@[k] == v);
                }
            }
        }
        seen
    }
}

impl Clone for Gridmap {
    /// Cloning yields a grid with the same dimensions, resolution and cells.
    fn clone(&self) -> (r: Self)
        ensures
            r.spec_width() == self.spec_width(),
            r.spec_height() == self.spec_height(),
            r.spec_resolution() == self.spec_resolution(),
            r.cell_seq() == self.cell_seq(),
    {
        let mut cells: Vec<u8> = Vec::new();
        let mut i: usize = 0;
        while i < self.cells.len()
            invariant
                i <= self.cells@.len(),
                cells@ == self.cells@.subrange(0, i as int),
            decreases self.cells.len() - i,
        {
            cells.push(self.cells[i]);
            proof {
                assert(cells@ =~= self.cells@.subrange(0, i as int + 1));
            }
            i += 1;
        }
        proof {
            assert(cells@ =~= self.cells@);
        }
        Gridmap { width: self.width, height: self.height, resolution: self.resolution, cells }
    }
}

} // verus!
