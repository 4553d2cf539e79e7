//! Building a gridmap from plain cell values.

use vstd::prelude::*;
use crate::maps::gridmap::Gridmap;

verus! {

/// Whether a 2D array of cell values describes a grid this crate can hold:
/// at least one row and one column, every row of the same length, and a
/// total cell count addressable with a 32-bit index.
pub open spec fn arr_map_ok(arr: Seq<Vec<u8>>) -> bool {
    &&& arr.len() >= 1
    &&& arr[0]@.len() >= 1
    &&& arr.len() * arr[0]@.len() <= u32::MAX
    &&& forall|y: int| 0 <= y < arr.len() ==> (#[trigger] arr[y])@.len() == arr[0]@.len()
}

/// Builds a gridmap from a 2D vector of cell values, row by row, with the
/// default resolution of one twentieth of a meter per cell. Returns the
/// grid exactly when the array is non-empty, rectangular and addressable;
/// the cell at `(x, y)` then holds `arr_map[y][x]`.
pub fn build_gridmap_from_2d_arr(arr_map: &Vec<Vec<u8>>) -> (r: Option<Gridmap>)
    ensures
        r is Some <==> arr_map_ok(arr_map@),
        r is Some ==> {
            let gm = r->0;
            &&& gm.wf()
            &&& gm.spec_width() == arr_map@[0]@.len()
            &&& gm.spec_height() == arr_map@.len()
            &&& gm.spec_resolution() == 50
            &&& forall|x: u32, y: u32|
                y < arr_map@.len() && x < arr_map@[0]@.len() ==> gm.spec_cost((x, y))
                    == arr_map@[y as int]@[x as int]
        },
{
    if arr_map.len() == 0 {
        return None;
    }
    if arr_map[0].len() == 0 {
        return None;
    }
    let rows: usize = arr_map.len();
    let cols: usize = arr_map[0].len();
    proof {
        assert((rows as int) * (cols as int) < 0x100000000000000000000000000000000)
            by (nonlinear_arith)
            requires
                rows < 0x10000000000000000,
                cols < 0x10000000000000000,
        ;
    }
    if (rows as u128) * (cols as u128) > u32::MAX as u128 {
        proof {
            assert(arr_map@.len() * arr_map@[0]@.len() > u32::MAX) by (nonlinear_arith)
                requires
                    (rows as u128) * (cols as u128) > u32::MAX,
                    rows as int == arr_map@.len(),
                    cols as int == arr_map@[0]@.len(),
            ;
        }
        return None;
    }
    let mut y: usize = 0;
    while y < rows
        invariant
            y <= rows,
            rows == arr_map@.len(),
            cols == arr_map@[0]@.len(),
            forall|j: int| 0 <= j < y ==> (#[trigger] arr_map@[j])@.len() == cols,
        decreases rows - y,
    {
        if arr_map[y].len() != cols {
            return None;
        }
        y += 1;
    }
    proof {
        assert((rows as int) * (cols as int) <= u32::MAX) by (nonlinear_arith)
            requires
                (rows as u128) * (cols as u128) <= u32::MAX,
        ;
        assert(rows <= u32::MAX && cols <= u32::MAX) by (nonlinear_arith)
            requires
                (rows as int) * (cols as int) <= u32::MAX,
                rows >= 1,
                cols >= 1,
        ;
    }
    let width: u32 = cols as u32;
    let height: u32 = rows as u32;
    let mut gridmap = Gridmap::new(width, height, 50);
    let mut yy: u32 = 0;
    while yy < height
        invariant
            yy <= height,
            rows == arr_map@.len(),
            cols == arr_map@[0]@.len(),
            width == cols,
            height == rows,
            forall|j: int| 0 <= j < rows ==> (#[trigger] arr_map@[j])@.len() == cols,
            gridmap.wf(),
            gridmap.spec_width() == width,
            gridmap.spec_height() == height,
            gridmap.spec_resolution() == 50,
            forall|x: u32, y2: u32|
                y2 < yy && x < width ==> gridmap.spec_cost((x, y2)) == arr_map@[y2 as int]@[
                    x as int
                ],
        decreases height - yy,
    {
        let mut xx: u32 = 0;
        while xx < width
            invariant
                xx <= width,
                yy < height,
                rows == arr_map@.len(),
                cols == arr_map@[0]@.len(),
                width == cols,
                height == rows,
                forall|j: int| 0 <= j < rows ==> (#[trigger] arr_map@[j])@.len() == cols,
                gridmap.wf(),
                gridmap.spec_width() == width,
                gridmap.spec_height() == height,
                gridmap.spec_resolution() == 50,
                forall|x: u32, y2: u32|
                    y2 < yy && x < width ==> gridmap.spec_cost((x, y2)) == arr_map@[y2 as int]@[
                        x as int
                    ],
                forall|x: u32|
                    x < xx ==> gridmap.spec_cost((x, yy)) == arr_map@[yy as int]@[x as int],
            decreases width - xx,
        {
            let val = arr_map[yy as usize][xx as usize];
            gridmap.set_val_xy(val, (xx, yy));
            xx += 1;
        }
        yy += 1;
    }
    Some(gridmap)
}

} // verus!
