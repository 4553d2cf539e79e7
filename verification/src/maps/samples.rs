//! Ready-made occupancy arrays: small maps for demonstrations and tests,
//! written as free (0) and occupied (255) cells.

use vstd::prelude::*;

verus! {

/// Free space in the sample maps.
pub const O: u8 = 0;

/// Occupied space in the sample maps.
pub const X: u8 = 255;

/// Push one row of cell values built from ten literals.
fn row10(a: u8, b: u8, c: u8, d: u8, e: u8, f: u8, g: u8, h: u8, i: u8, j: u8) -> (r: Vec<u8>)
    ensures
        r@ == seq![a, b, c, d, e, f, g, h, i, j],
{
    let mut row: Vec<u8> = Vec::new();
    row.push(a);
    row.push(b);
    row.push(c);
    row.push(d);
    row.push(e);
    row.push(f);
    row.push(g);
    row.push(h);
    row.push(i);
    row.push(j);
    proof {
        assert(row@ =~= seq![a, b, c, d, e, f, g, h, i, j]);
    }
    row
}

/// Push one row of cell values built from seven literals.
fn row7(a: u8, b: u8, c: u8, d: u8, e: u8, f: u8, g: u8) -> (r: Vec<u8>)
    ensures
        r@ == seq![a, b, c, d, e, f, g],
{
    let mut row: Vec<u8> = Vec::new();
    row.push(a);
    row.push(b);
    row.push(c);
    row.push(d);
    row.push(e);
    row.push(f);
    row.push(g);
    proof {
        assert(row@ =~= seq![a, b, c, d, e, f, g]);
    }
    row
}

/// A 10x10 maze with a winding free corridor between opposite corners.
pub fn create_maze_0_arr_map() -> (r: Vec<Vec<u8>>)
    ensures
        r@.len() == 10,
        r@[0]@ == seq![O, O, O, X, O, X, O, O, X, O],
        r@[1]@ == seq![O, X, O, O, O, O, O, O, X, O],
        r@[2]@ == seq![O, X, X, X, X, X, X, O, X, O],
        r@[3]@ == seq![O, O, O, O, X, O, X, O, X, O],
        r@[4]@ == seq![O, O, O, O, O, O, X, O, O, O],
        r@[5]@ == seq![X, X, X, O, O, O, X, X, X, X],
        r@[6]@ == seq![O, O, O, O, X, O, X, O, O, O],
        r@[7]@ == seq![O, O, X, O, X, O, X, O, O, O],
        r@[8]@ == seq![X, X, X, O, X, O, X, O, O, O],
        r@[9]@ == seq![O, O, O, O, X, O, O, O, O, O],
        forall|y: int| 0 <= y < 10 ==> (#[trigger] r@[y])@.len() == 10,
{
    let mut rows: Vec<Vec<u8>> = Vec::new();
    rows.push(row10(O, O, O, X, O, X, O, O, X, O));
    rows.push(row10(O, X, O, O, O, O, O, O, X, O));
    rows.push(row10(O, X, X, X, X, X, X, O, X, O));
    rows.push(row10(O, O, O, O, X, O, X, O, X, O));
    rows.push(row10(O, O, O, O, O, O, X, O, O, O));
    rows.push(row10(X, X, X, O, O, O, X, X, X, X));
    rows.push(row10(O, O, O, O, X, O, X, O, O, O));
    rows.push(row10(O, O, X, O, X, O, X, O, O, O));
    rows.push(row10(X, X, X, O, X, O, X, O, O, O));
    rows.push(row10(O, O, O, O, X, O, O, O, O, O));
    rows
}

/// The 10x10 maze of [`create_maze_0_arr_map`] with the corridor pinched
/// shut near the right edge, so the top-right corner is cut off from the
/// bottom-left region.
pub fn create_maze_1_arr_map() -> (r: Vec<Vec<u8>>)
    ensures
        r@.len() == 10,
        r@[0]@ == seq![O, O, O, X, O, X, O, O, X, O],
        r@[1]@ == seq![O, X, O, O, O, O, O, O, X, O],
        r@[2]@ == seq![O, X, X, X, X, X, X, O, X, O],
        r@[3]@ == seq![O, O, O, O, X, O, X, O, X, X],
        r@[4]@ == seq![O, O, O, O, O, O, X, O, O, O],
        r@[5]@ == seq![X, X, X, O, O, O, X, X, X, X],
        r@[6]@ == seq![O, O, O, O, X, O, X, O, O, O],
        r@[7]@ == seq![O, O, X, O, X, O, X, O, O, O],
        r@[8]@ == seq![X, X, X, O, X, O, X, O, O, O],
        r@[9]@ == seq![O, O, O, O, X, O, O, O, O, O],
        forall|y: int| 0 <= y < 10 ==> (#[trigger] r@[y])@.len() == 10,
{
    let mut rows: Vec<Vec<u8>> = Vec::new();
    rows.push(row10(O, O, O, X, O, X, O, O, X, O));
    rows.push(row10(O, X, O, O, O, O, O, O, X, O));
    rows.push(row10(O, X, X, X, X, X, X, O, X, O));
    rows.push(row10(O, O, O, O, X, O, X, O, X, X));
    rows.push(row10(O, O, O, O, O, O, X, O, O, O));
    rows.push(row10(X, X, X, O, O, O, X, X, X, X));
    rows.push(row10(O, O, O, O, X, O, X, O, O, O));
    rows.push(row10(O, O, X, O, X, O, X, O, O, O));
    rows.push(row10(X, X, X, O, X, O, X, O, O, O));
    rows.push(row10(O, O, O, O, X, O, O, O, O, O));
    rows
}

/// A 10x10 map that is free except for one rectangular obstacle block.
pub fn create_maze_2_arr_map() -> (r: Vec<Vec<u8>>)
    ensures
        r@.len() == 10,
        r@[0]@ == seq![O, O, O, O, O, O, O, O, O, O],
        r@[1]@ == seq![O, O, O, O, O, O, O, O, O, O],
        r@[2]@ == seq![O, O, O, O, O, O, O, O, O, O],
        r@[3]@ == seq![O, O, O, X, X, X, X, O, O, O],
        r@[4]@ == seq![O, O, O, O, O, O, X, O, O, O],
        r@[5]@ == seq![O, O, O, O, O, O, X, O, O, O],
        r@[6]@ == seq![O, O, O, O, O, O, X, O, O, O],
        r@[7]@ == seq![O, O, O, O, O, O, O, O, O, O],
        r@[8]@ == seq![O, O, O, O, O, O, O, O, O, O],
        r@[9]@ == seq![O, O, O, O, O, O, O, O, O, O],
        forall|y: int| 0 <= y < 10 ==> (#[trigger] r@[y])@.len() == 10,
{
    let mut rows: Vec<Vec<u8>> = Vec::new();
    rows.push(row10(O, O, O, O, O, O, O, O, O, O));
    rows.push(row10(O, O, O, O, O, O, O, O, O, O));
    rows.push(row10(O, O, O, O, O, O, O, O, O, O));
    rows.push(row10(O, O, O, X, X, X, X, O, O, O));
    rows.push(row10(O, O, O, O, O, O, X, O, O, O));
    rows.push(row10(O, O, O, O, O, O, X, O, O, O));
    rows.push(row10(O, O, O, O, O, O, X, O, O, O));
    rows.push(row10(O, O, O, O, O, O, O, O, O, O));
    rows.push(row10(O, O, O, O, O, O, O, O, O, O));
    rows.push(row10(O, O, O, O, O, O, O, O, O, O));
    rows
}

/// A 7x5 "snake" map: alternating vertical walls with a connecting gap at
/// the bottom row.
pub fn create_snake_arr_map() -> (r: Vec<Vec<u8>>)
    ensures
        r@.len() == 5,
        r@[0]@ == seq![O, O, O, X, O, O, O],
        r@[1]@ == seq![O, X, O, X, O, X, O],
        r@[2]@ == seq![O, X, O, X, O, X, O],
        r@[3]@ == seq![O, X, O, X, O, X, O],
        r@[4]@ == seq![O, X, O, O, O, X, O],
        forall|y: int| 0 <= y < 5 ==> (#[trigger] r@[y])@.len() == 7,
{
    let mut rows: Vec<Vec<u8>> = Vec::new();
    rows.push(row7(O, O, O, X, O, O, O));
    rows.push(row7(O, X, O, X, O, X, O));
    rows.push(row7(O, X, O, X, O, X, O));
    rows.push(row7(O, X, O, X, O, X, O));
    rows.push(row7(O, X, O, O, O, X, O));
    rows
}

} // verus!
