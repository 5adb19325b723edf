use vstd::prelude::*;

use crate::pixel::{grid_of, is_grid};

verus! {

/// The grid `g` (`width` x `height`) turned 90 degrees clockwise: the result is
/// `height` wide and `width` high, and its cell `(x, y)` is `g`'s cell
/// `(y, height - 1 - x)`.
pub open spec fn rotated90<T>(g: Seq<Seq<T>>, width: int, height: int) -> Seq<Seq<T>> {
    Seq::new(width as nat, |y: int| Seq::new(height as nat, |x: int| g[height - 1 - x][y]))
}

/// The grid `g` (`width` x `height`) turned 270 degrees clockwise: the result is
/// `height` wide and `width` high, and its cell `(x, y)` is `g`'s cell
/// `(width - 1 - y, x)`.
pub open spec fn rotated270<T>(g: Seq<Seq<T>>, width: int, height: int) -> Seq<Seq<T>> {
    Seq::new(width as nat, |y: int| Seq::new(height as nat, |x: int| g[x][width - 1 - y]))
}

/// Turns a grid of `width` x `height` cells 90 degrees clockwise.
pub fn rotate90<T: Copy>(rows: &Vec<Vec<T>>, width: usize, height: usize) -> (r: Vec<Vec<T>>)
    requires
        is_grid(grid_of(rows@), width as int, height as int),
    ensures
        grid_of(r@) == rotated90(grid_of(rows@), width as int, height as int),
{
    let mut out: Vec<Vec<T>> = Vec::new();
    let mut y: usize = 0;
    while y < width
        invariant
            is_grid(grid_of(rows@), width as int, height as int),
            y <= width,
            out@.len() == y,
            forall|k: int|
                0 <= k < y ==> (#[trigger] out@[k])@ == rotated90(
                    grid_of(rows@),
                    width as int,
                    height as int,
                )[k],
        decreases width - y,
    {
        let mut row: Vec<T> = Vec::new();
        let mut x: usize = 0;
        while x < height
            invariant
                is_grid(grid_of(rows@), width as int, height as int),
                y < width,
                x <= height,
                row@.len() == x,
                forall|k: int|
                    0 <= k < x ==> row@[k] == grid_of(rows@)[height - 1 - k][y as int],
            decreases height - x,
        {
            assert(grid_of(rows@)[height - 1 - x as int] == rows@[height - 1 - x as int]@);
            row.push(rows[height - 1 - x][y]);
            x = x + 1;
        }
        assert(row@ =~= rotated90(grid_of(rows@), width as int, height as int)[y as int]);
        out.push(row);
        y = y + 1;
    }
    assert(grid_of(out@) =~= rotated90(grid_of(rows@), width as int, height as int));
    out
}

/// Turns a grid of `width` x `height` cells 270 degrees clockwise.
pub fn rotate270<T: Copy>(rows: &Vec<Vec<T>>, width: usize, height: usize) -> (r: Vec<Vec<T>>)
    requires
        is_grid(grid_of(rows@), width as int, height as int),
    ensures
        grid_of(r@) == rotated270(grid_of(rows@), width as int, height as int),
{
    let mut out: Vec<Vec<T>> = Vec::new();
    let mut y: usize = 0;
    while y < width
        invariant
            is_grid(grid_of(rows@), width as int, height as int),
            y <= width,
            out@.len() == y,
            forall|k: int|
                0 <= k < y ==> (#[trigger] out@[k])@ == rotated270(
                    grid_of(rows@),
                    width as int,
                    height as int,
                )[k],
        decreases width - y,
    {
        let mut row: Vec<T> = Vec::new();
        let mut x: usize = 0;
        while x < height
            invariant
                is_grid(grid_of(rows@), width as int, height as int),
                y < width,
                x <= height,
                row@.len() == x,
                forall|k: int| 0 <= k < x ==> row@[k] == grid_of(rows@)[k][width - 1 - y],
            decreases height - x,
        {
            assert(grid_of(rows@)[x as int] == rows@[x as int]@);
            row.push(rows[x][width - 1 - y]);
            x = x + 1;
        }
        assert(row@ =~= rotated270(grid_of(rows@), width as int, height as int)[y as int]);
        out.push(row);
        y = y + 1;
    }
    assert(grid_of(out@) =~= rotated270(grid_of(rows@), width as int, height as int));
    out
}

/// A turned grid has the turned dimensions.
pub proof fn lemma_rotated_dimensions<T>(g: Seq<Seq<T>>, width: int, height: int)
    requires
        is_grid(g, width, height),
        0 <= width,
    ensures
        is_grid(rotated90(g, width, height), height, width),
        is_grid(rotated270(g, width, height), height, width),
{
}

/// Turning a `width` x `height` grid by 90 degrees and then by 270 degrees gives
/// back the grid, cell for cell; and so does the other order.
pub proof fn lemma_rotation_round_trip<T>(g: Seq<Seq<T>>, width: int, height: int)
    requires
        is_grid(g, width, height),
        0 <= width,
        0 <= height,
    ensures
        rotated270(rotated90(g, width, height), height, width) == g,
        rotated90(rotated270(g, width, height), height, width) == g,
{
    let a = rotated270(rotated90(g, width, height), height, width);
    assert forall|y: int| 0 <= y < height implies a[y] =~= g[y] by {}
    assert(a =~= g);
    let b = rotated90(rotated270(g, width, height), height, width);
    assert forall|y: int| 0 <= y < height implies b[y] =~= g[y] by {}
    assert(b =~= g);
}

} // verus!
