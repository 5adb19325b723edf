use vstd::prelude::*;

use crate::immediate::ContextRange;
use crate::pixel::{grid_of, is_grid, PixelBuffer, Rgba};

verus! {

/// The colour that a threshold preview gives to the pixels it would not sort:
/// opaque black.
pub fn pixel_black() -> (p: Rgba)
    ensures
        p == (Rgba { r: 0, g: 0, b: 0, a: 255 }),
{
    Rgba { r: 0, g: 0, b: 0, a: 255 }
}

/// A pixel of the preview: kept where its context lies in the selection range,
/// else the given colour.
pub open spec fn masked_pixel(pixel: Rgba, context: u32, selection: ContextRange, color: Rgba) -> Rgba {
    if selection.low <= context && context <= selection.high {
        pixel
    } else {
        color
    }
}

fn mask_out_non_targeted_pixels_in_row(
    row: &mut Vec<Rgba>,
    contexts: &Vec<u32>,
    selection: ContextRange,
    non_targeted_pixels_color: Rgba,
)
    requires
        contexts@.len() == old(row)@.len(),
    ensures
        final(row)@.len() == old(row)@.len(),
        forall|x: int|
            0 <= x < old(row)@.len() ==> #[trigger] final(row)@[x] == masked_pixel(
                old(row)@[x],
                contexts@[x],
                selection,
                non_targeted_pixels_color,
            ),
{
    let mut x: usize = 0;
    while x < row.len()
        invariant
            contexts@.len() == old(row)@.len(),
            row@.len() == old(row)@.len(),
            x <= row@.len(),
            forall|k: int|
                0 <= k < x ==> #[trigger] row@[k] == masked_pixel(
                    old(row)@[k],
                    contexts@[k],
                    selection,
                    non_targeted_pixels_color,
                ),
            forall|k: int| x <= k < row@.len() ==> #[trigger] row@[k] == old(row)@[k],
        decreases row@.len() - x,
    {
        let context = contexts[x];
        if !(selection.low <= context && context <= selection.high) {
            row.set(x, non_targeted_pixels_color);
        }
        x = x + 1;
    }
}

/// Threshold preview: every pixel whose context lies outside the selection range
/// is replaced by `non_targeted_pixels_color`; the others are kept. No segment is
/// formed and nothing is sorted.
pub fn mask_out_non_targeted_pixels(
    image: &mut PixelBuffer,
    contexts: &Vec<Vec<u32>>,
    selection: ContextRange,
    non_targeted_pixels_color: Rgba,
)
    requires
        old(image).wf(),
        is_grid(grid_of(contexts@), old(image).width as int, old(image).height as int),
    ensures
        final(image).wf(),
        final(image).width == old(image).width,
        final(image).height == old(image).height,
        forall|y: int, x: int|
            0 <= y < old(image).height && 0 <= x < old(image).width
                ==> #[trigger] final(image).pixels()[y][x] == masked_pixel(
                old(image).pixels()[y][x],
                grid_of(contexts@)[y][x],
                selection,
                non_targeted_pixels_color,
            ),
{
    let ghost original = old(image).pixels();
    let height = image.height;
    let width = image.width;
    let mut y: usize = 0;
    while y < height
        invariant
            height == image.height,
            width == image.width,
            height == old(image).height,
            width == old(image).width,
            original == old(image).pixels(),
            image.wf(),
            is_grid(original, width as int, height as int),
            is_grid(grid_of(contexts@), width as int, height as int),
            y <= height,
            forall|k: int| y <= k < height ==> #[trigger] image.pixels()[k] == original[k],
            forall|k: int, x: int|
                0 <= k < y && 0 <= x < width ==> #[trigger] image.pixels()[k][x] == masked_pixel(
                    original[k][x],
                    grid_of(contexts@)[k][x],
                    selection,
                    non_targeted_pixels_color,
                ),
        decreases height - y,
    {
        assert(grid_of(contexts@)[y as int] == contexts@[y as int]@);
        assert(image.pixels()[y as int] == image.rows@[y as int]@);
        let ghost before = image.rows@;
        mask_out_non_targeted_pixels_in_row(
            &mut image.rows[y],
            &contexts[y],
            selection,
            non_targeted_pixels_color,
        );
        proof {
            assert forall|k: int| 0 <= k < height && k != y implies #[trigger] image.pixels()[k]
                == grid_of(before)[k] by {
                assert(image.rows@[k] == before[k]);
            }
            assert(image.pixels()[y as int] == image.rows@[y as int]@);
        }
        y = y + 1;
    }
}

} // verus!
