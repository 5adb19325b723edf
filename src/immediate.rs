use vstd::prelude::*;

use crate::orientation::{
    lemma_rotated_dimensions, lemma_rotation_round_trip, rotate270, rotate90, rotated270,
    rotated90,
};
use crate::pixel::{grid_of, is_grid, PixelBuffer, Rgba};
use crate::prepared::{
    execute_prepared_pixel_sort_on_image_row, lemma_recorded_ranges, lemma_row_sort_unique,
    prepare_horizontal_generic_pixel_sort_for_image_row, recorded_segments, row_sorted_by_segments,
};
use crate::scanner::{members_in_range, range_members};
use crate::sorting::{ImageSortingDirection, PixelSegmentSortDirection};

verus! {

/// Selects the pixels whose context lies in the inclusive range `[low, high]`.
#[derive(Clone, Copy, Debug, PartialEq, Eq, Structural)]
pub struct ContextRange {
    pub low: u32,
    pub high: u32,
}

/// How the immediate engine sorts.
#[derive(Clone, Copy, Debug, PartialEq, Eq, Structural)]
pub struct PixelSortOptions {
    pub direction: ImageSortingDirection,
}

/// `new` is the scanline `old` after the immediate engine ran on it: the segments
/// that range membership over `contexts` yields are each sorted by those contexts.
pub open spec fn range_sorted_row(
    old: Seq<Rgba>,
    contexts: Seq<u32>,
    selection: ContextRange,
    direction: PixelSegmentSortDirection,
    new: Seq<Rgba>,
) -> bool {
    row_sorted_by_segments(
        old,
        recorded_segments(range_members(contexts, selection.low, selection.high), contexts),
        direction,
        new,
    )
}

/// Every row of `new` is the same row of `old` after the immediate engine.
pub open spec fn range_sorted_image(
    old: Seq<Seq<Rgba>>,
    contexts: Seq<Seq<u32>>,
    selection: ContextRange,
    direction: PixelSegmentSortDirection,
    new: Seq<Seq<Rgba>>,
) -> bool {
    &&& new.len() == old.len()
    &&& forall|y: int|
        0 <= y < old.len() ==> range_sorted_row(
            #[trigger] old[y],
            contexts[y],
            selection,
            direction,
            new[y],
        )
}

/// The immediate engine is a function of its input: two results for the same image,
/// contexts, selection and order are the same image. (For a vertical sort apply
/// this to the turned images; turning is undone by `lemma_rotation_round_trip`.)
pub proof fn lemma_range_sort_unique(
    old: Seq<Seq<Rgba>>,
    contexts: Seq<Seq<u32>>,
    selection: ContextRange,
    direction: PixelSegmentSortDirection,
    new1: Seq<Seq<Rgba>>,
    new2: Seq<Seq<Rgba>>,
)
    requires
        contexts.len() == old.len(),
        forall|y: int| 0 <= y < old.len() ==> (#[trigger] contexts[y]).len() == old[y].len(),
        range_sorted_image(old, contexts, selection, direction, new1),
        range_sorted_image(old, contexts, selection, direction, new2),
    ensures
        new1 == new2,
{
    assert forall|y: int| 0 <= y < old.len() implies new1[y] == new2[y] by {
        let members = range_members(contexts[y], selection.low, selection.high);
        lemma_recorded_ranges(members, contexts[y]);
        lemma_row_sort_unique(
            old[y],
            recorded_segments(members, contexts[y]),
            direction,
            new1[y],
            new2[y],
        );
    }
    assert(new1 =~= new2);
}

/// A vertical sort is the horizontal sort of the image turned 90 degrees, turned
/// back: if `vertical` is a vertical result and `horizontal` a horizontal result on
/// the turned image and contexts, then `vertical` is `horizontal` turned by 270
/// degrees.
pub proof fn lemma_vertical_is_turned_horizontal(
    old: Seq<Seq<Rgba>>,
    contexts: Seq<Seq<u32>>,
    width: int,
    height: int,
    selection: ContextRange,
    direction: PixelSegmentSortDirection,
    vertical: Seq<Seq<Rgba>>,
    horizontal: Seq<Seq<Rgba>>,
)
    requires
        0 <= width,
        0 <= height,
        is_grid(old, width, height),
        is_grid(contexts, width, height),
        is_grid(vertical, width, height),
        range_sorted_image(
            rotated90(old, width, height),
            rotated90(contexts, width, height),
            selection,
            direction,
            rotated90(vertical, width, height),
        ),
        range_sorted_image(
            rotated90(old, width, height),
            rotated90(contexts, width, height),
            selection,
            direction,
            horizontal,
        ),
    ensures
        vertical == rotated270(horizontal, height, width),
{
    lemma_rotated_dimensions(old, width, height);
    lemma_rotated_dimensions(contexts, width, height);
    lemma_range_sort_unique(
        rotated90(old, width, height),
        rotated90(contexts, width, height),
        selection,
        direction,
        rotated90(vertical, width, height),
        horizontal,
    );
    lemma_rotation_round_trip(vertical, width, height);
}

/// Sorts one scanline in place: the pixels whose context lies in the selection
/// range form segments (each closed by the first pixel outside it), and each
/// segment is sorted by context.
pub fn perform_generic_pixel_sort_on_image_row(
    row: &mut Vec<Rgba>,
    contexts: &Vec<u32>,
    selection: ContextRange,
    direction: PixelSegmentSortDirection,
)
    requires
        contexts@.len() == old(row)@.len(),
    ensures
        range_sorted_row(old(row)@, contexts@, selection, direction, final(row)@),
{
    let members = members_in_range(contexts, selection.low, selection.high);
    let prepared = prepare_horizontal_generic_pixel_sort_for_image_row(&members, contexts);
    execute_prepared_pixel_sort_on_image_row(row, direction, &prepared);
}

/// Sorts every row of a grid in place, as [`perform_generic_pixel_sort_on_image_row`] does.
fn sort_rows_in_range(
    rows: &mut Vec<Vec<Rgba>>,
    contexts: &Vec<Vec<u32>>,
    width: usize,
    height: usize,
    selection: ContextRange,
    direction: PixelSegmentSortDirection,
)
    requires
        is_grid(grid_of(old(rows)@), width as int, height as int),
        is_grid(grid_of(contexts@), width as int, height as int),
    ensures
        is_grid(grid_of(final(rows)@), width as int, height as int),
        range_sorted_image(
            grid_of(old(rows)@),
            grid_of(contexts@),
            selection,
            direction,
            grid_of(final(rows)@),
        ),
{
    let ghost original = grid_of(rows@);
    let mut y: usize = 0;
    while y < height
        invariant
            original == grid_of(old(rows)@),
            is_grid(original, width as int, height as int),
            is_grid(grid_of(rows@), width as int, height as int),
            is_grid(grid_of(contexts@), width as int, height as int),
            y <= height,
            forall|k: int| y <= k < height ==> #[trigger] grid_of(rows@)[k] == original[k],
            forall|k: int|
                0 <= k < y ==> range_sorted_row(
                    #[trigger] original[k],
                    grid_of(contexts@)[k],
                    selection,
                    direction,
                    grid_of(rows@)[k],
                ),
        decreases height - y,
    {
        assert(grid_of(contexts@)[y as int] == contexts@[y as int]@);
        assert(grid_of(rows@)[y as int] == rows@[y as int]@);
        let ghost before = rows@;
        perform_generic_pixel_sort_on_image_row(&mut rows[y], &contexts[y], selection, direction);
        proof {
            assert forall|k: int| 0 <= k < height && k != y implies #[trigger] grid_of(rows@)[k]
                == grid_of(before)[k] by {
                assert(rows@[k] == before[k]);
            }
            assert(grid_of(rows@)[y as int] == rows@[y as int]@);
        }
        y = y + 1;
    }
}

/// Sorts an image along the chosen axis. Each scanline (a row; for a vertical
/// sort a column, read from the bottom up) is split into segments of pixels whose
/// context lies in the selection range, each segment closed by the first pixel
/// outside it, and each segment is sorted by context in the chosen order.
/// `contexts` holds one context per pixel, laid out as the image.
pub fn perform_pixel_sort(
    image: PixelBuffer,
    contexts: &Vec<Vec<u32>>,
    selection: ContextRange,
    options: PixelSortOptions,
) -> (r: PixelBuffer)
    requires
        image.wf(),
        is_grid(grid_of(contexts@), image.width as int, image.height as int),
    ensures
        r.wf(),
        r.width == image.width,
        r.height == image.height,
        match options.direction {
            ImageSortingDirection::Horizontal(d) => range_sorted_image(
                image.pixels(),
                grid_of(contexts@),
                selection,
                d,
                r.pixels(),
            ),
            ImageSortingDirection::Vertical(d) => range_sorted_image(
                rotated90(image.pixels(), image.width as int, image.height as int),
                rotated90(grid_of(contexts@), image.width as int, image.height as int),
                selection,
                d,
                rotated90(r.pixels(), image.width as int, image.height as int),
            ),
        },
{
    let width = image.width;
    let height = image.height;
    match options.direction {
        ImageSortingDirection::Horizontal(d) => {
            let mut rows = image.rows;
            sort_rows_in_range(&mut rows, contexts, width, height, selection, d);
            PixelBuffer { width, height, rows }
        },
        ImageSortingDirection::Vertical(d) => {
            proof {
                lemma_rotated_dimensions(image.pixels(), width as int, height as int);
                lemma_rotated_dimensions(grid_of(contexts@), width as int, height as int);
            }
            let mut rotated = rotate90(&image.rows, width, height);
            let rotated_contexts = rotate90(contexts, width, height);
            sort_rows_in_range(&mut rotated, &rotated_contexts, height, width, selection, d);
            let rows = rotate270(&rotated, height, width);
            proof {
                lemma_rotated_dimensions(grid_of(rotated@), height as int, width as int);
                lemma_rotation_round_trip(grid_of(rotated@), height as int, width as int);
            }
            PixelBuffer { width, height, rows }
        },
    }
}

} // verus!
