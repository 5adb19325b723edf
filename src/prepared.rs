use vstd::prelude::*;

use crate::orientation::{
    lemma_rotated_dimensions, lemma_rotation_round_trip, rotate270, rotate90, rotated90,
};
use crate::pixel::{grid_of, is_grid, PixelBuffer, PixelWithContext, Rgba};
use crate::scanner::{
    covered, edge_members, find_segments, lemma_no_members_no_segments,
    lemma_scan_segments_well_formed, members_in_range, members_on_edges, range_members,
    scan_segments, segments_well_formed, spans_view, SegmentSpan,
};
use crate::sorting::{
    is_sorted_arrangement, lemma_sorted_arrangement_keeps_pixels, lemma_sorted_arrangement_unique,
    pixels_of,
    sort_with_numeric_context_and_reapply_pixel_segment, zip_contexts, ImageSortingDirection,
    PixelSegmentSortDirection,
};

verus! {

/// One recorded segment of a scanline: it begins at `start_column_index` and holds
/// one precomputed sort key per pixel.
#[derive(Clone, Debug)]
pub struct PreparedPixelSortSegment {
    pub start_column_index: usize,
    pub pixel_sorting_contexts: Vec<u32>,
}

/// The recorded segments of one scanline, in order.
#[derive(Clone, Debug)]
pub struct PreparedPixelSortRow {
    pub sorting_contexts_for_row: Vec<PreparedPixelSortSegment>,
}

/// A recorded segment as `(start, sort keys)`.
pub open spec fn segment_view(s: PreparedPixelSortSegment) -> (int, Seq<u32>) {
    (s.start_column_index as int, s.pixel_sorting_contexts@)
}

/// Recorded segments as `(start, sort keys)`.
pub open spec fn segments_view(s: Seq<PreparedPixelSortSegment>) -> Seq<(int, Seq<u32>)> {
    s.map_values(|s: PreparedPixelSortSegment| segment_view(s))
}

/// The recorded segments of a scanline as `(start, sort keys)`.
pub open spec fn row_view(r: PreparedPixelSortRow) -> Seq<(int, Seq<u32>)> {
    segments_view(r.sorting_contexts_for_row@)
}

/// The position ranges `(start, len)` of recorded segments.
pub open spec fn segment_ranges(segments: Seq<(int, Seq<u32>)>) -> Seq<(int, int)> {
    segments.map_values(|s: (int, Seq<u32>)| (s.0, s.1.len() as int))
}

/// The segments that the scanner finds under `members`, each with the sort keys of
/// its positions.
pub open spec fn recorded_segments(members: Seq<bool>, sorting_contexts: Seq<u32>) -> Seq<
    (int, Seq<u32>),
> {
    scan_segments(members).map_values(
        |p: (int, int)| (p.0, sorting_contexts.subrange(p.0, p.0 + p.1)),
    )
}

/// `new` is the scanline `old` with every segment sorted: positions outside the
/// segments keep their pixel, and each segment's range holds its pixels (paired
/// with the segment's sort keys) sorted in the given order.
pub open spec fn row_sorted_by_segments(
    old: Seq<Rgba>,
    segments: Seq<(int, Seq<u32>)>,
    direction: PixelSegmentSortDirection,
    new: Seq<Rgba>,
) -> bool {
    &&& new.len() == old.len()
    &&& forall|j: int|
        0 <= j < old.len() && !covered(segment_ranges(segments), j) ==> #[trigger] new[j] == old[j]
    &&& forall|k: int|
        0 <= k < segments.len() ==> is_sorted_arrangement(
            zip_contexts(
                old.subrange((#[trigger] segments[k]).0, segments[k].0 + segments[k].1.len()),
                segments[k].1,
            ),
            direction,
            new.subrange(segments[k].0, segments[k].0 + segments[k].1.len()),
        )
}

/// A scanline in which no pixel is a member comes out unchanged.
pub proof fn lemma_unmatched_scanline_unchanged(
    old: Seq<Rgba>,
    members: Seq<bool>,
    sorting_contexts: Seq<u32>,
    direction: PixelSegmentSortDirection,
    new: Seq<Rgba>,
)
    requires
        members.len() == old.len(),
        forall|i: int| 0 <= i < members.len() ==> !members[i],
        row_sorted_by_segments(old, recorded_segments(members, sorting_contexts), direction, new),
    ensures
        new == old,
{
    lemma_no_members_no_segments(members);
    let ranges = segment_ranges(recorded_segments(members, sorting_contexts));
    assert forall|j: int| 0 <= j < old.len() implies new[j] == old[j] by {
        assert(!covered(ranges, j));
    }
    assert(new =~= old);
}

/// Sorting keeps each segment's pixels: the range of every segment holds the same
/// pixels after as before, each as often, so no pixel is created, dropped or
/// duplicated.
pub proof fn lemma_segment_pixels_preserved(
    old: Seq<Rgba>,
    segments: Seq<(int, Seq<u32>)>,
    direction: PixelSegmentSortDirection,
    new: Seq<Rgba>,
    k: int,
)
    requires
        segments_well_formed(segment_ranges(segments), old.len() as int),
        row_sorted_by_segments(old, segments, direction, new),
        0 <= k < segments.len(),
    ensures
        new.subrange(segments[k].0, segments[k].0 + segments[k].1.len()).to_multiset()
            == old.subrange(segments[k].0, segments[k].0 + segments[k].1.len()).to_multiset(),
{
    let ranges = segment_ranges(segments);
    assert(ranges[k] == (segments[k].0, segments[k].1.len() as int));
    let s = segments[k].0;
    let e = segments[k].0 + segments[k].1.len();
    let pairs = zip_contexts(old.subrange(s, e), segments[k].1);
    lemma_sorted_arrangement_keeps_pixels(pairs, direction, new.subrange(s, e));
    assert(pixels_of(pairs) =~= old.subrange(s, e));
}

/// Sorting a scanline's segments is a function of the scanline and the segments:
/// two results are the same, pixel for pixel.
pub proof fn lemma_row_sort_unique(
    old: Seq<Rgba>,
    segments: Seq<(int, Seq<u32>)>,
    direction: PixelSegmentSortDirection,
    new1: Seq<Rgba>,
    new2: Seq<Rgba>,
)
    requires
        segments_well_formed(segment_ranges(segments), old.len() as int),
        row_sorted_by_segments(old, segments, direction, new1),
        row_sorted_by_segments(old, segments, direction, new2),
    ensures
        new1 == new2,
{
    let ranges = segment_ranges(segments);
    assert forall|j: int| 0 <= j < old.len() implies new1[j] == new2[j] by {
        if covered(ranges, j) {
            let k = choose|k: int|
                0 <= k < ranges.len() && #[trigger] ranges[k].0 <= j < ranges[k].0 + ranges[k].1;
            assert(ranges[k] == (segments[k].0, segments[k].1.len() as int));
            let s = segments[k].0;
            let e = segments[k].0 + segments[k].1.len();
            lemma_sorted_arrangement_unique(
                zip_contexts(old.subrange(s, e), segments[k].1),
                direction,
                new1.subrange(s, e),
                new2.subrange(s, e),
            );
            assert(new1[j] == new1.subrange(s, e)[j - s]);
            assert(new2[j] == new2.subrange(s, e)[j - s]);
        }
    }
    assert(new1 =~= new2);
}

/// The ranges of the recorded segments are the scanner's segments.
pub proof fn lemma_recorded_ranges(members: Seq<bool>, sorting_contexts: Seq<u32>)
    requires
        members.len() == sorting_contexts.len(),
    ensures
        segment_ranges(recorded_segments(members, sorting_contexts)) == scan_segments(members),
        segments_well_formed(
            segment_ranges(recorded_segments(members, sorting_contexts)),
            members.len() as int,
        ),
{
    lemma_scan_segments_well_formed(members);
    assert(segment_ranges(recorded_segments(members, sorting_contexts)) =~= scan_segments(members));
}

/// Records the segments of one scanline: the scanner runs over `members`, and each
/// segment keeps the sort keys of its positions. No pixel is touched.
pub fn prepare_horizontal_generic_pixel_sort_for_image_row(
    members: &Vec<bool>,
    sorting_contexts: &Vec<u32>,
) -> (r: PreparedPixelSortRow)
    requires
        members@.len() == sorting_contexts@.len(),
    ensures
        row_view(r) == recorded_segments(members@, sorting_contexts@),
        segments_well_formed(segment_ranges(row_view(r)), members@.len() as int),
{
    let spans = find_segments(members);
    proof {
        lemma_scan_segments_well_formed(members@);
    }
    let ghost expected = recorded_segments(members@, sorting_contexts@);
    let total = sorting_contexts.len();
    let mut segments: Vec<PreparedPixelSortSegment> = Vec::new();
    let mut k: usize = 0;
    while k < spans.len()
        invariant
            members@.len() == sorting_contexts@.len(),
            spans_view(spans@) == scan_segments(members@),
            segments_well_formed(scan_segments(members@), members@.len() as int),
            expected == recorded_segments(members@, sorting_contexts@),
            total == sorting_contexts@.len(),
            k <= spans@.len(),
            segments@.len() == k,
            forall|m: int| 0 <= m < k ==> segment_view(#[trigger] segments@[m]) == expected[m],
        decreases spans@.len() - k,
    {
        let span: SegmentSpan = spans[k];
        assert(spans_view(spans@)[k as int] == (span.start as int, span.len as int));
        let mut contexts: Vec<u32> = Vec::new();
        let mut t: usize = 0;
        while t < span.len
            invariant
                members@.len() == sorting_contexts@.len(),
                total == sorting_contexts@.len(),
                span.start + span.len <= sorting_contexts@.len(),
                t <= span.len,
                contexts@.len() == t,
                forall|u: int| 0 <= u < t ==> contexts@[u] == sorting_contexts@[span.start + u],
            decreases span.len - t,
        {
            contexts.push(sorting_contexts[span.start + t]);
            t = t + 1;
        }
        assert(contexts@ =~= sorting_contexts@.subrange(
            span.start as int,
            span.start + span.len,
        ));
        segments.push(
            PreparedPixelSortSegment { start_column_index: span.start, pixel_sorting_contexts: contexts },
        );
        k = k + 1;
    }
    let r = PreparedPixelSortRow { sorting_contexts_for_row: segments };
    assert(row_view(r) =~= expected);
    assert(segment_ranges(row_view(r)) =~= scan_segments(members@));
    r
}

/// Sorts every recorded segment of one scanline in place: the pixels now in a
/// segment's range are paired with its recorded sort keys, sorted, and written back.
pub fn execute_prepared_pixel_sort_on_image_row(
    row: &mut Vec<Rgba>,
    sorting_direction: PixelSegmentSortDirection,
    prepared_row: &PreparedPixelSortRow,
)
    requires
        segments_well_formed(segment_ranges(row_view(*prepared_row)), old(row)@.len() as int),
    ensures
        row_sorted_by_segments(old(row)@, row_view(*prepared_row), sorting_direction, final(row)@),
{
    let ghost original = row@;
    let ghost segments = row_view(*prepared_row);
    let ghost ranges = segment_ranges(segments);
    let n = prepared_row.sorting_contexts_for_row.len();
    let row_len = row.len();
    let mut k: usize = 0;
    while k < n
        invariant
            n == segments.len(),
            segments == row_view(*prepared_row),
            ranges == segment_ranges(segments),
            segments_well_formed(ranges, original.len() as int),
            k <= n,
            row@.len() == original.len(),
            row_len == original.len(),
            forall|j: int|
                0 <= j < original.len() && !covered(ranges.take(k as int), j) ==> #[trigger] row@[j]
                    == original[j],
            forall|m: int|
                0 <= m < k ==> is_sorted_arrangement(
                    zip_contexts(
                        original.subrange(
                            (#[trigger] segments[m]).0,
                            segments[m].0 + segments[m].1.len(),
                        ),
                        segments[m].1,
                    ),
                    sorting_direction,
                    row@.subrange(segments[m].0, segments[m].0 + segments[m].1.len()),
                ),
        decreases n - k,
    {
        let segment = &prepared_row.sorting_contexts_for_row[k as usize];
        let start = segment.start_column_index;
        let contexts = &segment.pixel_sorting_contexts;
        assert(segments[k as int] == (start as int, contexts@));
        assert(ranges[k as int] == (start as int, contexts@.len() as int));
        let len = contexts.len();
        // The range of this segment is still untouched.
        assert forall|j: int| start <= j < start + len implies row@[j] == original[j] by {
            if covered(ranges.take(k as int), j) {
                let m = choose|m: int|
                    0 <= m < ranges.take(k as int).len() && #[trigger] ranges.take(k as int)[m].0
                        <= j < ranges.take(k as int)[m].0 + ranges.take(k as int)[m].1;
                assert(ranges[m].0 + ranges[m].1 <= ranges[k as int].0);
            }
        }
        let mut pairs: Vec<PixelWithContext> = Vec::new();
        let mut t: usize = 0;
        while t < len
            invariant
                len == contexts@.len(),
                row_len == row@.len(),
                start + len <= row@.len(),
                t <= len,
                pairs@.len() == t,
                forall|u: int|
                    0 <= u < t ==> pairs@[u] == (PixelWithContext {
                        pixel: row@[start + u],
                        context: contexts@[u],
                    }),
            decreases len - t,
        {
            pairs.push(PixelWithContext { pixel: row[start + t], context: contexts[t] });
            t = t + 1;
        }
        assert(pairs@ =~= zip_contexts(original.subrange(start as int, start + len), contexts@));
        let ghost before = row@;
        sort_with_numeric_context_and_reapply_pixel_segment(&pairs, sorting_direction, row, start);
        proof {
            assert forall|m: int| 0 <= m < k + 1 implies is_sorted_arrangement(
                zip_contexts(
                    original.subrange(
                        (#[trigger] segments[m]).0,
                        segments[m].0 + segments[m].1.len(),
                    ),
                    segments[m].1,
                ),
                sorting_direction,
                row@.subrange(segments[m].0, segments[m].0 + segments[m].1.len()),
            ) by {
                if m < k {
                    assert(ranges[m] == (segments[m].0, segments[m].1.len() as int));
                    assert(ranges[m].0 + ranges[m].1 <= ranges[k as int].0);
                    assert(row@.subrange(segments[m].0, segments[m].0 + segments[m].1.len())
                        =~= before.subrange(segments[m].0, segments[m].0 + segments[m].1.len()));
                }
            }
            assert forall|j: int|
                0 <= j < original.len() && !covered(ranges.take(k + 1), j) implies #[trigger] row@[j]
                == original[j] by {
                assert(ranges.take(k + 1)[k as int] == ranges[k as int]);
                if covered(ranges.take(k as int), j) {
                    let m = choose|m: int|
                        0 <= m < ranges.take(k as int).len() && #[trigger] ranges.take(
                            k as int,
                        )[m].0 <= j < ranges.take(k as int)[m].0 + ranges.take(k as int)[m].1;
                    assert(ranges.take(k + 1)[m] == ranges.take(k as int)[m]);
                }
            }
        }
        k = k + 1;
    }
    assert(ranges.take(n as int) =~= ranges);
}


/// The image held by a prepared sort, in the orientation in which it is scanned.
pub enum PreparedPixelSortImage {
    /// Rows are scanned; `image` is the image itself.
    PreparedHorizontal { image: PixelBuffer, direction: PixelSegmentSortDirection },
    /// Columns are scanned; `rotated_image` is the image turned 90 degrees clockwise,
    /// to be turned back by 270 degrees once sorted.
    PreparedVertical { rotated_image: PixelBuffer, direction: PixelSegmentSortDirection },
}

impl PreparedPixelSortImage {
    /// The buffer whose rows are the scanlines.
    pub open spec fn scanned(&self) -> PixelBuffer {
        match self {
            PreparedPixelSortImage::PreparedHorizontal { image, .. } => *image,
            PreparedPixelSortImage::PreparedVertical { rotated_image, .. } => *rotated_image,
        }
    }

    /// The order in which segments are sorted.
    pub open spec fn sort_direction(&self) -> PixelSegmentSortDirection {
        match self {
            PreparedPixelSortImage::PreparedHorizontal { direction, .. } => *direction,
            PreparedPixelSortImage::PreparedVertical { direction, .. } => *direction,
        }
    }

    pub open spec fn is_vertical(&self) -> bool {
        self is PreparedVertical
    }

    /// The width of the image in its own orientation.
    pub fn width(&self) -> (r: usize)
        ensures
            r == if self.is_vertical() {
                self.scanned().height
            } else {
                self.scanned().width
            },
    {
        match self {
            PreparedPixelSortImage::PreparedHorizontal { image, .. } => image.width,
            PreparedPixelSortImage::PreparedVertical { rotated_image, .. } => rotated_image.height,
        }
    }

    /// The height of the image in its own orientation.
    pub fn height(&self) -> (r: usize)
        ensures
            r == if self.is_vertical() {
                self.scanned().width
            } else {
                self.scanned().height
            },
    {
        match self {
            PreparedPixelSortImage::PreparedHorizontal { image, .. } => image.height,
            PreparedPixelSortImage::PreparedVertical { rotated_image, .. } => rotated_image.width,
        }
    }
}

/// A sort whose segments have been found and recorded, with their sort keys, but
/// not yet applied.
pub struct PreparedPixelSort {
    pub image: PreparedPixelSortImage,
    /// The recorded segments of each scanline, in scan order.
    pub prepared_row_data: Vec<PreparedPixelSortRow>,
}

impl PreparedPixelSort {
    /// One well-formed row of segments per scanline of a well-formed buffer.
    pub open spec fn wf(&self) -> bool {
        let scanned = self.image.scanned();
        &&& scanned.wf()
        &&& self.prepared_row_data@.len() == scanned.height
        &&& forall|y: int|
            0 <= y < scanned.height ==> segments_well_formed(
                segment_ranges(row_view(#[trigger] self.prepared_row_data@[y])),
                scanned.width as int,
            )
    }

    /// The recorded segments of every scanline.
    pub open spec fn rows_view(&self) -> Seq<Seq<(int, Seq<u32>)>> {
        self.prepared_row_data@.map_values(|r: PreparedPixelSortRow| row_view(r))
    }
}

/// How a prepared sort picks its segments.
pub enum PreparedSegmentSelection {
    /// Members are the pixels whose context, one per pixel laid out as the image,
    /// lies in `[low, high]`.
    ContextRange { contexts: Vec<Vec<u32>>, low: u32, high: u32 },
    /// Members are the edge pixels (255) of a binary edge mask laid out as the
    /// image; with `segment_starts_on_image_edge` the first pixel of each scanline is
    /// a member too.
    EdgeMask { mask: Vec<Vec<u8>>, segment_starts_on_image_edge: bool },
}

/// The grid as scanned: turned 90 degrees clockwise for a vertical sort.
pub open spec fn oriented<T>(g: Seq<Seq<T>>, vertical: bool, width: int, height: int) -> Seq<
    Seq<T>,
> {
    if vertical {
        rotated90(g, width, height)
    } else {
        g
    }
}

/// The selection's grid has the image's dimensions.
pub open spec fn selection_fits(selection: PreparedSegmentSelection, width: int, height: int) -> bool {
    match selection {
        PreparedSegmentSelection::ContextRange { contexts, .. } => is_grid(
            grid_of(contexts@),
            width,
            height,
        ),
        PreparedSegmentSelection::EdgeMask { mask, .. } => is_grid(grid_of(mask@), width, height),
    }
}

/// The membership of every scanline under the selection.
pub open spec fn selection_members(
    selection: PreparedSegmentSelection,
    vertical: bool,
    width: int,
    height: int,
) -> Seq<Seq<bool>> {
    match selection {
        PreparedSegmentSelection::ContextRange { contexts, low, high } => oriented(
            grid_of(contexts@),
            vertical,
            width,
            height,
        ).map_values(|row: Seq<u32>| range_members(row, low, high)),
        PreparedSegmentSelection::EdgeMask { mask, segment_starts_on_image_edge } => oriented(
            grid_of(mask@),
            vertical,
            width,
            height,
        ).map_values(|row: Seq<u8>| edge_members(row, segment_starts_on_image_edge)),
    }
}

fn range_member_rows(contexts: &Vec<Vec<u32>>, low: u32, high: u32) -> (r: Vec<Vec<bool>>)
    ensures
        grid_of(r@) == grid_of(contexts@).map_values(|row: Seq<u32>| range_members(row, low, high)),
{
    let mut out: Vec<Vec<bool>> = Vec::new();
    let mut y: usize = 0;
    while y < contexts.len()
        invariant
            y <= contexts@.len(),
            out@.len() == y,
            forall|k: int|
                0 <= k < y ==> (#[trigger] out@[k])@ == range_members(contexts@[k]@, low, high),
        decreases contexts@.len() - y,
    {
        out.push(members_in_range(&contexts[y], low, high));
        y = y + 1;
    }
    assert(grid_of(out@) =~= grid_of(contexts@).map_values(
        |row: Seq<u32>| range_members(row, low, high),
    ));
    out
}

fn edge_member_rows(mask: &Vec<Vec<u8>>, segment_starts_on_image_edge: bool) -> (r: Vec<Vec<bool>>)
    ensures
        grid_of(r@) == grid_of(mask@).map_values(
            |row: Seq<u8>| edge_members(row, segment_starts_on_image_edge),
        ),
{
    let mut out: Vec<Vec<bool>> = Vec::new();
    let mut y: usize = 0;
    while y < mask.len()
        invariant
            y <= mask@.len(),
            out@.len() == y,
            forall|k: int|
                0 <= k < y ==> (#[trigger] out@[k])@ == edge_members(
                    mask@[k]@,
                    segment_starts_on_image_edge,
                ),
        decreases mask@.len() - y,
    {
        out.push(members_on_edges(&mask[y], segment_starts_on_image_edge));
        y = y + 1;
    }
    assert(grid_of(out@) =~= grid_of(mask@).map_values(
        |row: Seq<u8>| edge_members(row, segment_starts_on_image_edge),
    ));
    out
}

/// The membership grid of a selection, in scan orientation.
fn member_rows(
    selection: &PreparedSegmentSelection,
    vertical: bool,
    width: usize,
    height: usize,
) -> (r: Vec<Vec<bool>>)
    requires
        selection_fits(*selection, width as int, height as int),
    ensures
        grid_of(r@) == selection_members(*selection, vertical, width as int, height as int),
{
    match selection {
        PreparedSegmentSelection::ContextRange { contexts, low, high } => {
            if vertical {
                let rotated = rotate90(contexts, width, height);
                range_member_rows(&rotated, *low, *high)
            } else {
                range_member_rows(contexts, *low, *high)
            }
        },
        PreparedSegmentSelection::EdgeMask { mask, segment_starts_on_image_edge } => {
            if vertical {
                let rotated = rotate90(mask, width, height);
                edge_member_rows(&rotated, *segment_starts_on_image_edge)
            } else {
                edge_member_rows(mask, *segment_starts_on_image_edge)
            }
        },
    }
}

/// Records the segments of every scanline of a grid.
fn prepare_rows(
    members: &Vec<Vec<bool>>,
    sorting_contexts: &Vec<Vec<u32>>,
    width: usize,
    height: usize,
) -> (r: Vec<PreparedPixelSortRow>)
    requires
        is_grid(grid_of(members@), width as int, height as int),
        is_grid(grid_of(sorting_contexts@), width as int, height as int),
    ensures
        r@.len() == height,
        forall|y: int|
            0 <= y < height ==> row_view(#[trigger] r@[y]) == recorded_segments(
                grid_of(members@)[y],
                grid_of(sorting_contexts@)[y],
            ),
        forall|y: int|
            0 <= y < height ==> segments_well_formed(
                segment_ranges(row_view(#[trigger] r@[y])),
                width as int,
            ),
{
    let mut out: Vec<PreparedPixelSortRow> = Vec::new();
    let mut y: usize = 0;
    while y < height
        invariant
            is_grid(grid_of(members@), width as int, height as int),
            is_grid(grid_of(sorting_contexts@), width as int, height as int),
            y <= height,
            out@.len() == y,
            forall|k: int|
                0 <= k < y ==> row_view(#[trigger] out@[k]) == recorded_segments(
                    grid_of(members@)[k],
                    grid_of(sorting_contexts@)[k],
                ),
            forall|k: int|
                0 <= k < y ==> segments_well_formed(
                    segment_ranges(row_view(#[trigger] out@[k])),
                    width as int,
                ),
        decreases height - y,
    {
        assert(grid_of(members@)[y as int] == members@[y as int]@);
        assert(grid_of(sorting_contexts@)[y as int] == sorting_contexts@[y as int]@);
        let row = prepare_horizontal_generic_pixel_sort_for_image_row(
            &members[y],
            &sorting_contexts[y],
        );
        out.push(row);
        y = y + 1;
    }
    out
}

/// Prepares a sort without touching a pixel: every scanline (a row; for a vertical
/// sort a column, read from the bottom up) is scanned, and each segment found is
/// recorded with the sort keys of its pixels, taken from `sorting_contexts` (one
/// per pixel, laid out as the image).
pub fn prepare_pixel_sort(
    image: PixelBuffer,
    selection: &PreparedSegmentSelection,
    sorting_contexts: &Vec<Vec<u32>>,
    direction: ImageSortingDirection,
) -> (r: PreparedPixelSort)
    requires
        image.wf(),
        selection_fits(*selection, image.width as int, image.height as int),
        is_grid(grid_of(sorting_contexts@), image.width as int, image.height as int),
    ensures
        r.wf(),
        r.image.is_vertical() == (direction is Vertical),
        r.image.sort_direction() == match direction {
            ImageSortingDirection::Horizontal(d) => d,
            ImageSortingDirection::Vertical(d) => d,
        },
        r.image.scanned().pixels() == oriented(
            image.pixels(),
            direction is Vertical,
            image.width as int,
            image.height as int,
        ),
        r.image.scanned().width == if direction is Vertical {
            image.height
        } else {
            image.width
        },
        r.image.scanned().height == if direction is Vertical {
            image.width
        } else {
            image.height
        },
        forall|y: int|
            0 <= y < r.image.scanned().height ==> #[trigger] r.rows_view()[y] == recorded_segments(
                selection_members(
                    *selection,
                    direction is Vertical,
                    image.width as int,
                    image.height as int,
                )[y],
                oriented(
                    grid_of(sorting_contexts@),
                    direction is Vertical,
                    image.width as int,
                    image.height as int,
                )[y],
            ),
{
    let width = image.width;
    let height = image.height;
    match direction {
        ImageSortingDirection::Horizontal(d) => {
            let members = member_rows(selection, false, width, height);
            proof {
                assert(is_grid(grid_of(members@), width as int, height as int));
            }
            let rows = prepare_rows(&members, sorting_contexts, width, height);
            let r = PreparedPixelSort {
                image: PreparedPixelSortImage::PreparedHorizontal { image, direction: d },
                prepared_row_data: rows,
            };
            assert forall|y: int| 0 <= y < height implies #[trigger] r.rows_view()[y]
                == row_view(rows@[y]) by {}
            r
        },
        ImageSortingDirection::Vertical(d) => {
            proof {
                lemma_rotated_dimensions(image.pixels(), width as int, height as int);
                lemma_rotated_dimensions(grid_of(sorting_contexts@), width as int, height as int);
            }
            let members = member_rows(selection, true, width, height);
            proof {
                match selection {
                    PreparedSegmentSelection::ContextRange { contexts, .. } => {
                        lemma_rotated_dimensions(grid_of(contexts@), width as int, height as int);
                    },
                    PreparedSegmentSelection::EdgeMask { mask, .. } => {
                        lemma_rotated_dimensions(grid_of(mask@), width as int, height as int);
                    },
                }
                assert(is_grid(grid_of(members@), height as int, width as int));
            }
            let rotated_contexts = rotate90(sorting_contexts, width, height);
            let rows = prepare_rows(&members, &rotated_contexts, height, width);
            let rotated_rows = rotate90(&image.rows, width, height);
            let rotated_image = PixelBuffer { width: height, height: width, rows: rotated_rows };
            let r = PreparedPixelSort {
                image: PreparedPixelSortImage::PreparedVertical { rotated_image, direction: d },
                prepared_row_data: rows,
            };
            assert forall|y: int| 0 <= y < width implies #[trigger] r.rows_view()[y] == row_view(
                rows@[y],
            ) by {}
            r
        },
    }
}

/// Every scanline of `new` is that of `old` with its recorded segments sorted.
pub open spec fn rows_sorted_by_segments(
    old: Seq<Seq<Rgba>>,
    rows: Seq<Seq<(int, Seq<u32>)>>,
    direction: PixelSegmentSortDirection,
    new: Seq<Seq<Rgba>>,
) -> bool {
    &&& new.len() == old.len()
    &&& forall|y: int|
        0 <= y < old.len() ==> row_sorted_by_segments(#[trigger] old[y], rows[y], direction, new[y])
}

/// Applying recorded segments is a function of the scanlines and the segments.
pub proof fn lemma_rows_sort_unique(
    old: Seq<Seq<Rgba>>,
    rows: Seq<Seq<(int, Seq<u32>)>>,
    direction: PixelSegmentSortDirection,
    new1: Seq<Seq<Rgba>>,
    new2: Seq<Seq<Rgba>>,
)
    requires
        rows.len() == old.len(),
        forall|y: int|
            0 <= y < old.len() ==> segments_well_formed(
                segment_ranges(#[trigger] rows[y]),
                old[y].len() as int,
            ),
        rows_sorted_by_segments(old, rows, direction, new1),
        rows_sorted_by_segments(old, rows, direction, new2),
    ensures
        new1 == new2,
{
    assert forall|y: int| 0 <= y < old.len() implies new1[y] == new2[y] by {
        lemma_row_sort_unique(old[y], rows[y], direction, new1[y], new2[y]);
    }
    assert(new1 =~= new2);
}

/// Applies a prepared sort and gives back the image in its own orientation. For each
/// recorded segment the pixels now in its range are paired with the recorded sort
/// keys, sorted, and written back.
pub fn execute_axis_aligned_prepared_pixel_sort(prepared_pixel_sort: PreparedPixelSort) -> (r:
    PixelBuffer)
    requires
        prepared_pixel_sort.wf(),
    ensures
        r.wf(),
        r.width == if prepared_pixel_sort.image.is_vertical() {
            prepared_pixel_sort.image.scanned().height
        } else {
            prepared_pixel_sort.image.scanned().width
        },
        r.height == if prepared_pixel_sort.image.is_vertical() {
            prepared_pixel_sort.image.scanned().width
        } else {
            prepared_pixel_sort.image.scanned().height
        },
        rows_sorted_by_segments(
            prepared_pixel_sort.image.scanned().pixels(),
            prepared_pixel_sort.rows_view(),
            prepared_pixel_sort.image.sort_direction(),
            oriented(
                r.pixels(),
                prepared_pixel_sort.image.is_vertical(),
                r.width as int,
                r.height as int,
            ),
        ),
{
    let ghost before = prepared_pixel_sort.image.scanned();
    let ghost rows_view = prepared_pixel_sort.rows_view();
    let PreparedPixelSort { image, prepared_row_data } = prepared_pixel_sort;
    let (buffer, direction, vertical) = match image {
        PreparedPixelSortImage::PreparedHorizontal { image, direction } => (image, direction, false),
        PreparedPixelSortImage::PreparedVertical { rotated_image, direction } => (
            rotated_image,
            direction,
            true,
        ),
    };
    let width = buffer.width;
    let height = buffer.height;
    let mut rows = buffer.rows;
    let mut y: usize = 0;
    while y < height
        invariant
            before.wf(),
            width == before.width,
            height == before.height,
            prepared_row_data@.len() == height,
            rows_view == prepared_row_data@.map_values(|r: PreparedPixelSortRow| row_view(r)),
            forall|k: int|
                0 <= k < height ==> segments_well_formed(
                    segment_ranges(row_view(#[trigger] prepared_row_data@[k])),
                    width as int,
                ),
            is_grid(grid_of(rows@), width as int, height as int),
            y <= height,
            forall|k: int| y <= k < height ==> #[trigger] grid_of(rows@)[k] == before.pixels()[k],
            forall|k: int|
                0 <= k < y ==> row_sorted_by_segments(
                    #[trigger] before.pixels()[k],
                    rows_view[k],
                    direction,
                    grid_of(rows@)[k],
                ),
        decreases height - y,
    {
        assert(grid_of(rows@)[y as int] == rows@[y as int]@);
        assert(rows_view[y as int] == row_view(prepared_row_data@[y as int]));
        let ghost snapshot = rows@;
        execute_prepared_pixel_sort_on_image_row(&mut rows[y], direction, &prepared_row_data[y]);
        proof {
            assert forall|k: int| 0 <= k < height && k != y implies #[trigger] grid_of(rows@)[k]
                == grid_of(snapshot)[k] by {
                assert(rows@[k] == snapshot[k]);
            }
            assert(grid_of(rows@)[y as int] == rows@[y as int]@);
        }
        y = y + 1;
    }
    if vertical {
        let back = rotate270(&rows, width, height);
        proof {
            lemma_rotated_dimensions(grid_of(rows@), width as int, height as int);
            lemma_rotation_round_trip(grid_of(rows@), width as int, height as int);
        }
        PixelBuffer { width: height, height: width, rows: back }
    } else {
        PixelBuffer { width, height, rows }
    }
}

} // verus!
