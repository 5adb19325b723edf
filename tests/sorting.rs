use vulcan::immediate::{perform_pixel_sort, ContextRange, PixelSortOptions};
use vulcan::pixel::{PixelBuffer, PixelWithContext, Rgba};
use vulcan::sorting::{
    sort_by_context, sort_with_numeric_context_and_reapply_pixel_segment, ImageSortingDirection,
    PixelSegmentSortDirection,
};

fn gray(v: u8) -> Rgba {
    Rgba::new(v, v, v, 255)
}

fn row_image(pixels: Vec<Rgba>) -> PixelBuffer {
    PixelBuffer { width: pixels.len(), height: 1, rows: vec![pixels] }
}

fn key(v: f32) -> u32 {
    v.to_bits()
}

fn options(direction: ImageSortingDirection) -> PixelSortOptions {
    PixelSortOptions { direction }
}

#[test]
fn end_to_end_ascending_keeps_sorted_segment() {
    let pixels = vec![gray(10), gray(128), gray(128), gray(240)];
    let contexts = vec![vec![key(0.1), key(0.5), key(0.5), key(0.9)]];
    let selection = ContextRange { low: key(0.3), high: key(0.7) };
    let sorted = perform_pixel_sort(
        row_image(pixels.clone()),
        &contexts,
        selection,
        options(ImageSortingDirection::Horizontal(PixelSegmentSortDirection::Ascending)),
    );
    assert_eq!(sorted.rows[0], pixels);
}

#[test]
fn end_to_end_descending_moves_closing_pixel_first() {
    // Members are pixels 1 and 2; pixel 3 closes the segment and is sorted with it.
    let pixels = vec![gray(10), gray(128), gray(128), gray(240)];
    let contexts = vec![vec![key(0.1), key(0.5), key(0.5), key(0.9)]];
    let selection = ContextRange { low: key(0.3), high: key(0.7) };
    let sorted = perform_pixel_sort(
        row_image(pixels),
        &contexts,
        selection,
        options(ImageSortingDirection::Horizontal(PixelSegmentSortDirection::Descending)),
    );
    assert_eq!(sorted.rows[0], vec![gray(10), gray(240), gray(128), gray(128)]);
}

#[test]
fn unmatched_row_is_unchanged() {
    let pixels = vec![gray(5), gray(200), gray(7), gray(100)];
    let contexts = vec![vec![50, 40, 30, 20]];
    let selection = ContextRange { low: 60, high: 90 };
    for direction in [PixelSegmentSortDirection::Ascending, PixelSegmentSortDirection::Descending] {
        let sorted = perform_pixel_sort(
            row_image(pixels.clone()),
            &contexts,
            selection,
            options(ImageSortingDirection::Horizontal(direction)),
        );
        assert_eq!(sorted.rows[0], pixels);
    }
}

#[test]
fn segment_keeps_its_pixels_and_is_sorted() {
    let pixels: Vec<Rgba> = (0..8u8).map(|i| gray(i * 20)).collect();
    let keys = vec![5, 9, 3, 7, 1, 8, 2, 100];
    let contexts = vec![keys.clone()];
    let selection = ContextRange { low: 0, high: 10 };
    let sorted = perform_pixel_sort(
        row_image(pixels.clone()),
        &contexts,
        selection,
        options(ImageSortingDirection::Horizontal(PixelSegmentSortDirection::Ascending)),
    );
    // All of the row is one segment (the last pixel closes it).
    let mut expected: Vec<(u32, Rgba)> = keys.iter().copied().zip(pixels.iter().copied()).collect();
    expected.sort_by_key(|p| p.0);
    let expected_pixels: Vec<Rgba> = expected.iter().map(|p| p.1).collect();
    assert_eq!(sorted.rows[0], expected_pixels);
}

#[test]
fn pixels_outside_segments_stay() {
    let pixels: Vec<Rgba> = (0..6u8).map(|i| gray(i * 30)).collect();
    let contexts = vec![vec![100, 4, 2, 100, 100, 100]];
    let selection = ContextRange { low: 0, high: 10 };
    let sorted = perform_pixel_sort(
        row_image(pixels.clone()),
        &contexts,
        selection,
        options(ImageSortingDirection::Horizontal(PixelSegmentSortDirection::Ascending)),
    );
    // Segment is [1, 4): keys 4, 2, 100 -> pixels 2, 1, 3.
    assert_eq!(
        sorted.rows[0],
        vec![pixels[0], pixels[2], pixels[1], pixels[3], pixels[4], pixels[5]]
    );
}

#[test]
fn vertical_sort_reads_columns_from_the_bottom() {
    // One column of three pixels; every pixel is a member.
    let image = PixelBuffer { width: 1, height: 3, rows: vec![vec![gray(1)], vec![gray(2)], vec![gray(3)]] };
    let contexts = vec![vec![30], vec![10], vec![20]];
    let selection = ContextRange { low: 0, high: 100 };
    let sorted = perform_pixel_sort(
        image,
        &contexts,
        selection,
        options(ImageSortingDirection::Vertical(PixelSegmentSortDirection::Ascending)),
    );
    // Read bottom-up the keys ascend: bottom 10, then 20, then 30 at the top.
    assert_eq!(sorted.width, 1);
    assert_eq!(sorted.height, 3);
    assert_eq!(sorted.rows, vec![vec![gray(1)], vec![gray(3)], vec![gray(2)]]);
}

#[test]
fn sort_by_context_orders_both_ways() {
    let pairs: Vec<PixelWithContext> =
        [4u32, 1, 3, 1, 2].iter().map(|&k| PixelWithContext::new(gray(k as u8), k)).collect();
    let up = sort_by_context(&pairs, 0, pairs.len(), PixelSegmentSortDirection::Ascending);
    assert_eq!(up.iter().map(|p| p.context).collect::<Vec<_>>(), vec![1, 1, 2, 3, 4]);
    let down = sort_by_context(&pairs, 1, 4, PixelSegmentSortDirection::Descending);
    assert_eq!(down.iter().map(|p| p.context).collect::<Vec<_>>(), vec![3, 1, 1]);
    assert!(sort_by_context(&pairs, 2, 2, PixelSegmentSortDirection::Ascending).is_empty());
}

#[test]
fn reapply_writes_sorted_pixels_at_offset() {
    let pairs = vec![
        PixelWithContext::new(gray(9), 9),
        PixelWithContext::new(gray(3), 3),
        PixelWithContext::new(gray(6), 6),
    ];
    let mut row = vec![gray(0); 5];
    sort_with_numeric_context_and_reapply_pixel_segment(
        &pairs,
        PixelSegmentSortDirection::Descending,
        &mut row,
        1,
    );
    assert_eq!(row, vec![gray(0), gray(9), gray(6), gray(3), gray(0)]);
}
