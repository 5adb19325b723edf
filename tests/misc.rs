use vulcan::cancellation::CancellationToken;
use vulcan::feedback::{mask_out_non_targeted_pixels, pixel_black};
use vulcan::immediate::ContextRange;
use vulcan::options::{
    PreparedSegmentSortingMode, UiImageSortingDirection, UiSegmentSelectionMode, UiSortingMode,
};
use vulcan::pixel::{PixelBuffer, Rgba};
use vulcan::sorting::{ImageSortingDirection, PixelSegmentSortDirection};
use vulcan::utilities::{select_first_some, select_first_some_3};

#[test]
fn mask_blacks_out_pixels_outside_the_range() {
    let a = Rgba::new(10, 20, 30, 255);
    let b = Rgba::new(40, 50, 60, 128);
    let mut image = PixelBuffer { width: 2, height: 2, rows: vec![vec![a, b], vec![b, a]] };
    let contexts = vec![vec![5, 50], vec![10, 11]];
    mask_out_non_targeted_pixels(&mut image, &contexts, ContextRange { low: 5, high: 10 }, pixel_black());
    let black = Rgba::new(0, 0, 0, 255);
    assert_eq!(image.rows, vec![vec![a, black], vec![b, black]]);
    assert_eq!(pixel_black(), black);
}

#[test]
fn direction_choices() {
    let all = UiImageSortingDirection::directions();
    assert_eq!(all.len(), 4);
    assert_eq!(all[0].label(), "horizontal, ascending");
    assert_eq!(all[3].label(), "vertical, descending");
    assert_eq!(
        UiImageSortingDirection::VerticalAscending.to_image_sorting_direction(),
        ImageSortingDirection::Vertical(PixelSegmentSortDirection::Ascending)
    );
    assert_eq!(
        UiImageSortingDirection::HorizontalDescending.to_image_sorting_direction(),
        ImageSortingDirection::Horizontal(PixelSegmentSortDirection::Descending)
    );
}

#[test]
fn selection_and_sorting_choices() {
    let modes = UiSegmentSelectionMode::modes();
    assert_eq!(modes[3], UiSegmentSelectionMode::CannyEdges);
    assert_eq!(modes[0].label(), "relative luminance range");
    assert_eq!(UiSegmentSelectionMode::CannyEdges.label(), "edge-to-edge (canny)");
    let sorting = UiSortingMode::modes();
    assert_eq!(sorting, [UiSortingMode::Luminance, UiSortingMode::Hue, UiSortingMode::Saturation]);
    assert_eq!(UiSortingMode::Hue.label(), "hue");
    assert_eq!(UiSortingMode::Saturation.to_prepared_sorting_mode(), PreparedSegmentSortingMode::Saturation);
}

#[test]
fn first_some_wins() {
    assert_eq!(select_first_some(Some(1), Some(2)), Some(1));
    assert_eq!(select_first_some(None, Some(2)), Some(2));
    assert_eq!(select_first_some::<u8>(None, None), None);
    assert_eq!(select_first_some_3(None, None, Some(3)), Some(3));
    assert_eq!(select_first_some_3(None, Some(2), Some(3)), Some(2));
    assert_eq!(select_first_some_3::<u8>(None, None, None), None);
}

#[test]
fn cancellation_is_shared() {
    let token = CancellationToken::new();
    let other = token.clone();
    assert!(!other.is_cancelled());
    token.cancel();
    assert!(other.is_cancelled());
}
