use vstd::prelude::*;

use crate::sorting::{ImageSortingDirection, PixelSegmentSortDirection};

verus! {

/// The pixel property by which a prepared sort orders each segment.
#[derive(Clone, Copy, Debug, PartialEq, Eq, Structural)]
pub enum PreparedSegmentSortingMode {
    Luminance,
    Hue,
    Saturation,
}

/// The sorting directions a user can pick.
#[derive(Clone, Copy, Debug, PartialEq, Eq, Structural)]
pub enum UiImageSortingDirection {
    HorizontalAscending,
    HorizontalDescending,
    VerticalAscending,
    VerticalDescending,
}

impl UiImageSortingDirection {
    /// Every direction, in the order in which they are offered.
    pub fn directions() -> (r: [Self; 4])
        ensures
            r@ == seq![
                UiImageSortingDirection::HorizontalAscending,
                UiImageSortingDirection::HorizontalDescending,
                UiImageSortingDirection::VerticalAscending,
                UiImageSortingDirection::VerticalDescending,
            ],
    {
        let r = [
            UiImageSortingDirection::HorizontalAscending,
            UiImageSortingDirection::HorizontalDescending,
            UiImageSortingDirection::VerticalAscending,
            UiImageSortingDirection::VerticalDescending,
        ];
        assert(r@ =~= seq![
            UiImageSortingDirection::HorizontalAscending,
            UiImageSortingDirection::HorizontalDescending,
            UiImageSortingDirection::VerticalAscending,
            UiImageSortingDirection::VerticalDescending,
        ]);
        r
    }

    pub open spec fn label_text(self) -> Seq<char> {
        match self {
            UiImageSortingDirection::HorizontalAscending => "horizontal, ascending"@,
            UiImageSortingDirection::HorizontalDescending => "horizontal, descending"@,
            UiImageSortingDirection::VerticalAscending => "vertical, ascending"@,
            UiImageSortingDirection::VerticalDescending => "vertical, descending"@,
        }
    }

    /// The label shown for this direction.
    pub fn label(self) -> (r: &'static str)
        ensures
            r@ == self.label_text(),
    {
        match self {
            UiImageSortingDirection::HorizontalAscending => "horizontal, ascending",
            UiImageSortingDirection::HorizontalDescending => "horizontal, descending",
            UiImageSortingDirection::VerticalAscending => "vertical, ascending",
            UiImageSortingDirection::VerticalDescending => "vertical, descending",
        }
    }

    /// The engine's direction for this choice.
    pub fn to_image_sorting_direction(self) -> (r: ImageSortingDirection)
        ensures
            r == match self {
                UiImageSortingDirection::HorizontalAscending => ImageSortingDirection::Horizontal(
                    PixelSegmentSortDirection::Ascending,
                ),
                UiImageSortingDirection::HorizontalDescending => ImageSortingDirection::Horizontal(
                    PixelSegmentSortDirection::Descending,
                ),
                UiImageSortingDirection::VerticalAscending => ImageSortingDirection::Vertical(
                    PixelSegmentSortDirection::Ascending,
                ),
                UiImageSortingDirection::VerticalDescending => ImageSortingDirection::Vertical(
                    PixelSegmentSortDirection::Descending,
                ),
            },
    {
        match self {
            UiImageSortingDirection::HorizontalAscending => ImageSortingDirection::Horizontal(
                PixelSegmentSortDirection::Ascending,
            ),
            UiImageSortingDirection::HorizontalDescending => ImageSortingDirection::Horizontal(
                PixelSegmentSortDirection::Descending,
            ),
            UiImageSortingDirection::VerticalAscending => ImageSortingDirection::Vertical(
                PixelSegmentSortDirection::Ascending,
            ),
            UiImageSortingDirection::VerticalDescending => ImageSortingDirection::Vertical(
                PixelSegmentSortDirection::Descending,
            ),
        }
    }
}

/// The ways of selecting segments a user can pick.
#[derive(Clone, Copy, Debug, PartialEq, Eq, Structural)]
pub enum UiSegmentSelectionMode {
    LuminanceRange,
    HueRange,
    SaturationRange,
    CannyEdges,
}

impl UiSegmentSelectionMode {
    /// Every selection mode, in the order in which they are offered.
    pub fn modes() -> (r: [Self; 4])
        ensures
            r@ == seq![
                UiSegmentSelectionMode::LuminanceRange,
                UiSegmentSelectionMode::HueRange,
                UiSegmentSelectionMode::SaturationRange,
                UiSegmentSelectionMode::CannyEdges,
            ],
    {
        let r = [
            UiSegmentSelectionMode::LuminanceRange,
            UiSegmentSelectionMode::HueRange,
            UiSegmentSelectionMode::SaturationRange,
            UiSegmentSelectionMode::CannyEdges,
        ];
        assert(r@ =~= seq![
            UiSegmentSelectionMode::LuminanceRange,
            UiSegmentSelectionMode::HueRange,
            UiSegmentSelectionMode::SaturationRange,
            UiSegmentSelectionMode::CannyEdges,
        ]);
        r
    }

    pub open spec fn label_text(self) -> Seq<char> {
        match self {
            UiSegmentSelectionMode::LuminanceRange => "relative luminance range"@,
            UiSegmentSelectionMode::HueRange => "hue range"@,
            UiSegmentSelectionMode::SaturationRange => "saturation range"@,
            UiSegmentSelectionMode::CannyEdges => "edge-to-edge (canny)"@,
        }
    }

    /// The label shown for this mode.
    pub fn label(self) -> (r: &'static str)
        ensures
            r@ == self.label_text(),
    {
        match self {
            UiSegmentSelectionMode::LuminanceRange => "relative luminance range",
            UiSegmentSelectionMode::HueRange => "hue range",
            UiSegmentSelectionMode::SaturationRange => "saturation range",
            UiSegmentSelectionMode::CannyEdges => "edge-to-edge (canny)",
        }
    }
}

/// The sort properties a user can pick.
#[derive(Clone, Copy, Debug, PartialEq, Eq, Structural)]
pub enum UiSortingMode {
    Luminance,
    Hue,
    Saturation,
}

impl UiSortingMode {
    /// Every sorting mode, in the order in which they are offered.
    pub fn modes() -> (r: [Self; 3])
        ensures
            r@ == seq![UiSortingMode::Luminance, UiSortingMode::Hue, UiSortingMode::Saturation],
    {
        let r = [UiSortingMode::Luminance, UiSortingMode::Hue, UiSortingMode::Saturation];
        assert(r@ =~= seq![UiSortingMode::Luminance, UiSortingMode::Hue, UiSortingMode::Saturation]);
        r
    }

    pub open spec fn label_text(self) -> Seq<char> {
        match self {
            UiSortingMode::Luminance => "luminance"@,
            UiSortingMode::Hue => "hue"@,
            UiSortingMode::Saturation => "saturation"@,
        }
    }

    /// The label shown for this mode.
    pub fn label(self) -> (r: &'static str)
        ensures
            r@ == self.label_text(),
    {
        match self {
            UiSortingMode::Luminance => "luminance",
            UiSortingMode::Hue => "hue",
            UiSortingMode::Saturation => "saturation",
        }
    }

    /// The engine's sorting mode for this choice.
    pub fn to_prepared_sorting_mode(self) -> (r: PreparedSegmentSortingMode)
        ensures
            r == match self {
                UiSortingMode::Luminance => PreparedSegmentSortingMode::Luminance,
                UiSortingMode::Hue => PreparedSegmentSortingMode::Hue,
                UiSortingMode::Saturation => PreparedSegmentSortingMode::Saturation,
            },
    {
        match self {
            UiSortingMode::Luminance => PreparedSegmentSortingMode::Luminance,
            UiSortingMode::Hue => PreparedSegmentSortingMode::Hue,
            UiSortingMode::Saturation => PreparedSegmentSortingMode::Saturation,
        }
    }
}

} // verus!
