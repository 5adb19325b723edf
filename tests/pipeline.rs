use vulcan::immediate::{perform_pixel_sort, ContextRange, PixelSortOptions};
use vulcan::orientation::{rotate270, rotate90};
use vulcan::pixel::{PixelBuffer, Rgba};
use vulcan::prepared::{
    execute_axis_aligned_prepared_pixel_sort, prepare_pixel_sort, PreparedPixelSortSegment,
    PreparedSegmentSelection,
};
use vulcan::randomize::{
    randomize_prepared_segments, split_segment_into, sub_segment_length, SegmentLengthSource,
    SegmentLengths, UniformSegmentLengths,
};
use vulcan::sorting::{ImageSortingDirection, PixelSegmentSortDirection};

fn test_image(width: usize, height: usize) -> PixelBuffer {
    let samples: Vec<u8> =
        (0..width * height * 4).map(|i| ((i * 37 + 11) % 251) as u8).collect();
    PixelBuffer::from_samples(width, height, &samples).unwrap()
}

fn contexts_of(image: &PixelBuffer) -> Vec<Vec<u32>> {
    image
        .rows
        .iter()
        .map(|row| row.iter().map(|p| p.r as u32 + p.g as u32).collect())
        .collect()
}

struct FixedLengths(Vec<usize>, usize);

impl SegmentLengthSource for FixedLengths {
    fn next_segment_length(&mut self) -> usize {
        let v = self.0[self.1 % self.0.len()];
        self.1 += 1;
        v
    }
}

fn all_directions() -> Vec<ImageSortingDirection> {
    vec![
        ImageSortingDirection::Horizontal(PixelSegmentSortDirection::Ascending),
        ImageSortingDirection::Horizontal(PixelSegmentSortDirection::Descending),
        ImageSortingDirection::Vertical(PixelSegmentSortDirection::Ascending),
        ImageSortingDirection::Vertical(PixelSegmentSortDirection::Descending),
    ]
}

#[test]
fn prepared_matches_immediate_when_keys_agree() {
    let image = test_image(7, 5);
    let contexts = contexts_of(&image);
    for direction in all_directions() {
        let selection = PreparedSegmentSelection::ContextRange {
            contexts: contexts.clone(),
            low: 100,
            high: 300,
        };
        let prepared = prepare_pixel_sort(image_clone(&image), &selection, &contexts, direction);
        let from_prepared = execute_axis_aligned_prepared_pixel_sort(prepared);
        let immediate = perform_pixel_sort(
            image_clone(&image),
            &contexts,
            ContextRange { low: 100, high: 300 },
            PixelSortOptions { direction },
        );
        let a: Vec<(u32, Rgba)> = keyed(&from_prepared);
        let b: Vec<(u32, Rgba)> = keyed(&immediate);
        // Equal keys may come out in either order, so compare the keys position by position.
        assert_eq!(a.iter().map(|p| p.0).collect::<Vec<_>>(), b.iter().map(|p| p.0).collect::<Vec<_>>());
        assert_eq!(from_prepared.width, 7);
        assert_eq!(from_prepared.height, 5);
    }
}

fn image_clone(image: &PixelBuffer) -> PixelBuffer {
    PixelBuffer { width: image.width, height: image.height, rows: image.rows.clone() }
}

fn keyed(image: &PixelBuffer) -> Vec<(u32, Rgba)> {
    image.rows.iter().flat_map(|row| row.iter().map(|p| (p.r as u32 + p.g as u32, *p))).collect()
}

#[test]
fn prepare_records_segments_without_touching_pixels() {
    let image = test_image(6, 2);
    let contexts = vec![vec![1, 5, 5, 1, 5, 1], vec![5, 5, 5, 5, 5, 5]];
    let selection = PreparedSegmentSelection::ContextRange { contexts: contexts.clone(), low: 5, high: 5 };
    let keys = vec![vec![0, 1, 2, 3, 4, 5], vec![6, 7, 8, 9, 10, 11]];
    let prepared = prepare_pixel_sort(
        image_clone(&image),
        &selection,
        &keys,
        ImageSortingDirection::Horizontal(PixelSegmentSortDirection::Ascending),
    );
    assert_eq!(prepared.image.width(), 6);
    assert_eq!(prepared.image.height(), 2);
    let row0 = &prepared.prepared_row_data[0].sorting_contexts_for_row;
    assert_eq!(row0.len(), 2);
    assert_eq!((row0[0].start_column_index, row0[0].pixel_sorting_contexts.clone()), (1, vec![1, 2, 3]));
    assert_eq!((row0[1].start_column_index, row0[1].pixel_sorting_contexts.clone()), (4, vec![4, 5]));
    let row1 = &prepared.prepared_row_data[1].sorting_contexts_for_row;
    assert_eq!(row1.len(), 1);
    assert_eq!(row1[0].pixel_sorting_contexts, vec![6, 7, 8, 9, 10, 11]);
}

#[test]
fn sorting_by_a_different_key_than_the_selection() {
    let pixels: Vec<Rgba> = (0..4u8).map(|i| Rgba::new(i, 0, 0, 255)).collect();
    let image = PixelBuffer { width: 4, height: 1, rows: vec![pixels.clone()] };
    let selection = PreparedSegmentSelection::ContextRange { contexts: vec![vec![9, 9, 9, 9]], low: 9, high: 9 };
    let sort_keys = vec![vec![3, 0, 2, 1]];
    let prepared = prepare_pixel_sort(
        image,
        &selection,
        &sort_keys,
        ImageSortingDirection::Horizontal(PixelSegmentSortDirection::Ascending),
    );
    let sorted = execute_axis_aligned_prepared_pixel_sort(prepared);
    assert_eq!(sorted.rows[0], vec![pixels[1], pixels[3], pixels[2], pixels[0]]);
}

#[test]
fn edge_mask_drives_segments() {
    let pixels: Vec<Rgba> = (0..5u8).map(|i| Rgba::new(i, 0, 0, 255)).collect();
    let image = PixelBuffer { width: 5, height: 1, rows: vec![pixels.clone()] };
    let keys = vec![vec![4, 3, 2, 1, 0]];
    let mask = vec![vec![0, 0, 255, 0, 0]];
    let plain = PreparedSegmentSelection::EdgeMask { mask: mask.clone(), segment_starts_on_image_edge: false };
    let prepared = prepare_pixel_sort(
        image_clone(&image),
        &plain,
        &keys,
        ImageSortingDirection::Horizontal(PixelSegmentSortDirection::Ascending),
    );
    let segments = &prepared.prepared_row_data[0].sorting_contexts_for_row;
    assert_eq!(segments.len(), 1);
    assert_eq!(segments[0].start_column_index, 2);
    assert_eq!(segments[0].pixel_sorting_contexts, vec![2, 1]);
    let sorted = execute_axis_aligned_prepared_pixel_sort(prepared);
    assert_eq!(sorted.rows[0], vec![pixels[0], pixels[1], pixels[3], pixels[2], pixels[4]]);

    let from_edge = PreparedSegmentSelection::EdgeMask { mask, segment_starts_on_image_edge: true };
    let prepared = prepare_pixel_sort(
        image,
        &from_edge,
        &keys,
        ImageSortingDirection::Horizontal(PixelSegmentSortDirection::Ascending),
    );
    let segments = &prepared.prepared_row_data[0].sorting_contexts_for_row;
    assert_eq!(segments.len(), 2);
    assert_eq!(segments[0].start_column_index, 0);
    assert_eq!(segments[0].pixel_sorting_contexts, vec![4, 3]);
    assert_eq!(segments[1].start_column_index, 2);
}

#[test]
fn randomized_segments_cover_the_original() {
    let image = test_image(12, 3);
    let contexts = contexts_of(&image);
    let selection = PreparedSegmentSelection::ContextRange { contexts: contexts.clone(), low: 0, high: 1000 };
    let prepared = prepare_pixel_sort(
        image_clone(&image),
        &selection,
        &contexts,
        ImageSortingDirection::Horizontal(PixelSegmentSortDirection::Ascending),
    );
    let originals: Vec<Vec<(usize, Vec<u32>)>> = prepared
        .prepared_row_data
        .iter()
        .map(|r| {
            r.sorting_contexts_for_row
                .iter()
                .map(|s| (s.start_column_index, s.pixel_sorting_contexts.clone()))
                .collect()
        })
        .collect();
    let source = SegmentLengths::<UniformSegmentLengths>::Uniform(UniformSegmentLengths::new(1, 4, 7));
    let (randomized, drawn) = randomize_prepared_segments(prepared, source);
    assert_eq!(drawn.len(), 3);
    for (row, row_draws) in randomized.prepared_row_data.iter().zip(drawn.iter()) {
        assert_eq!(row.sorting_contexts_for_row.len(), row_draws.len());
        assert!(row_draws.iter().all(|d| (1..=4).contains(d)));
    }
    for (row, original) in randomized.prepared_row_data.iter().zip(originals.iter()) {
        // Every pixel is a member here, so each row holds one segment over the whole row.
        assert_eq!(original.len(), 1);
        let pieces = &row.sorting_contexts_for_row;
        let mut next = original[0].0;
        let mut joined: Vec<u32> = Vec::new();
        for piece in pieces {
            assert_eq!(piece.start_column_index, next);
            assert!((1..=4).contains(&piece.pixel_sorting_contexts.len()));
            next += piece.pixel_sorting_contexts.len();
            joined.extend(piece.pixel_sorting_contexts.iter().copied());
        }
        assert_eq!(joined, original[0].1);
        assert_eq!(next, 12);
    }
}

#[test]
fn uniform_lengths_stay_in_range() {
    let mut source = UniformSegmentLengths::new(2, 2, 1);
    for _ in 0..10 {
        assert_eq!(source.draw(), 2);
    }
    let mut wide = UniformSegmentLengths::new(3, 9, 42);
    for _ in 0..100 {
        let v = wide.next_segment_length();
        assert!((3..=9).contains(&v));
    }
}

#[test]
fn fixed_lengths_split_exactly() {
    let image = test_image(10, 1);
    let contexts = vec![(0..10u32).collect::<Vec<_>>()];
    let selection = PreparedSegmentSelection::ContextRange { contexts: contexts.clone(), low: 0, high: 100 };
    let prepared = prepare_pixel_sort(
        image,
        &selection,
        &contexts,
        ImageSortingDirection::Horizontal(PixelSegmentSortDirection::Descending),
    );
    // Zero counts as one pixel; lengths beyond what is left are cut.
    let source = SegmentLengths::Custom(FixedLengths(vec![3, 0, 4, 50], 0));
    let (randomized, drawn) = randomize_prepared_segments(prepared, source);
    assert_eq!(drawn, vec![vec![3, 0, 4, 50]]);
    let pieces: Vec<(usize, Vec<u32>)> = randomized.prepared_row_data[0]
        .sorting_contexts_for_row
        .iter()
        .map(|s| (s.start_column_index, s.pixel_sorting_contexts.clone()))
        .collect();
    assert_eq!(
        pieces,
        vec![(0, vec![0, 1, 2]), (3, vec![3]), (4, vec![4, 5, 6, 7]), (8, vec![8, 9])]
    );
    let sorted = execute_axis_aligned_prepared_pixel_sort(randomized);
    assert_eq!(sorted.width, 10);
}

#[test]
fn sub_segment_length_rule() {
    assert_eq!(sub_segment_length(0, 5), 1);
    assert_eq!(sub_segment_length(3, 5), 3);
    assert_eq!(sub_segment_length(9, 5), 5);
    assert_eq!(sub_segment_length(5, 5), 5);
}

#[test]
fn split_reports_its_draws() {
    let segment = PreparedPixelSortSegment { start_column_index: 2, pixel_sorting_contexts: vec![7, 6, 5, 4, 3] };
    let mut out = vec![PreparedPixelSortSegment { start_column_index: 0, pixel_sorting_contexts: vec![1, 1] }];
    let mut source = SegmentLengths::Custom(FixedLengths(vec![2, 7], 0));
    let drawn = split_segment_into(&segment, &mut source, &mut out, 10);
    assert_eq!(drawn, vec![2, 7]);
    assert_eq!(out.len(), 3);
    assert_eq!((out[1].start_column_index, out[1].pixel_sorting_contexts.clone()), (2, vec![7, 6]));
    assert_eq!((out[2].start_column_index, out[2].pixel_sorting_contexts.clone()), (4, vec![5, 4, 3]));
}

#[test]
fn uniform_draws_vary() {
    let mut source = UniformSegmentLengths::new(3, 9, 5);
    let draws: Vec<usize> = (0..200).map(|_| source.draw()).collect();
    assert!(draws.iter().any(|&d| d != 3));
    assert!(draws.iter().any(|&d| d != 9));
    let mut seen: Vec<usize> = draws.clone();
    seen.sort();
    seen.dedup();
    assert!(seen.len() > 2);
}

#[test]
fn same_seed_same_lengths() {
    let mut a = UniformSegmentLengths::new(1, 1000, 99);
    let mut b = UniformSegmentLengths::new(1, 1000, 99);
    for _ in 0..20 {
        assert_eq!(a.draw(), b.draw());
    }
}

#[test]
fn empty_images_pass_through() {
    for (width, height) in [(0usize, 0usize), (0, 3), (4, 0)] {
        let image = PixelBuffer::from_samples(width, height, &Vec::new()).unwrap();
        let contexts: Vec<Vec<u32>> = vec![vec![0; width]; height];
        for direction in all_directions() {
            let sorted = perform_pixel_sort(
                image_clone(&image),
                &contexts,
                ContextRange { low: 0, high: 10 },
                PixelSortOptions { direction },
            );
            assert_eq!((sorted.width, sorted.height), (width, height));
            let selection = PreparedSegmentSelection::ContextRange { contexts: contexts.clone(), low: 0, high: 10 };
            let prepared = prepare_pixel_sort(image_clone(&image), &selection, &contexts, direction);
            let executed = execute_axis_aligned_prepared_pixel_sort(prepared);
            assert_eq!((executed.width, executed.height), (width, height));
            assert!(executed.to_samples().is_empty());
        }
    }
}

#[test]
fn equal_keys_keep_the_pixels_of_the_segment() {
    let pixels: Vec<Rgba> = (0..5u8).map(|i| Rgba::new(i, i, i, 255)).collect();
    let image = PixelBuffer { width: 5, height: 1, rows: vec![pixels.clone()] };
    let contexts = vec![vec![7, 7, 7, 7, 7]];
    let sorted = perform_pixel_sort(
        image,
        &contexts,
        ContextRange { low: 7, high: 7 },
        PixelSortOptions {
            direction: ImageSortingDirection::Horizontal(PixelSegmentSortDirection::Descending),
        },
    );
    let mut got = sorted.rows[0].clone();
    got.sort_by_key(|p| p.r);
    assert_eq!(got, pixels);
}

#[test]
fn vertical_prepared_sort_restores_orientation() {
    let image = test_image(3, 4);
    let contexts = contexts_of(&image);
    let selection = PreparedSegmentSelection::ContextRange { contexts: contexts.clone(), low: 0, high: 1000 };
    let prepared = prepare_pixel_sort(
        image_clone(&image),
        &selection,
        &contexts,
        ImageSortingDirection::Vertical(PixelSegmentSortDirection::Ascending),
    );
    assert_eq!(prepared.image.width(), 3);
    assert_eq!(prepared.image.height(), 4);
    assert_eq!(prepared.prepared_row_data.len(), 3);
    let sorted = execute_axis_aligned_prepared_pixel_sort(prepared);
    assert_eq!((sorted.width, sorted.height), (3, 4));
    for x in 0..3 {
        // Every pixel is a member, so each column is sorted from the bottom up.
        let column: Vec<u32> = (0..4).rev().map(|y| {
            let p = sorted.pixel(x, y);
            p.r as u32 + p.g as u32
        }).collect();
        let mut expected = column.clone();
        expected.sort();
        assert_eq!(column, expected);
    }
}

#[test]
fn uniform_pieces_respect_the_range() {
    let image = test_image(40, 2);
    let contexts = vec![vec![1u32; 40]; 2];
    let selection = PreparedSegmentSelection::ContextRange { contexts: contexts.clone(), low: 0, high: 5 };
    let prepared = prepare_pixel_sort(
        image,
        &selection,
        &contexts,
        ImageSortingDirection::Horizontal(PixelSegmentSortDirection::Ascending),
    );
    let source = SegmentLengths::<UniformSegmentLengths>::Uniform(UniformSegmentLengths::new(3, 6, 11));
    let (randomized, _) = randomize_prepared_segments(prepared, source);
    for row in &randomized.prepared_row_data {
        let pieces = &row.sorting_contexts_for_row;
        for (i, piece) in pieces.iter().enumerate() {
            let len = piece.pixel_sorting_contexts.len();
            assert!(len <= 6);
            if i + 1 < pieces.len() {
                assert!(len >= 3);
            }
        }
        let total: usize = pieces.iter().map(|p| p.pixel_sorting_contexts.len()).sum();
        assert_eq!(total, 40);
    }
}

#[test]
fn repeated_sorts_are_byte_identical() {
    let image = test_image(9, 4);
    // Few distinct keys, so many ties.
    let contexts: Vec<Vec<u32>> =
        image.rows.iter().map(|row| row.iter().map(|p| (p.r % 3) as u32).collect()).collect();
    for direction in all_directions() {
        let run = || {
            perform_pixel_sort(
                image_clone(&image),
                &contexts,
                ContextRange { low: 0, high: 1 },
                PixelSortOptions { direction },
            )
            .to_samples()
        };
        assert_eq!(run(), run());
    }
}

#[test]
fn vertical_equals_turned_horizontal() {
    let image = test_image(5, 6);
    let contexts: Vec<Vec<u32>> =
        image.rows.iter().map(|row| row.iter().map(|p| (p.g % 4) as u32).collect()).collect();
    let selection = ContextRange { low: 1, high: 2 };
    for order in [PixelSegmentSortDirection::Ascending, PixelSegmentSortDirection::Descending] {
        let vertical = perform_pixel_sort(
            image_clone(&image),
            &contexts,
            selection,
            PixelSortOptions { direction: ImageSortingDirection::Vertical(order) },
        );
        let turned = PixelBuffer { width: 6, height: 5, rows: rotate90(&image.rows, 5, 6) };
        let horizontal = perform_pixel_sort(
            turned,
            &rotate90(&contexts, 5, 6),
            selection,
            PixelSortOptions { direction: ImageSortingDirection::Horizontal(order) },
        );
        assert_eq!(vertical.rows, rotate270(&horizontal.rows, 6, 5));
    }
}
