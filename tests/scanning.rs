use vulcan::prepared::prepare_horizontal_generic_pixel_sort_for_image_row;
use vulcan::scanner::{find_segments, members_in_range, members_on_edges, SegmentSpan};

fn span(start: usize, len: usize) -> SegmentSpan {
    SegmentSpan { start, len }
}

#[test]
fn closing_pixel_is_part_of_the_segment() {
    let members = vec![false, false, true, true, true, false, true, false];
    let segments = find_segments(&members);
    assert_eq!(segments, vec![span(2, 4), span(6, 2)]);
}

#[test]
fn open_segment_is_emitted_at_end_of_scanline() {
    let members = vec![false, true, true];
    assert_eq!(find_segments(&members), vec![span(1, 2)]);
}

#[test]
fn no_member_no_segment() {
    let members = vec![false; 5];
    assert!(find_segments(&members).is_empty());
    assert!(find_segments(&Vec::new()).is_empty());
}

#[test]
fn every_pixel_a_member_is_one_segment() {
    let members = vec![true; 4];
    assert_eq!(find_segments(&members), vec![span(0, 4)]);
}

#[test]
fn range_membership_is_inclusive() {
    let contexts = vec![1, 3, 5, 7, 9];
    assert_eq!(members_in_range(&contexts, 3, 7), vec![false, true, true, true, false]);
}

#[test]
fn edge_membership_and_forced_first_pixel() {
    let mask = vec![0, 255, 0, 128, 255];
    assert_eq!(members_on_edges(&mask, false), vec![false, true, false, false, true]);
    assert_eq!(members_on_edges(&mask, true), vec![true, true, false, false, true]);
}

#[test]
fn prepared_row_records_sort_keys_of_each_segment() {
    let members = vec![false, false, true, true, true, false, true, false];
    let keys = vec![10, 11, 12, 13, 14, 15, 16, 17];
    let row = prepare_horizontal_generic_pixel_sort_for_image_row(&members, &keys);
    let segments = &row.sorting_contexts_for_row;
    assert_eq!(segments.len(), 2);
    assert_eq!(segments[0].start_column_index, 2);
    assert_eq!(segments[0].pixel_sorting_contexts, vec![12, 13, 14, 15]);
    assert_eq!(segments[1].start_column_index, 6);
    assert_eq!(segments[1].pixel_sorting_contexts, vec![16, 17]);
}
