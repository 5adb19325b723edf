use vulcan::orientation::{rotate270, rotate90};
use vulcan::pixel::{PixelBuffer, Rgba};

#[test]
fn rotate90_turns_clockwise() {
    // 3 wide, 2 high.
    let grid = vec![vec![1, 2, 3], vec![4, 5, 6]];
    let turned = rotate90(&grid, 3, 2);
    assert_eq!(turned, vec![vec![4, 1], vec![5, 2], vec![6, 3]]);
}

#[test]
fn rotate270_turns_counterclockwise() {
    let grid = vec![vec![1, 2, 3], vec![4, 5, 6]];
    let turned = rotate270(&grid, 3, 2);
    assert_eq!(turned, vec![vec![3, 6], vec![2, 5], vec![1, 4]]);
}

#[test]
fn rotation_round_trip_is_identity() {
    let samples: Vec<u8> = (0..(5 * 3 * 4) as u32).map(|v| (v * 7 % 256) as u8).collect();
    let image = PixelBuffer::from_samples(5, 3, &samples).unwrap();
    let turned = rotate90(&image.rows, 5, 3);
    let back = rotate270(&turned, 3, 5);
    let restored = PixelBuffer { width: 5, height: 3, rows: back };
    assert_eq!(restored.to_samples(), samples);
    let other_way = rotate90(&rotate270(&image.rows, 5, 3), 3, 5);
    assert_eq!(other_way, image.rows);
}

#[test]
fn rotation_of_empty_grid() {
    let grid: Vec<Vec<u8>> = Vec::new();
    assert!(rotate90(&grid, 0, 0).is_empty());
    assert!(rotate270(&grid, 0, 0).is_empty());
}

#[test]
fn samples_round_trip() {
    let samples = vec![1, 2, 3, 4, 5, 6, 7, 8, 9, 10, 11, 12, 13, 14, 15, 16, 17, 18, 19, 20, 21, 22, 23, 24];
    let image = PixelBuffer::from_samples(3, 2, &samples).unwrap();
    assert_eq!(image.width, 3);
    assert_eq!(image.height, 2);
    assert_eq!(image.pixel(0, 0), Rgba::new(1, 2, 3, 4));
    assert_eq!(image.pixel(2, 0), Rgba::new(9, 10, 11, 12));
    assert_eq!(image.pixel(0, 1), Rgba::new(13, 14, 15, 16));
    assert_eq!(image.to_samples(), samples);
}

#[test]
fn samples_of_wrong_length_are_refused() {
    assert!(PixelBuffer::from_samples(2, 2, &vec![0u8; 15]).is_none());
    assert!(PixelBuffer::from_samples(2, 2, &vec![0u8; 17]).is_none());
    assert!(PixelBuffer::from_samples(usize::MAX, 3, &vec![0u8; 12]).is_none());
    let empty = PixelBuffer::from_samples(0, 7, &Vec::new()).unwrap();
    assert_eq!(empty.rows.len(), 7);
    assert!(empty.to_samples().is_empty());
}
