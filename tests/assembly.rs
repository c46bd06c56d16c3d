use gdal_dtm_exporter::error::ExportError;
use gdal_dtm_exporter::image::GrayImage;
use gdal_dtm_exporter::tile::Tile;

#[test]
fn new_image_is_filled() {
    let img = GrayImage::new(3, 2, 7u8);
    assert_eq!(img.width(), 3);
    assert_eq!(img.height(), 2);
    for y in 0..2 {
        for x in 0..3 {
            assert_eq!(img.get_pixel(x, y), Some(7));
        }
    }
    assert_eq!(img.get_pixel(3, 0), None);
    assert_eq!(img.get_pixel(0, 2), None);
}

#[test]
fn tile_is_written_at_its_offset() {
    let mut img = GrayImage::new(4, 3, 0i32);
    let tile = Tile { x_offset: 1, y_offset: 1, width: 2, height: 2 };
    assert_eq!(img.write_tile(tile, &vec![1, 2, 3, 4]), Ok(()));
    let expected = [[0, 0, 0, 0], [0, 1, 2, 0], [0, 3, 4, 0]];
    for y in 0..3u32 {
        for x in 0..4u32 {
            assert_eq!(img.get_pixel(x, y), Some(expected[y as usize][x as usize]));
        }
    }
}

#[test]
fn tile_outside_the_image_is_rejected() {
    let mut img = GrayImage::new(4, 4, 0i32);
    let tile = Tile { x_offset: 3, y_offset: 0, width: 2, height: 1 };
    assert_eq!(img.write_tile(tile, &vec![1, 2]), Err(ExportError::OutOfBoundsWrite));
    let empty = Tile { x_offset: 0, y_offset: 0, width: 0, height: 1 };
    assert_eq!(img.write_tile(empty, &vec![]), Err(ExportError::OutOfBoundsWrite));
    for y in 0..4 {
        for x in 0..4 {
            assert_eq!(img.get_pixel(x, y), Some(0));
        }
    }
}

#[test]
fn sample_count_must_match_tile() {
    let mut img = GrayImage::new(4, 4, 0i32);
    let tile = Tile { x_offset: 0, y_offset: 0, width: 2, height: 2 };
    assert_eq!(img.write_tile(tile, &vec![1, 2, 3]), Err(ExportError::OutOfBoundsWrite));
    assert_eq!(img.get_pixel(0, 0), Some(0));
}

#[test]
fn rgb_repeats_gray_in_each_channel() {
    let mut img = GrayImage::new(2, 1, 0.0f32);
    let tile = Tile { x_offset: 0, y_offset: 0, width: 2, height: 1 };
    img.write_tile(tile, &vec![0.25f32, 0.75]).unwrap();
    assert_eq!(img.to_rgb(), vec![0.25, 0.25, 0.25, 0.75, 0.75, 0.75]);
}

#[test]
fn error_messages_are_distinct() {
    let all = [
        ExportError::InvalidScaleFactor,
        ExportError::DegenerateTileSize,
        ExportError::StatisticsUnavailable,
        ExportError::DegenerateBandRange,
        ExportError::OutOfBoundsWrite,
        ExportError::SourceOpenFailure,
        ExportError::SourceReadFailure,
        ExportError::EncodeFailure,
    ];
    for (i, a) in all.iter().enumerate() {
        assert!(!a.message().is_empty());
        for b in &all[i + 1..] {
            assert_ne!(a.message(), b.message());
        }
    }
}
