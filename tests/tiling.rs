use gdal_dtm_exporter::error::ExportError;
use gdal_dtm_exporter::tile::{partition, Tile};

fn coverage_counts(width: u32, height: u32, tiles: &[Tile]) -> Vec<u32> {
    let mut counts = vec![0u32; (width * height) as usize];
    for t in tiles {
        assert!(t.width > 0 && t.height > 0);
        assert!(t.x_offset + t.width <= width);
        assert!(t.y_offset + t.height <= height);
        for y in t.y_offset..t.y_offset + t.height {
            for x in t.x_offset..t.x_offset + t.width {
                counts[(y * width + x) as usize] += 1;
            }
        }
    }
    counts
}

#[test]
fn even_grid_has_no_remainder() {
    let tiles = partition(100, 100, 10).unwrap();
    assert_eq!(tiles.len(), 100);
    for t in &tiles {
        assert_eq!(t.width, 10);
        assert_eq!(t.height, 10);
        assert_eq!(t.x_offset % 10, 0);
        assert_eq!(t.y_offset % 10, 0);
    }
    assert!(coverage_counts(100, 100, &tiles).iter().all(|&c| c == 1));
}

#[test]
fn last_column_absorbs_remainder() {
    let tiles = partition(105, 100, 10).unwrap();
    assert_eq!(tiles.len(), 100);
    let first_row: Vec<&Tile> = tiles.iter().filter(|t| t.y_offset == 0).collect();
    assert_eq!(first_row.len(), 10);
    for t in &first_row[..9] {
        assert_eq!(t.width, 10);
    }
    assert_eq!(first_row[9].x_offset, 90);
    assert_eq!(first_row[9].width, 15);
    let covered: u32 = first_row.iter().map(|t| t.width).sum();
    assert_eq!(covered, 105);
    assert!(coverage_counts(105, 100, &tiles).iter().all(|&c| c == 1));
}

#[test]
fn unit_scale_gives_one_full_tile() {
    let tiles = partition(37, 21, 1).unwrap();
    assert_eq!(tiles, vec![Tile { x_offset: 0, y_offset: 0, width: 37, height: 21 }]);
}

#[test]
fn rows_come_top_to_bottom_left_to_right() {
    let tiles = partition(4, 4, 2).unwrap();
    assert_eq!(
        tiles,
        vec![
            Tile { x_offset: 0, y_offset: 0, width: 2, height: 2 },
            Tile { x_offset: 2, y_offset: 0, width: 2, height: 2 },
            Tile { x_offset: 0, y_offset: 2, width: 2, height: 2 },
            Tile { x_offset: 2, y_offset: 2, width: 2, height: 2 },
        ]
    );
}

#[test]
fn coverage_holds_on_many_shapes() {
    for width in 1u32..=23 {
        for height in 1u32..=17 {
            for scale in 1usize..=(width.min(height) as usize) {
                let tiles = partition(width, height, scale).unwrap();
                let counts = coverage_counts(width, height, &tiles);
                assert!(counts.iter().all(|&c| c == 1), "{width}x{height} scale {scale}");
            }
        }
    }
}

#[test]
fn small_base_gives_unit_tiles_and_a_wide_last_one() {
    // 19 / 10 == 1, so the axis is cut in steps of one pixel.
    let tiles = partition(19, 10, 10).unwrap();
    assert_eq!(tiles.len(), 19 * 10);
    assert!(coverage_counts(19, 10, &tiles).iter().all(|&c| c == 1));
}

#[test]
fn zero_scale_factor_is_rejected() {
    assert_eq!(partition(10, 10, 0), Err(ExportError::InvalidScaleFactor));
}

#[test]
fn scale_factor_above_a_dimension_is_rejected() {
    assert_eq!(partition(10, 5, 6), Err(ExportError::DegenerateTileSize));
    assert_eq!(partition(5, 10, 6), Err(ExportError::DegenerateTileSize));
    assert!(partition(6, 6, 6).is_ok());
}
