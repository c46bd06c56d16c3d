use gdal_dtm_exporter::error::ExportError;
use gdal_dtm_exporter::export::{Export, Step};
use gdal_dtm_exporter::image::GrayImage;
use gdal_dtm_exporter::mapping::map_range;
use gdal_dtm_exporter::tile::Tile;

/// Drives an export to the end, reading each window from `read`.
fn run<T: Copy>(mut export: Export<T>, mut read: impl FnMut(u32, Tile) -> Vec<T>) -> (GrayImage<T>, Vec<Step>) {
    let mut steps = Vec::new();
    loop {
        let step = export.next_step();
        steps.push(step);
        match step {
            Step::ComputeStatistics { .. } => export.statistics_ready(),
            Step::ReadTile { band, tile } => export.accept_tile(&read(band, tile)).unwrap(),
            Step::Encode => return (export.into_image(), steps),
        }
    }
}

fn window(raster: &[i32], width: u32, tile: Tile) -> Vec<i32> {
    let mut out = Vec::new();
    for y in tile.y_offset..tile.y_offset + tile.height {
        for x in tile.x_offset..tile.x_offset + tile.width {
            out.push(raster[(y * width + x) as usize]);
        }
    }
    out
}

#[test]
fn second_band_overwrites_first() {
    let export = Export::new(5, 3, 2, 2, 0.0f32).unwrap();
    let (img, _) = run(export, |band, tile| vec![band as f32; (tile.width * tile.height) as usize]);
    for y in 0..3 {
        for x in 0..5 {
            assert_eq!(img.get_pixel(x, y), Some(2.0));
        }
    }
}

#[test]
fn normalized_four_by_four_scenario() {
    let raster: Vec<i32> = (0..16).collect();
    let (min, max) = (0, 15);
    let export = Export::new(4, 4, 1, 2, -1i32).unwrap();
    let (img, steps) = run(export, |_, tile| {
        window(&raster, 4, tile)
            .into_iter()
            .map(|s| map_range((min, max), (0, 1), s).unwrap())
            .collect()
    });
    let read: Vec<Tile> = steps
        .iter()
        .filter_map(|s| match s {
            Step::ReadTile { tile, .. } => Some(*tile),
            _ => None,
        })
        .collect();
    assert_eq!(read.len(), 4);
    assert!(read.iter().all(|t| t.width == 2 && t.height == 2));
    assert_eq!(img.get_pixel(3, 3), Some(1));
    assert_eq!(img.get_pixel(0, 0), Some(0));
}

#[test]
fn normalized_scenario_in_floating_point() {
    let export = Export::new(4, 4, 1, 2, f32::NAN).unwrap();
    let (img, _) = run(export, |_, tile| {
        let raster: Vec<i32> = (0..16).collect();
        window(&raster, 4, tile).into_iter().map(|s| (s as f32 - 0.0) / (15.0 - 0.0)).collect()
    });
    assert_eq!(img.get_pixel(3, 3), Some(1.0));
    assert_eq!(img.get_pixel(0, 0), Some(0.0));
    assert_eq!(img.get_pixel(1, 2), Some(9.0 / 15.0));
}

#[test]
fn steps_follow_band_then_tiles() {
    let export = Export::new(2, 2, 2, 1, 0u8).unwrap();
    let (_, steps) = run(export, |_, _| vec![1u8; 4]);
    let full = Tile { x_offset: 0, y_offset: 0, width: 2, height: 2 };
    assert_eq!(
        steps,
        vec![
            Step::ComputeStatistics { band: 1 },
            Step::ReadTile { band: 1, tile: full },
            Step::ComputeStatistics { band: 2 },
            Step::ReadTile { band: 2, tile: full },
            Step::Encode,
        ]
    );
}

#[test]
fn wrong_sample_count_leaves_state_unchanged() {
    let mut export = Export::new(2, 2, 1, 1, 0u8).unwrap();
    export.statistics_ready();
    let before = export.next_step();
    assert_eq!(export.accept_tile(&vec![1u8; 3]), Err(ExportError::OutOfBoundsWrite));
    assert_eq!(export.next_step(), before);
    assert_eq!(export.image().get_pixel(0, 0), Some(0));
}

#[test]
fn bad_scale_factor_fails_at_start() {
    assert!(matches!(Export::new(4, 4, 1, 0, 0u8), Err(ExportError::InvalidScaleFactor)));
    assert!(matches!(Export::new(4, 4, 1, 5, 0u8), Err(ExportError::DegenerateTileSize)));
}

#[test]
fn samples_are_written_unchanged_without_normalization() {
    let values: Vec<f32> = vec![-3.5, 0.0, 1e6, 7.25, -0.0, 42.0];
    let export = Export::new(3, 2, 1, 1, 0.0f32).unwrap();
    let (img, _) = run(export, |_, _| values.clone());
    for y in 0..2u32 {
        for x in 0..3u32 {
            assert_eq!(img.get_pixel(x, y), Some(values[(y * 3 + x) as usize]));
        }
    }
}

#[test]
fn last_band_alone_shows_with_varied_values() {
    let first: Vec<i32> = (100..130).collect();
    let second: Vec<i32> = (0..30).map(|v| v * 2).collect();
    let export = Export::new(6, 5, 2, 2, 0i32).unwrap();
    let (img, _) = run(export, |band, tile| {
        let raster = if band == 1 { &first } else { &second };
        window(raster, 6, tile)
    });
    for y in 0..5u32 {
        for x in 0..6u32 {
            assert_eq!(img.get_pixel(x, y), Some(second[(y * 6 + x) as usize]));
        }
    }
}
