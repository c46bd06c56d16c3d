use vstd::prelude::*;

verus! {

/// Every way an export can fail. Each one ends the export attempt.
#[derive(Debug, Clone, Copy, PartialEq, Eq, Structural)]
pub enum ExportError {
    /// The window scale factor was zero.
    InvalidScaleFactor,
    /// The scale factor exceeds a raster dimension, so a tile would be empty.
    DegenerateTileSize,
    /// The statistics of a band could not be computed.
    StatisticsUnavailable,
    /// A band's minimum equals its maximum, so it cannot be normalized.
    DegenerateBandRange,
    /// A tile or a sample buffer does not fit the output image.
    OutOfBoundsWrite,
    /// The raster source could not be opened.
    SourceOpenFailure,
    /// A window of the raster could not be read.
    SourceReadFailure,
    /// The output image could not be encoded.
    EncodeFailure,
}

impl ExportError {
    /// A short human-readable description of the error.
    pub fn message(&self) -> (r: String) {
        match self {
            ExportError::InvalidScaleFactor => String::from_str("the window scale factor must be at least 1"),
            ExportError::DegenerateTileSize => String::from_str("the window scale factor exceeds a raster dimension"),
            ExportError::StatisticsUnavailable => String::from_str("the band statistics are unavailable"),
            ExportError::DegenerateBandRange => String::from_str("the band minimum equals its maximum"),
            ExportError::OutOfBoundsWrite => String::from_str("a write falls outside the output image"),
            ExportError::SourceOpenFailure => String::from_str("the raster source could not be opened"),
            ExportError::SourceReadFailure => String::from_str("a raster window could not be read"),
            ExportError::EncodeFailure => String::from_str("the output image could not be encoded"),
        }
    }
}

} // verus!
