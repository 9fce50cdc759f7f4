//! Errors of the MP4 structure and telemetry scan.
use vstd::prelude::*;

verus! {

/// Why the MP4 structure could not be read.
#[derive(Debug, Clone, Copy, PartialEq, Eq)]
pub enum Mp4Error {
    /// The bytes do not form the structure the reader walks: a header or a
    /// field runs past the buffer, a size does not fit, or a protobuf key
    /// carries a wire type other than 0, 1, 2 or 5.
    Malformed,
    /// No top-level `moov` box.
    NoMoov,
    /// No track whose handler is `meta`.
    NoMetaTrack,
    /// The meta track's sample table has no `stsz` box.
    MissingStsz,
    /// The meta track's sample table has neither `stco` nor `co64`.
    MissingChunkOffsets,
    /// The meta track's sample table has no `stsc` box.
    MissingStsc,
    /// Walking the sample-to-chunk table gave `walked` samples, not `count`.
    SampleCountMismatch { walked: u64, count: u64 },
    /// A scanned quaternion lacks one of its four float fields.
    OmittedField,
}

} // verus!
