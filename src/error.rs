use vstd::prelude::*;

verus! {

/// Every way in which reading or writing a point cloud can fail.
#[derive(Debug, PartialEq, Eq, Structural)]
pub enum PcdError {
    /// The header is malformed; the payload is the 1-based line number.
    Header(usize),
    /// The declared field at this index has an unsupported size/type pair,
    /// or the record stride does not fit in memory.
    Layout(usize),
    /// An ascii record is malformed: line index and physical field index.
    Decode(usize, usize),
    /// A binary payload is shorter than required: expected and actual bytes.
    TruncatedData(usize, usize),
    /// A compressed block does not have the announced size: expected and actual bytes.
    Decompression(usize, usize),
    /// A column does not hold the element type that the operation asked for.
    TypeMismatch(usize),
    /// The compressor could not produce a block for this payload.
    Compression,
    /// Column `index` holds `actual` elements where `expected` were required.
    LengthMismatch(usize, usize, usize),
}

} // verus!
