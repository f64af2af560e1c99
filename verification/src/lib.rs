pub mod bitstream;
pub mod huffman;
pub mod lz77;
pub mod lzw;

use vstd::prelude::*;

verus! {

/// Errors surfaced by the decoders and table builders.
#[derive(Clone, Copy, Debug, PartialEq, Eq, Structural)]
pub enum CodecError {
    /// A reader was asked for more bits than remain.
    UnexpectedEof,
    /// A decoder found a self-inconsistent header or stream.
    CorruptStream,
    /// A table build was asked for more symbols than the code length bound can represent.
    TooManySymbols,
}

} // verus!
