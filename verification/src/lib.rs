//! Rate-1/R, constraint-length-K convolutional codes: a streaming bit-level
//! encoder and a hard-decision Viterbi decoder, together with the bit-packed
//! I/O layer and the derived tables (polynomial expansion, paired-state
//! distance table, sliding-window survivor history) that they are built on.

pub mod bit;
pub mod bits;
pub mod decoder;
pub mod encoder;
pub mod shim;
pub mod util;

use vstd::prelude::*;

verus! {

/// An encoder and a decoder built from the same `(R, K, polys)`, as the
/// opaque-handle facade pairs them.
pub struct Convolutional {
    pub encoder: encoder::Encoder,
    pub decoder: decoder::Decoder,
}

} // verus!
