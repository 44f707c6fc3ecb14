use vstd::prelude::*;

verus! {

/// The receiving end of a transport that brings a payload in several parts. It holds
/// no state: a decoder of Uniform Resources only carries it along.
pub struct FountainDecoder {}

impl FountainDecoder {
    /// A decoder that has received nothing.
    pub fn new() -> (decoder: FountainDecoder) {
        FountainDecoder {}
    }
}

impl Default for FountainDecoder {
    /// A decoder that has received nothing.
    fn default() -> (decoder: FountainDecoder) {
        FountainDecoder {}
    }
}

} // verus!
