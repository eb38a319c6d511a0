//! Chat-signing data as it travels in packets.

use vstd::prelude::*;

verus! {

/// A signature with the salt it was made with.
#[derive(Clone, Debug)]
pub struct SaltSignaturePair {
    pub salt: u64,
    pub signature: Vec<u8>,
}

/// The signature of a chat message.
#[derive(Clone, Debug)]
pub struct MessageSignature {
    pub bytes: Vec<u8>,
}

impl Default for MessageSignature {
    /// The empty signature.
    fn default() -> (s: Self)
        ensures
            s.bytes@.len() == 0,
    {
        MessageSignature { bytes: Vec::new() }
    }
}

} // verus!
