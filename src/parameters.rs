//! Parameters handed to the simulation once, when it starts.
use vstd::prelude::*;

verus! {

/// The seed from which the simulation draws its initial state.
#[derive(Clone, Copy, Debug, Default, PartialEq, Eq, Structural)]
pub struct InitParametersUniformBufferContent {
    pub seed: u32,
}

} // verus!
