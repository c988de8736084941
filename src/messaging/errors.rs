use vstd::prelude::*;

verus! {

/// Why a message could not be handed on.
#[derive(Clone, Copy, Debug, PartialEq, Eq, Structural)]
pub enum TxError {
    /// The channel named is not live.
    InvalidChannel,
    /// Nobody is there to take the message.
    NoSubscriber,
}

} // verus!
