//! Error kinds of the control channel.

use vstd::prelude::*;

verus! {

/// What can go wrong on the channel: the transport failed (a write or read
/// on an endpoint did not complete), a value could not be put into wire form,
/// or a received line did not have the expected shape.
#[derive(Clone, Copy, Debug, PartialEq, Eq, Structural)]
pub enum ChannelError {
    Transport,
    Encode,
    Decode,
}

} // verus!
