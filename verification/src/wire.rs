//! TCP on the wire.

use vstd::prelude::*;

verus! {

/// A TCP sequence number.
#[derive(Debug, PartialEq, Eq, Structural, Clone, Copy)]
pub struct TcpSeqNumber(pub i32);

} // verus!
