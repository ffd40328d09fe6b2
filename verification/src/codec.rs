//! The payload codecs that clients and servers can agree on.

use vstd::prelude::*;

verus! {

/// Payloads as JSON text.
pub struct JsonCodec {}

/// Payloads in the compact binary format.
pub struct BinCodec {}

} // verus!
