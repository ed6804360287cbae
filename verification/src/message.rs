//! The interface shared by HTTP requests and responses: serialization,
//! header access and body access.

use vstd::prelude::*;

use crate::common::Version;

verus! {

/// What an HTTP message can do: serialize itself onto a byte buffer, and
/// read or grow its headers and body. The inherent methods of `Request`
/// and `Response` carry the exact contracts; this trait carries the shape.
pub trait Message {
    /// Serializes the message onto the end of `buf`.
    fn send(&mut self, buf: &mut Vec<u8>);

    /// The stored value of the header named exactly `key`, if any.
    fn header_line(&self, key: &str) -> Option<&String>;

    /// Stores `value` under the header name `key`.
    fn with_header(&mut self, key: String, value: String);

    /// The protocol version of the message.
    fn version(&self) -> Version;

    /// The message's body bytes, if it has a body.
    fn body(&self) -> Option<&Vec<u8>>;

    /// Replaces the message's body with the given bytes.
    fn with_body(&mut self, bytes: &[u8])
        requires
            bytes@.len() <= 0x7fff_ffff,
    ;
}

} // verus!
