//! Which origins may make cross-origin requests.

use crate::text::{bytes_equal, starts_with};
use vstd::prelude::*;
use vstd::string::StringSliceAdditionalSpecFns;

verus! {

/// An origin that begins with this is a page served from the local machine.
pub const LOCAL_ORIGIN_PREFIX: &'static str = "http://localhost";

/// What a browser sends as its origin when it has none to give, or will not
/// say.
pub const OPAQUE_ORIGIN: &'static str = "null";

/// Whether the policy lets `origin` in: it begins with the local prefix, or
/// it is the opaque origin and nothing more.
pub open spec fn allows_origin(origin: Seq<u8>) -> bool {
    ||| LOCAL_ORIGIN_PREFIX.spec_bytes().is_prefix_of(origin)
    ||| origin == OPAQUE_ORIGIN.spec_bytes()
}

/// Decides whether a request from `origin`, given as the bytes of its
/// `Origin` header, is let in.
pub fn origin_allowed(origin: &[u8]) -> (allowed: bool)
    ensures
        allowed == allows_origin(origin@),
{
    starts_with(origin, LOCAL_ORIGIN_PREFIX.as_bytes()) || bytes_equal(
        origin,
        OPAQUE_ORIGIN.as_bytes(),
    )
}

} // verus!
