use vstd::prelude::*;

verus! {

/// The failure modes of the library's fallible operations.
///
/// A caller-supplied argument that violates a precondition is reported as
/// `InvalidParameter`; everything the platform itself rejects is reported as
/// `UnmappedRegion` (an address with no backing mapping) or `SystemCall`
/// (any other refusal, carrying the platform's error code).
#[derive(Clone, Copy, Debug, PartialEq, Eq)]
pub enum Error {
    /// A supplied argument violated a precondition; the payload names the
    /// offending parameter.
    InvalidParameter(&'static str),
    /// The platform reported that an address is not backed by any mapping.
    UnmappedRegion,
    /// The platform rejected the request; the payload is its error code.
    SystemCall(i32),
}

impl Error {
    /// Whether this is the `InvalidParameter` error that names the `size`
    /// parameter: the error every operation returns for a zero-length span,
    /// with the offending parameter named in the payload.
    pub open spec fn is_invalid_size(self) -> bool {
        self matches Error::InvalidParameter(p) && p@ == "size"@
    }
}

} // verus!
