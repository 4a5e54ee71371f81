//! A compact, deterministic binary serialization core built from two
//! interleaved sub-streams: a bit-granular stream for small tag fields and a
//! byte-granular stream for bulk payload. Every value has exactly one valid
//! encoding; any other byte sequence that would decode to the same value is
//! rejected, so encoded bytes are safe to compare for equality or to use as
//! content identifiers without decoding.

use vstd::prelude::*;

pub mod binary;
pub mod bits;
pub mod codec;
pub mod error;
pub mod fast;
pub mod read_writer;

verus! {

/// Largest value a `U56` may hold: `2^56 - 1`.
pub const U56_MAX: u64 = 0x00ff_ffff_ffff_ffff;

/// An unsigned integer restricted to 56 bits.
///
/// The range invariant is established at construction; encoding a `U56`
/// therefore never fails.
#[derive(Clone, Copy, Debug, PartialEq, Eq, PartialOrd, Ord, Hash)]
pub struct U56(pub u64);

impl U56 {
    /// The value is always within the 56-bit range.
    pub open spec fn wf(self) -> bool {
        self.0 <= U56_MAX
    }

    pub open spec fn spec_value(&self) -> u64 {
        self.0
    }

    /// The underlying 64-bit value.
    #[verifier::when_used_as_spec(spec_value)]
    pub fn value(&self) -> (r: u64)
        ensures
            r == self.0,
    {
        self.0
    }

    /// Accepts exactly the values that fit in 56 bits.
    pub fn try_new(value: u64) -> (r: Result<Self, ()>)
        ensures
            value <= U56_MAX <==> r == Ok::<U56, ()>(U56(value)),
            value > U56_MAX <==> r is Err,
    {
        if value > U56_MAX {
            Err(())
        } else {
            Ok(U56(value))
        }
    }
}

impl TryFrom<u64> for U56 {
    type Error = ();

    /// Accepts exactly the values that fit in 56 bits.
    fn try_from(value: u64) -> (r: Result<Self, ()>) {
        if value > U56_MAX {
            Err(())
        } else {
            Ok(U56(value))
        }
    }
}

impl vstd::std_specs::convert::TryFromSpecImpl<u64> for U56 {
    open spec fn obeys_try_from_spec() -> bool {
        true
    }

    open spec fn try_from_spec(v: u64) -> Result<Self, ()> {
        if v > U56_MAX {
            Err(())
        } else {
            Ok(U56(v))
        }
    }
}

} // verus!
