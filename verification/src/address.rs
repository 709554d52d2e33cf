//! Validation of recipient address fields.
//!
//! An address travels through the pipeline as its raw 32 key bytes; the
//! base36 rendering used in the interface is decoded once, at
//! validation time, by the chain library.

use vstd::prelude::*;

verus! {

/// What the chain library decodes a base36 address field to: `Some` of
/// the 32 raw key bytes when the field is a well-formed base36 numeral
/// that fits in 32 bytes, `None` otherwise. The result depends on the
/// characters alone.
pub uninterp spec fn address_of(s: Seq<char>) -> Option<Seq<u8>>;

/// Relies on `snap_coin::crypto::keys::Public::new_from_base36` to
/// decide whether an address field parses, and on `Public::dump_buf`
/// for the raw 32 key bytes of the decoded key.
#[verifier::external_body]
pub(crate) fn parse_address(s: &str) -> (r: Option<[u8; 32]>)
    ensures
        r is Some <==> address_of(s@) is Some,
        r matches Some(b) ==> address_of(s@) == Some(b@),
{
    match snap_coin::crypto::keys::Public::new_from_base36(s) {
        Some(p) => Some(*p.dump_buf()),
        None => None,
    }
}

/// Whether an address field is acceptable to the pipeline.
pub open spec fn valid_address(s: Seq<char>) -> bool {
    address_of(s) is Some
}

} // verus!
