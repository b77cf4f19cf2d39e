//! UUID derivation: the two constructions identities are minted by.

use crate::wire::be_bytes;
use vstd::prelude::*;

verus! {

/// The sixteen bytes of the version 5 UUID of `name` under `namespace`.
pub uninterp spec fn uuid_v5(namespace: Seq<u8>, name: Seq<u8>) -> Seq<u8>;

/// The sixteen bytes of a version 7 UUID: the low 48 bits of the millisecond
/// timestamp, most significant byte first, then the ten random bytes with the
/// version (7) in the high half of the first and the variant (binary 10) in the
/// top two bits of the third.
pub open spec fn uuid_v7(millis: u64, random: Seq<u8>) -> Seq<u8> {
    be_bytes((millis as nat) % 0x1_0000_0000_0000, 6) + seq![
        (0x70 + random[0] as int % 16) as u8,
        random[1],
        (0x80 + random[2] as int % 64) as u8,
    ] + random.skip(3)
}

/// Calls `uuid::Uuid::new_v5`. Its result is a hash of the namespace's bytes and
/// the name, so it is a function of the two; which bytes it is stays unstated.
#[verifier::external_body]
pub(crate) fn new_v5(namespace: [u8; 16], name: &[u8]) -> (id: [u8; 16])
    ensures
        id@ == uuid_v5(namespace@, name@),
{
    uuid::Uuid::new_v5(&uuid::Uuid::from_bytes(namespace), name).into_bytes()
}

/// Calls `uuid::Builder::from_unix_timestamp_millis`, which packs the low 48 bits
/// of the timestamp and the ten random bytes, overwriting six of their bits with
/// the version and the variant.
#[verifier::external_body]
pub(crate) fn from_unix_timestamp_millis(millis: u64, random: &[u8; 10]) -> (id: [u8; 16])
    ensures
        id@ == uuid_v7(millis, random@),
{
    uuid::Builder::from_unix_timestamp_millis(millis, random).into_uuid().into_bytes()
}

} // verus!
