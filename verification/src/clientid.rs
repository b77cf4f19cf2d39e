//! ClientId: a per-replica UUIDv7 identity.
//!
//! One connection holds a replica per subscribed channel, and every replica is its
//! own author. [`for_channel`](ClientId::for_channel) derives a channel's replica
//! identity from the connection's, so the authorship spaces stay disjoint across
//! the channels of one session.

use crate::host::Host;
use crate::ids::{from_unix_timestamp_millis, new_v5, uuid_v5, uuid_v7};
use crate::wire::{be_array, be_bits, be_bytes, be_value};
use vstd::prelude::*;

verus! {

/// A replica's identity: sixteen bytes, held as the number they spell most
/// significant byte first, so the order of the numbers is the order of the bytes.
#[derive(Clone, Copy, PartialEq, Eq, Hash, Debug, PartialOrd, Ord, Structural)]
pub struct ClientId {
    pub bits: u128,
}

/// The id whose sixteen bytes are `bytes`.
pub open spec fn client_id_of(bytes: Seq<u8>) -> ClientId {
    ClientId { bits: be_value(bytes) as u128 }
}

impl ClientId {
    /// The sixteen bytes of the id.
    pub open spec fn bytes(self) -> Seq<u8> {
        be_bytes(self.bits as nat, 16)
    }

    /// Mint a fresh identity from the host's clock and entropy. The id is the
    /// UUIDv7 of some timestamp and ten random bytes.
    pub fn generate<H: Host>(host: &H) -> (id: Self)
        ensures
            exists|millis: u64, random: Seq<u8>|
                random.len() == 10 && id.bytes() == #[trigger] uuid_v7(millis, random),
    {
        let mut buf: Vec<u8> = vec![0u8; 10];
        host.entropy(buf.as_mut_slice());
        let millis: u64 = host.now_unix_millis();
        let mut random: [u8; 10] = [0u8;10];
        let mut i: usize = 0;
        while i < 10
            invariant
                buf@.len() == 10,
            decreases 10 - i,
        {
            random[i] = buf[i];
            i += 1;
        }
        let id = Self::from_parts(millis, &random);
        proof {
            assert(id.bytes() == uuid_v7(millis, random@));
        }
        id
    }

    /// The UUIDv7 of a millisecond timestamp and ten random bytes.
    pub fn from_parts(millis: u64, random: &[u8; 10]) -> (id: Self)
        ensures
            id.bytes() == uuid_v7(millis, random@),
    {
        Self::from_bytes(from_unix_timestamp_millis(millis, random))
    }

    /// The id whose bytes are `bytes`, taken as they are.
    pub fn from_bytes(bytes: [u8; 16]) -> (id: Self)
        ensures
            id.bytes() == bytes@,
            id == client_id_of(bytes@),
    {
        ClientId { bits: be_bits(&bytes) }
    }

    /// The replica identity a connection's channel authors under.
    pub open spec fn on_channel(self, channel: u32) -> ClientId {
        if channel == 0 {
            self
        } else {
            client_id_of(uuid_v5(self.bytes(), be_bytes(channel as nat, 4)))
        }
    }

    /// The replica identity a connection's `channel` authors under: the declared
    /// id itself for channel 0, else the UUIDv5 of the channel number's four
    /// big-endian bytes under it.
    pub fn for_channel(&self, channel: u32) -> (id: Self)
        ensures
            id == self.on_channel(channel),
            channel == 0 ==> id == *self,
            channel != 0 ==> id.bytes() == uuid_v5(self.bytes(), be_bytes(channel as nat, 4)),
    {
        if channel == 0 {
            *self
        } else {
            let name: [u8; 4] = [
                (channel / 0x100_0000) as u8,
                ((channel / 0x1_0000) % 0x100) as u8,
                ((channel / 0x100) % 0x100) as u8,
                (channel % 0x100) as u8,
            ];
            proof {
                reveal_with_fuel(be_bytes, 5);
                assert(name@ =~= be_bytes(channel as nat, 4));
            }
            Self::from_bytes(new_v5(self.as_bytes(), &name))
        }
    }

    /// The id's sixteen bytes.
    pub fn as_bytes(&self) -> (bytes: [u8; 16])
        ensures
            bytes@ == self.bytes(),
    {
        be_array(self.bits)
    }
}

} // verus!
