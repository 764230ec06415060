//! The peer record and its wire format.

use vstd::prelude::*;
use vstd::slice::slice_subrange;
use vstd::slice::slice_to_vec;
use vstd::std_specs::cmp::PartialEqSpecImpl;
use vstd::utf8::*;
use crate::error::DecodeError;
use crate::text::string_from_utf8;

verus! {

/// The byte between the address of a peer and its age (`,`).
pub const SEPARATOR: u8 = 0x2C;

/// The largest age a peer can reach.
pub const MAX_AGE: u16 = 65535;

/// What a peer is: the characters of its address and its age.
pub struct PeerModel {
    pub address: Seq<char>,
    pub age: u16,
}

/// Information about a peer: the address it listens on, and the number of
/// protocol events since it was last heard of.
#[derive(Debug)]
pub struct Peer {
    address: String,
    age: u16,
}

impl View for Peer {
    type V = PeerModel;

    closed spec fn view(&self) -> PeerModel {
        PeerModel { address: self.address@, age: self.age }
    }
}

impl DeepView for Peer {
    type V = PeerModel;

    open spec fn deep_view(&self) -> PeerModel {
        self@
    }
}

/// The age after one more protocol event: one more, up to the largest age.
pub open spec fn next_age(age: u16) -> u16 {
    if age < MAX_AGE {
        (age + 1) as u16
    } else {
        age
    }
}

/// The wire format of a peer: the UTF-8 bytes of the address, the separator,
/// then the age in two bytes, high byte first.
pub open spec fn encode_peer(p: PeerModel) -> Seq<u8> {
    encode_utf8(p.address) + seq![SEPARATOR, (p.age / 256) as u8, (p.age % 256) as u8]
}

/// Reading of the wire format. The address is what stands before the first
/// separator; exactly two bytes of age must follow it.
pub open spec fn decode_peer(bytes: Seq<u8>) -> Result<PeerModel, DecodeError> {
    match bytes.index_of_first(SEPARATOR) {
        None => Err(DecodeError::MissingSeparator),
        Some(i) => {
            if bytes.len() != i + 3 {
                Err(DecodeError::InvalidAge)
            } else if !valid_utf8(bytes.take(i)) {
                Err(DecodeError::InvalidAddress)
            } else {
                Ok(
                    PeerModel {
                        address: decode_utf8(bytes.take(i)),
                        age: (bytes[i + 1] * 256 + bytes[i + 2]) as u16,
                    },
                )
            }
        },
    }
}

impl Peer {
    /// Creates a new peer with the given address and age 0.
    pub fn new(address: String) -> (peer: Peer)
        ensures
            peer@ == (PeerModel { address: address@, age: 0 }),
    {
        Peer { address, age: 0 }
    }

    /// Increments the age of the peer by one; the largest age stays.
    pub fn increment_age(&mut self)
        ensures
            final(self)@ == (PeerModel { address: old(self)@.address, age: next_age(old(self)@.age) }),
    {
        if self.age < u16::MAX {
            self.age += 1;
        }
    }

    /// Returns the age of the peer.
    pub fn age(&self) -> (age: u16)
        ensures
            age == self@.age,
    {
        self.age
    }

    /// Returns the address of the peer.
    pub fn address(&self) -> (address: &str)
        ensures
            address@ == self@.address,
    {
        self.address.as_str()
    }

    /// Whether the peer listens on the given address.
    pub fn has_address(&self, address: &String) -> (same: bool)
        ensures
            same == (self@.address == address@),
    {
        self.address == *address
    }

    /// Serializes the peer into its wire format.
    pub fn as_bytes(&self) -> (bytes: Vec<u8>)
        ensures
            bytes@ == encode_peer(self@),
    {
        let mut v = slice_to_vec(self.address.as_str().as_bytes());
        v.push(SEPARATOR);
        v.push((self.age / 256) as u8);
        v.push((self.age % 256) as u8);
        assert(v@ =~= encode_peer(self@));
        v
    }

    /// Deserializes a peer from its wire format.
    pub fn from_bytes(bytes: &[u8]) -> (result: Result<Peer, DecodeError>)
        ensures
            match result {
                Ok(peer) => decode_peer(bytes@) == Ok::<PeerModel, DecodeError>(peer@),
                Err(e) => decode_peer(bytes@) == Err::<PeerModel, DecodeError>(e),
            },
    {
        let n = bytes.len();
        let mut index: usize = 0;
        while index < n && bytes[index] != SEPARATOR
            invariant
                n == bytes@.len(),
                index <= n,
                forall|j: int| 0 <= j < index ==> bytes@[j] != SEPARATOR,
            decreases n - index,
        {
            index += 1;
        }
        proof {
            bytes@.index_of_first_ensures(SEPARATOR);
        }
        if index == n {
            return Err(DecodeError::MissingSeparator);
        }
        assert(bytes@.index_of_first(SEPARATOR) == Some(index as int));
        if n - index != 3 {
            return Err(DecodeError::InvalidAge);
        }
        let prefix = slice_to_vec(slice_subrange(bytes, 0, index));
        assert(prefix@ =~= bytes@.take(index as int));
        match string_from_utf8(prefix) {
            None => Err(DecodeError::InvalidAddress),
            Some(address) => {
                let high: u16 = bytes[index + 1] as u16;
                let low: u16 = bytes[index + 2] as u16;
                Ok(Peer { address, age: high * 256 + low })
            },
        }
    }
}

/// The bytes that encode a scalar other than the separator are all other
/// than the separator.
proof fn lemma_scalar_bytes(s: u32)
    by (bit_vector)
    requires
        s != 0x2C,
    ensures
        s <= 0x7F ==> (s & 0x7F) as u8 != 0x2C,
        (0xC0 | ((s >> 6) & 0x1F) as u8) != 0x2C,
        (0xE0 | ((s >> 12) & 0x0F) as u8) != 0x2C,
        (0xF0 | ((s >> 18) & 0x7) as u8) != 0x2C,
        (0x80 | (s & 0x3F) as u8) != 0x2C,
        (0x80 | ((s >> 6) & 0x3F) as u8) != 0x2C,
        (0x80 | ((s >> 12) & 0x3F) as u8) != 0x2C,
{
}

/// An address without `,` is encoded without the separator byte.
pub proof fn lemma_address_bytes_hold_no_separator(address: Seq<char>)
    requires
        !address.contains(','),
    ensures
        !encode_utf8(address).contains(SEPARATOR),
    decreases address.len(),
{
    if address.len() > 0 {
        let first = address[0] as u32;
        let rest = address.drop_first();
        assert(first != 0x2C) by {
            assert(address[0] != ',');
            assert(',' as u32 == 0x2C);
            char_u32_cast(address[0], first);
            char_u32_cast(',', 0x2C);
        }
        assert(!rest.contains(',')) by {
            if rest.contains(',') {
                let j = choose|j: int| 0 <= j < rest.len() && rest[j] == ',';
                assert(address[j + 1] == ',');
            }
        }
        lemma_address_bytes_hold_no_separator(rest);
        lemma_scalar_bytes(first);
        let head = encode_scalar(first);
        let tail = encode_utf8(rest);
        assert(encode_utf8(address) == head + tail);
        assert forall|k: int| 0 <= k < head.len() implies head[k] != SEPARATOR by {}
        if (head + tail).contains(SEPARATOR) {
            let k = choose|k: int| 0 <= k < (head + tail).len() && (head + tail)[k] == SEPARATOR;
            if k >= head.len() {
                assert(tail[k - head.len()] == SEPARATOR);
            }
        }
    }
}

/// Decoding the wire format of a peer gives the peer back, whatever its
/// age, as long as its address holds no `,`.
pub proof fn lemma_peer_round_trip(p: PeerModel)
    requires
        !p.address.contains(','),
    ensures
        decode_peer(encode_peer(p)) == Ok::<PeerModel, DecodeError>(p),
{
    broadcast use {encode_utf8_valid_utf8, encode_utf8_decode_utf8};

    let address = encode_utf8(p.address);
    let bytes = encode_peer(p);
    let i = address.len() as int;
    lemma_address_bytes_hold_no_separator(p.address);
    bytes.index_of_first_ensures(SEPARATOR);
    assert(bytes[i] == SEPARATOR);
    assert forall|j: int| 0 <= j < i implies bytes[j] != SEPARATOR by {
        assert(bytes[j] == address[j]);
    }
    assert(bytes.index_of_first(SEPARATOR) == Some(i));
    assert(bytes.take(i) =~= address);
    assert((p.age / 256) as u8 * 256 + (p.age % 256) as u8 == p.age);
}

impl Clone for Peer {
    fn clone(&self) -> (peer: Peer)
        ensures
            peer == *self,
    {
        Peer { address: self.address.clone(), age: self.age }
    }
}

impl PartialEq for Peer {
    /// Two peers are equal when their addresses are; the age takes no part.
    fn eq(&self, other: &Peer) -> (equal: bool) {
        self.address == other.address
    }
}

impl Eq for Peer {}

impl std::hash::Hash for Peer {
    /// Feeds the address to the hasher, so that equal peers hash alike.
    fn hash<H: std::hash::Hasher>(&self, state: &mut H) {
        self.address.hash(state)
    }
}

impl PartialEqSpecImpl for Peer {
    open spec fn obeys_eq_spec() -> bool {
        true
    }

    open spec fn eq_spec(&self, other: &Peer) -> bool {
        self@.address == other@.address
    }
}

} // verus!
