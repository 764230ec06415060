//! A glyph for each node of a small test network, by the number at the end
//! of its address.

use vstd::prelude::*;
use vstd::utf8::*;
use crate::peer::Peer;

verus! {

/// The glyphs of the nodes, by their number.
pub const NODES: [char; 33] = [
    '\u{1F98B}',
    '\u{1F336}',
    '\u{1F33D}',
    '\u{1F954}',
    '\u{1F966}',
    '\u{1F9C4}',
    '\u{1F968}',
    '\u{1F354}',
    '\u{1F336}',
    '\u{1F955}',
    '\u{1F346}',
    '\u{1F9C5}',
    '\u{1F952}',
    '\u{1F95C}',
    '\u{1F950}',
    '\u{1F969}',
    '\u{1F360}',
    '\u{1F361}',
    '\u{1F980}',
    '\u{1F9AA}',
    '\u{1F366}',
    '\u{1F370}',
    '\u{1F9C1}',
    '\u{1F36F}',
    '\u{1F377}',
    '\u{1F37A}',
    '\u{1F95B}',
    '\u{1F36B}',
    '\u{1F991}',
    '\u{1F95F}',
    '\u{1F35A}',
    '\u{1F371}',
    '\u{1F355}',
];

/// Whether a byte is a decimal digit.
pub open spec fn is_digit(b: u8) -> bool {
    0x30 <= b <= 0x39
}

/// The number that the last two bytes of an address stand for: two digits,
/// or a `+` and a digit.
pub open spec fn node_number(bytes: Seq<u8>) -> Option<nat> {
    if bytes.len() < 2 {
        None
    } else {
        let high = bytes[bytes.len() - 2];
        let low = bytes[bytes.len() - 1];
        if is_digit(high) && is_digit(low) {
            Some((10 * (high - 0x30) + (low - 0x30)) as nat)
        } else if high == 0x2B && is_digit(low) {
            Some((low - 0x30) as nat)
        } else {
            None
        }
    }
}

/// The glyph of the node with the given address, where the address ends in
/// the number of a node.
pub open spec fn glyph_of(address: Seq<char>) -> Option<char> {
    match node_number(encode_utf8(address)) {
        Some(n) => if n < 33 {
            Some(NODES@[n as int])
        } else {
            None
        },
        None => None,
    }
}

/// The glyph of the node with the given address, if it has one.
pub fn glyph(address: &str) -> (glyph: Option<char>)
    ensures
        glyph == glyph_of(address@),
{
    let bytes = address.as_bytes();
    let n = bytes.len();
    if n < 2 {
        return None;
    }
    let high = bytes[n - 2];
    let low = bytes[n - 1];
    if low < 0x30 || low > 0x39 {
        return None;
    }
    let units = (low - 0x30) as usize;
    let number = if 0x30 <= high && high <= 0x39 {
        10 * ((high - 0x30) as usize) + units
    } else if high == 0x2B {
        units
    } else {
        return None;
    };
    if number < 33 {
        Some(NODES[number])
    } else {
        None
    }
}

/// The glyphs of the given peers, in their order, if each of them has one.
pub fn glyphs(peers: &Vec<Peer>) -> (glyphs: Option<Vec<char>>)
    ensures
        match glyphs {
            Some(all) => all@.len() == peers.len() && forall|i: int|
                0 <= i < peers.len() ==> glyph_of(peers.deep_view()[i].address) == Some(
                    #[trigger] all@[i],
                ),
            None => exists|i: int|
                0 <= i < peers.len() && glyph_of((#[trigger] peers.deep_view()[i]).address) is None,
        },
{
    let mut all: Vec<char> = Vec::new();
    let mut i: usize = 0;
    while i < peers.len()
        invariant
            i <= peers.len(),
            all@.len() == i,
            forall|k: int|
                0 <= k < i ==> glyph_of(peers.deep_view()[k].address) == Some(#[trigger] all@[k]),
        decreases peers.len() - i,
    {
        match glyph(peers[i].address()) {
            Some(g) => all.push(g),
            None => {
                assert(glyph_of(peers.deep_view()[i as int].address) is None);
                return None;
            },
        }
        i += 1;
    }
    Some(all)
}

} // verus!
