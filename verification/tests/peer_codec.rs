use gbps::DecodeError;
use gbps::Peer;

fn peer_of(address: &str, age: u16) -> Peer {
    let mut bytes = address.as_bytes().to_vec();
    bytes.push(b',');
    bytes.push((age >> 8) as u8);
    bytes.push((age & 0xFF) as u8);
    Peer::from_bytes(&bytes).unwrap()
}

#[test]
fn new_peer_has_age_zero() {
    let peer = Peer::new("127.0.0.1:9000".to_owned());
    assert_eq!(peer.address(), "127.0.0.1:9000");
    assert_eq!(peer.age(), 0);
}

#[test]
fn increment_age_adds_one() {
    let mut peer = Peer::new("127.0.0.1:9000".to_owned());
    peer.increment_age();
    assert_eq!(peer.age(), 1);
    peer.increment_age();
    assert_eq!(peer.age(), 2);
    assert_eq!(peer.address(), "127.0.0.1:9000");
}

#[test]
fn increment_age_saturates() {
    let mut peer = peer_of("127.0.0.1:9000", 65534);
    peer.increment_age();
    assert_eq!(peer.age(), 65535);
    peer.increment_age();
    assert_eq!(peer.age(), 65535);
}

#[test]
fn peer_encoding_layout() {
    let peer = Peer::new("[::1]:80".to_owned());
    assert_eq!(peer.as_bytes(), vec![b'[', b':', b':', b'1', b']', b':', b'8', b'0', 0x2C, 0, 0]);
    let aged = peer_of("ab", 0x1234);
    assert_eq!(aged.as_bytes(), vec![b'a', b'b', 0x2C, 0x12, 0x34]);
}

#[test]
fn peer_decoding_reads_address_and_age() {
    let peer = Peer::from_bytes(&[b'a', b'b', 0x2C, 0x01, 0x02]).unwrap();
    assert_eq!(peer.address(), "ab");
    assert_eq!(peer.age(), 258);
}

#[test]
fn peer_decoding_of_empty_address() {
    let peer = Peer::from_bytes(&[0x2C, 0xFF, 0xFF]).unwrap();
    assert_eq!(peer.address(), "");
    assert_eq!(peer.age(), 65535);
}

#[test]
fn peer_round_trip() {
    for age in [0u16, 1, 255, 256, 4660, 65534, 65535] {
        for address in ["127.0.0.1:9000", "[::1]:9001", "", "h\u{f6}st:1", "\u{65e5}\u{672c}:7"] {
            let peer = peer_of(address, age);
            let decoded = Peer::from_bytes(&peer.as_bytes()).unwrap();
            assert_eq!(decoded.address(), address);
            assert_eq!(decoded.age(), age);
        }
    }
}

#[test]
fn peer_without_separator_is_refused() {
    assert_eq!(Peer::from_bytes(b"127.0.0.1:9000").unwrap_err(), DecodeError::MissingSeparator);
    assert_eq!(Peer::from_bytes(&[]).unwrap_err(), DecodeError::MissingSeparator);
}

#[test]
fn peer_with_wrong_age_length_is_refused() {
    assert_eq!(Peer::from_bytes(b"a,").unwrap_err(), DecodeError::InvalidAge);
    assert_eq!(Peer::from_bytes(b"a,1").unwrap_err(), DecodeError::InvalidAge);
    assert_eq!(Peer::from_bytes(b"a,123").unwrap_err(), DecodeError::InvalidAge);
}

#[test]
fn separator_in_age_counts_from_the_first() {
    // the age bytes may be the separator themselves
    let peer = Peer::from_bytes(&[b'a', 0x2C, 0x2C, 0x2C]).unwrap();
    assert_eq!(peer.address(), "a");
    assert_eq!(peer.age(), 0x2C2C);
    // a separator inside the address cuts the address short
    assert_eq!(Peer::from_bytes(b"a,b,12").unwrap_err(), DecodeError::InvalidAge);
}

#[test]
fn peer_with_invalid_utf8_is_refused() {
    assert_eq!(
        Peer::from_bytes(&[0xFF, 0xFE, 0x2C, 0, 0]).unwrap_err(),
        DecodeError::InvalidAddress
    );
    assert_eq!(Peer::from_bytes(&[0xC3, 0x2C, 0, 0]).unwrap_err(), DecodeError::InvalidAddress);
}

#[test]
fn age_length_is_checked_before_the_address() {
    assert_eq!(Peer::from_bytes(&[0xFF, 0x2C, 0]).unwrap_err(), DecodeError::InvalidAge);
}

#[test]
fn peers_are_equal_by_address() {
    let young = peer_of("127.0.0.1:9000", 1);
    let old = peer_of("127.0.0.1:9000", 500);
    let other = peer_of("127.0.0.1:9001", 1);
    assert_eq!(young, old);
    assert_ne!(young, other);
    assert!(young.has_address(&"127.0.0.1:9000".to_owned()));
    assert!(!young.has_address(&"127.0.0.1:9001".to_owned()));
}

#[test]
fn equal_peers_hash_alike() {
    let mut set = std::collections::HashSet::new();
    set.insert(peer_of("127.0.0.1:9000", 1));
    set.insert(peer_of("127.0.0.1:9000", 7));
    set.insert(peer_of("127.0.0.1:9001", 7));
    assert_eq!(set.len(), 2);
}

#[test]
fn clone_keeps_address_and_age() {
    let peer = peer_of("127.0.0.1:9000", 77);
    let copy = peer.clone();
    assert_eq!(copy.address(), "127.0.0.1:9000");
    assert_eq!(copy.age(), 77);
}

#[test]
fn decode_error_messages() {
    assert_eq!(DecodeError::InvalidAge.message(), "invalid age");
    assert_eq!(DecodeError::MissingSeparator.message(), "peer separator not found");
    assert_eq!(DecodeError::InvalidType.message(), "invalid message type");
    assert_eq!(DecodeError::Truncated.message(), "truncated message");
    assert_eq!(DecodeError::InvalidPeer.message(), "invalid peer");
    assert_eq!(DecodeError::InvalidAddress.message(), "invalid address");
}
