//! The message envelope and its wire format.

use vstd::prelude::*;
use vstd::slice::slice_subrange;
use vstd::slice::slice_to_vec;
use vstd::utf8::*;
use crate::error::DecodeError;
use crate::peer::decode_peer;
use crate::peer::encode_peer;
use crate::peer::lemma_peer_round_trip;
use crate::peer::Peer;
use crate::peer::PeerModel;
use crate::text::string_from_utf8;

verus! {

/// The first byte of a request.
pub const MSG_TYPE_REQ: u8 = 0x80;

/// The first byte of a response.
pub const MSG_TYPE_RESP: u8 = 0x00;

/// The bit of the first byte that tells requests from responses.
pub const MASK_MSG_TYPE: u8 = 0x80;

/// Whether a message opens an exchange or answers one.
#[derive(Debug, Clone, Copy, PartialEq, Eq, Structural)]
pub enum MessageType {
    Request,
    Response,
}

/// What a message is: the address its sender listens on, its type, and the
/// view that it carries, if any. An empty view is not an absent one.
pub struct MessageModel {
    pub sender: Seq<char>,
    pub message_type: MessageType,
    pub view: Option<Seq<PeerModel>>,
}

/// A message exchanged between two nodes.
#[derive(Debug)]
pub struct Message {
    sender: String,
    message_type: MessageType,
    view: Option<Vec<Peer>>,
}

impl DeepView for Message {
    type V = MessageModel;

    closed spec fn deep_view(&self) -> MessageModel {
        MessageModel {
            sender: self.sender@,
            message_type: self.message_type,
            view: self.view.deep_view(),
        }
    }
}

/// The first byte of a frame: the type flag in the high bit, the rest zero.
pub open spec fn type_byte(t: MessageType) -> u8 {
    match t {
        MessageType::Request => MSG_TYPE_REQ,
        MessageType::Response => MSG_TYPE_RESP,
    }
}

/// The type that a first byte stands for. Only the high bit counts.
pub open spec fn type_of_byte(b: u8) -> MessageType {
    if b >= MASK_MSG_TYPE {
        MessageType::Request
    } else {
        MessageType::Response
    }
}

/// A length as it is written in a frame: in one byte.
pub open spec fn length_byte(n: nat) -> u8 {
    (n % 256) as u8
}

/// One peer of a frame: the length of its encoding, then the encoding.
pub open spec fn peer_frame(p: PeerModel) -> Seq<u8> {
    seq![length_byte(encode_peer(p).len())] + encode_peer(p)
}

/// The peers of a frame, one after the other.
pub open spec fn encode_peers(peers: Seq<PeerModel>) -> Seq<u8>
    decreases peers.len(),
{
    if peers.len() == 0 {
        Seq::empty()
    } else {
        encode_peers(peers.drop_last()) + peer_frame(peers.last())
    }
}

/// The view of a frame: the number of peers, then the peers. An absent view
/// is written as a count of zero.
pub open spec fn encode_view(view: Option<Seq<PeerModel>>) -> Seq<u8> {
    match view {
        None => seq![0u8],
        Some(peers) => seq![length_byte(peers.len())] + encode_peers(peers),
    }
}

/// The wire format of a message: the type byte, the length of the sender's
/// address, the address in UTF-8, and the view.
pub open spec fn encode_message(m: MessageModel) -> Seq<u8> {
    seq![type_byte(m.message_type), length_byte(encode_utf8(m.sender).len())] + encode_utf8(
        m.sender,
    ) + encode_view(m.view)
}

/// Reading of `count` peers that start at `start`. The first peer that
/// cannot be read decides the error: `Truncated` where a length runs past the
/// end of the buffer, `InvalidPeer` where the bytes are no peer.
pub open spec fn decode_peers(bytes: Seq<u8>, start: int, count: nat) -> Result<
    Seq<PeerModel>,
    DecodeError,
>
    decreases count,
{
    if count == 0 {
        Ok(Seq::empty())
    } else if start >= bytes.len() || start + 1 + bytes[start] > bytes.len() {
        Err(DecodeError::Truncated)
    } else {
        let end = start + 1 + bytes[start];
        match decode_peer(bytes.subrange(start + 1, end)) {
            Err(_) => Err(DecodeError::InvalidPeer),
            Ok(p) => match decode_peers(bytes, end, (count - 1) as nat) {
                Err(e) => Err(e),
                Ok(rest) => Ok(seq![p] + rest),
            },
        }
    }
}

/// Reading of a frame. The low seven bits of the first byte are ignored, and
/// so is whatever follows the last peer. A count of zero gives an absent view.
pub open spec fn decode_message(bytes: Seq<u8>) -> Result<MessageModel, DecodeError> {
    if bytes.len() < 2 || 2 + bytes[1] > bytes.len() {
        Err(DecodeError::Truncated)
    } else {
        let view_at = 2 + bytes[1];
        let sender = bytes.subrange(2, view_at);
        if !valid_utf8(sender) {
            Err(DecodeError::InvalidAddress)
        } else if view_at >= bytes.len() {
            Err(DecodeError::Truncated)
        } else if bytes[view_at] == 0 {
            Ok(
                MessageModel {
                    sender: decode_utf8(sender),
                    message_type: type_of_byte(bytes[0]),
                    view: None,
                },
            )
        } else {
            match decode_peers(bytes, view_at + 1, bytes[view_at] as nat) {
                Err(e) => Err(e),
                Ok(peers) => Ok(
                    MessageModel {
                        sender: decode_utf8(sender),
                        message_type: type_of_byte(bytes[0]),
                        view: Some(peers),
                    },
                ),
            }
        }
    }
}

/// A peer that a frame can carry and give back: its address holds no `,`
/// and its encoding is at most 255 bytes long.
pub open spec fn peer_fits_frame(p: PeerModel) -> bool {
    !p.address.contains(',') && encode_peer(p).len() <= 255
}

/// A message that a frame can carry and give back: the sender's address is
/// at most 255 bytes long and the view, if there is one, holds between 1 and
/// 255 peers that each fit.
pub open spec fn message_fits_frame(m: MessageModel) -> bool {
    &&& encode_utf8(m.sender).len() <= 255
    &&& match m.view {
        None => true,
        Some(peers) => {
            &&& 1 <= peers.len() <= 255
            &&& forall|i: int| 0 <= i < peers.len() ==> peer_fits_frame(#[trigger] peers[i])
        },
    }
}

/// The encoding of some peers starts with the frame of the first.
proof fn lemma_encode_peers_front(peers: Seq<PeerModel>)
    requires
        peers.len() > 0,
    ensures
        encode_peers(peers) == peer_frame(peers.first()) + encode_peers(peers.drop_first()),
    decreases peers.len(),
{
    if peers.len() == 1 {
        assert(encode_peers(peers.drop_last()) == Seq::<u8>::empty());
        assert(encode_peers(peers.drop_first()) == Seq::<u8>::empty());
        assert(encode_peers(peers) =~= peer_frame(peers.first()) + encode_peers(
            peers.drop_first(),
        ));
    } else {
        let shorter = peers.drop_last();
        lemma_encode_peers_front(shorter);
        assert(shorter.drop_first() =~= peers.drop_first().drop_last());
        assert(peers.drop_first().last() == peers.last());
        assert(encode_peers(peers) =~= peer_frame(peers.first()) + encode_peers(
            peers.drop_first(),
        ));
    }
}

/// Peers that fit are read back from where their encoding stands.
proof fn lemma_decode_encoded_peers(bytes: Seq<u8>, start: int, peers: Seq<PeerModel>)
    requires
        0 <= start,
        start + encode_peers(peers).len() <= bytes.len(),
        bytes.subrange(start, start + encode_peers(peers).len()) == encode_peers(peers),
        forall|i: int| 0 <= i < peers.len() ==> peer_fits_frame(#[trigger] peers[i]),
    ensures
        decode_peers(bytes, start, peers.len()) == Ok::<Seq<PeerModel>, DecodeError>(peers),
    decreases peers.len(),
{
    if peers.len() > 0 {
        let first = peers.first();
        let rest = peers.drop_first();
        let encoded = encode_peers(peers);
        lemma_encode_peers_front(peers);
        assert(peer_fits_frame(first));
        let body = encode_peer(first);
        let end = start + 1 + body.len();
        assert(bytes[start] == encoded[0]);
        assert(encoded[0] == length_byte(body.len()));
        assert(bytes.subrange(start + 1, end) =~= body) by {
            assert forall|k: int| 0 <= k < body.len() implies bytes[start + 1 + k] == body[k] by {
                assert(bytes[start + 1 + k] == encoded[1 + k]);
            }
        }
        lemma_peer_round_trip(first);
        assert(bytes.subrange(end, end + encode_peers(rest).len()) =~= encode_peers(rest)) by {
            assert forall|k: int| 0 <= k < encode_peers(rest).len() implies bytes[end + k]
                == encode_peers(rest)[k] by {
                assert(bytes[end + k] == encoded[1 + body.len() + k]);
            }
        }
        assert forall|i: int| 0 <= i < rest.len() implies peer_fits_frame(#[trigger] rest[i]) by {
            assert(rest[i] == peers[i + 1]);
        }
        lemma_decode_encoded_peers(bytes, end, rest);
        assert(seq![first] + rest =~= peers);
    } else {
        assert(peers =~= Seq::<PeerModel>::empty());
    }
}

/// Decoding the wire format of a message gives the message back, as long as
/// the message fits a frame.
pub proof fn lemma_message_round_trip(m: MessageModel)
    requires
        message_fits_frame(m),
    ensures
        decode_message(encode_message(m)) == Ok::<MessageModel, DecodeError>(m),
{
    broadcast use {encode_utf8_valid_utf8, encode_utf8_decode_utf8};

    let sender = encode_utf8(m.sender);
    let bytes = encode_message(m);
    let view_at = 2 + sender.len() as int;
    assert(bytes[1] == sender.len());
    assert(bytes.subrange(2, view_at) =~= sender);
    match m.message_type {
        MessageType::Request => {},
        MessageType::Response => {},
    }
    match m.view {
        None => {},
        Some(peers) => {
            assert(bytes[view_at] == peers.len());
            let encoded = encode_peers(peers);
            assert(bytes.subrange(view_at + 1, view_at + 1 + encoded.len()) =~= encoded);
            lemma_decode_encoded_peers(bytes, view_at + 1, peers);
        },
    }
}

impl Message {
    /// A request from `sender`, with its view or without one (a probe).
    pub fn new_request(sender: String, view: Option<Vec<Peer>>) -> (message: Message)
        ensures
            message.deep_view() == (MessageModel {
                sender: sender@,
                message_type: MessageType::Request,
                view: view.deep_view(),
            }),
    {
        Self::new(sender, MessageType::Request, view)
    }

    /// A response from `sender`, with its view or without one.
    pub fn new_response(sender: String, view: Option<Vec<Peer>>) -> (message: Message)
        ensures
            message.deep_view() == (MessageModel {
                sender: sender@,
                message_type: MessageType::Response,
                view: view.deep_view(),
            }),
    {
        Self::new(sender, MessageType::Response, view)
    }

    /// A message of the given type.
    pub fn new(sender: String, message_type: MessageType, view: Option<Vec<Peer>>) -> (message:
        Message)
        ensures
            message.deep_view() == (MessageModel {
                sender: sender@,
                message_type,
                view: view.deep_view(),
            }),
    {
        Message { sender, message_type, view }
    }

    /// The address the sender listens on.
    pub fn sender(&self) -> (sender: &str)
        ensures
            sender@ == self.deep_view().sender,
    {
        self.sender.as_str()
    }

    /// The type of the message.
    pub fn message_type(&self) -> (message_type: &MessageType)
        ensures
            *message_type == self.deep_view().message_type,
    {
        &self.message_type
    }

    /// The view that the message carries, if any.
    pub fn view(&self) -> (view: &Option<Vec<Peer>>)
        ensures
            view.deep_view() == self.deep_view().view,
    {
        &self.view
    }

    /// Serializes the message into its wire format.
    pub fn as_bytes(&self) -> (bytes: Vec<u8>)
        ensures
            bytes@ == encode_message(self.deep_view()),
    {
        let mut buffer: Vec<u8> = Vec::new();
        match self.message_type {
            MessageType::Request => buffer.push(MSG_TYPE_REQ),
            MessageType::Response => buffer.push(MSG_TYPE_RESP),
        }
        let sender = self.sender.as_str().as_bytes();
        buffer.push((sender.len() % 256) as u8);
        buffer.extend_from_slice(sender);
        let ghost header = buffer@;
        assert(header =~= seq![
            type_byte(self.message_type),
            length_byte(encode_utf8(self.sender@).len()),
        ] + encode_utf8(self.sender@));
        match &self.view {
            None => {
                buffer.push(0);
                assert(buffer@ =~= header + encode_view(None));
            },
            Some(peers) => {
                buffer.push((peers.len() % 256) as u8);
                let ghost models = peers.deep_view();
                let mut i: usize = 0;
                while i < peers.len()
                    invariant
                        i <= peers.len(),
                        models == peers.deep_view(),
                        buffer@ == header + seq![length_byte(models.len())] + encode_peers(
                            models.take(i as int),
                        ),
                    decreases peers.len() - i,
                {
                    let mut encoded = peers[i].as_bytes();
                    buffer.push((encoded.len() % 256) as u8);
                    buffer.append(&mut encoded);
                    proof {
                        let next = models.take(i + 1);
                        assert(next.drop_last() =~= models.take(i as int));
                        assert(next.last() == peers@[i as int]@);
                        assert(buffer@ =~= header + seq![length_byte(models.len())]
                            + encode_peers(next));
                    }
                    i += 1;
                }
                assert(models.take(i as int) =~= models);
                assert(buffer@ =~= header + encode_view(Some(models)));
            },
        }
        buffer
    }

    /// Deserializes a message from its wire format.
    pub fn from_bytes(bytes: &[u8]) -> (result: Result<Message, DecodeError>)
        ensures
            match result {
                Ok(message) => decode_message(bytes@) == Ok::<MessageModel, DecodeError>(
                    message.deep_view(),
                ),
                Err(e) => decode_message(bytes@) == Err::<MessageModel, DecodeError>(e),
            },
    {
        let n = bytes.len();
        if n < 2 {
            return Err(DecodeError::Truncated);
        }
        let message_type = if bytes[0] >= MASK_MSG_TYPE {
            MessageType::Request
        } else {
            MessageType::Response
        };
        let sender_size = bytes[1] as usize;
        if sender_size > n - 2 {
            return Err(DecodeError::Truncated);
        }
        let view_at = 2 + sender_size;
        let sender = match string_from_utf8(slice_to_vec(slice_subrange(bytes, 2, view_at))) {
            None => {
                return Err(DecodeError::InvalidAddress);
            },
            Some(sender) => sender,
        };
        if view_at >= n {
            return Err(DecodeError::Truncated);
        }
        let view_size = bytes[view_at];
        if view_size == 0 {
            return Ok(Message { sender, message_type, view: None });
        }
        let mut index: usize = view_at + 1;
        let mut peers: Vec<Peer> = Vec::new();
        let mut read: u8 = 0;
        while read < view_size
            invariant
                n == bytes@.len(),
                view_at < index <= n,
                read <= view_size,
                decode_message(bytes@) == match decode_peers(
                    bytes@,
                    view_at + 1,
                    view_size as nat,
                ) {
                    Err(e) => Err::<MessageModel, DecodeError>(e),
                    Ok(all) => Ok(
                        MessageModel { sender: sender@, message_type, view: Some(all) },
                    ),
                },
                decode_peers(bytes@, view_at + 1, view_size as nat) == match decode_peers(
                    bytes@,
                    index as int,
                    (view_size - read) as nat,
                ) {
                    Err(e) => Err::<Seq<PeerModel>, DecodeError>(e),
                    Ok(rest) => Ok(peers.deep_view() + rest),
                },
            decreases view_size - read,
        {
            if index >= n {
                return Err(DecodeError::Truncated);
            }
            let peer_length = bytes[index] as usize;
            if peer_length > n - index - 1 {
                return Err(DecodeError::Truncated);
            }
            let end = index + 1 + peer_length;
            let ghost before = peers.deep_view();
            match Peer::from_bytes(slice_subrange(bytes, index + 1, end)) {
                Err(_) => {
                    return Err(DecodeError::InvalidPeer);
                },
                Ok(peer) => {
                    peers.push(peer);
                    proof {
                        let p = peer@;
                        assert(peers.deep_view() =~= before + seq![p]);
                        match decode_peers(bytes@, end as int, (view_size - read - 1) as nat) {
                            Err(_) => {},
                            Ok(rest) => {
                                assert(before + (seq![p] + rest) =~= peers.deep_view() + rest);
                            },
                        }
                    }
                },
            }
            index = end;
            read += 1;
        }
        assert(peers.deep_view() + Seq::<PeerModel>::empty() =~= peers.deep_view());
        Ok(Message { sender, message_type, view: Some(peers) })
    }
}

} // verus!
