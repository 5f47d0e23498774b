//! Messages of the peer wire protocol: a four-byte big-endian length, then an
//! id byte and the payload.
use vstd::prelude::*;
use crate::bencode::encode::append_bytes;

verus! {

/// The four bytes of `x`, most significant first.
pub open spec fn be32(x: u32) -> Seq<u8> {
    seq![(x >> 24u32) as u8, (x >> 16u32) as u8, (x >> 8u32) as u8, x as u8]
}

/// The number whose big-endian bytes are the first four of `b`.
pub open spec fn from_be32(b: Seq<u8>) -> u32 {
    ((b[0] as u32) << 24u32) | ((b[1] as u32) << 16u32) | ((b[2] as u32) << 8u32) | (b[3] as u32)
}

pub proof fn lemma_be32_roundtrip(x: u32)
    ensures
        from_be32(be32(x)) == x,
        be32(x).len() == 4,
{
    let b0 = (x >> 24u32) as u8;
    let b1 = (x >> 16u32) as u8;
    let b2 = (x >> 8u32) as u8;
    let b3 = x as u8;
    assert(((b0 as u32) << 24u32) | ((b1 as u32) << 16u32) | ((b2 as u32) << 8u32) | (b3 as u32)
        == x) by (bit_vector)
        requires
            b0 == (x >> 24u32) as u8,
            b1 == (x >> 16u32) as u8,
            b2 == (x >> 8u32) as u8,
            b3 == x as u8,
    ;
}

/// Big-endian bytes of `x`.
pub fn to_be_bytes(x: u32) -> (r: [u8; 4])
    ensures
        r@ == be32(x),
{
    let r = [(x >> 24u32) as u8, (x >> 16u32) as u8, (x >> 8u32) as u8, x as u8];
    assert(r@ =~= be32(x));
    r
}

/// The number whose big-endian bytes are `b[at..at + 4]`.
pub fn from_be_bytes(b: &[u8], at: usize) -> (r: u32)
    requires
        at + 4 <= b.len(),
    ensures
        r == from_be32(b@.subrange(at as int, at + 4)),
{
    let ghost s = b@.subrange(at as int, at + 4);
    assert(s[0] == b@[at as int] && s[1] == b@[at + 1] && s[2] == b@[at + 2] && s[3] == b@[at + 3]);
    ((b[at] as u32) << 24u32) | ((b[at + 1] as u32) << 16u32) | ((b[at + 2] as u32) << 8u32) | (b[at
        + 3] as u32)
}

#[derive(Debug)]
pub enum Message {
    KeepAlive,
    Choke,
    Unchoke,
    Interested,
    NotInterested,
    Have(u32),
    Bitfield(Vec<u8>),
    Request { index: u32, begin: u32, length: u32 },
    Piece { index: u32, begin: u32, block: Vec<u8> },
    Cancel { index: u32, begin: u32, length: u32 },
}

/// The model of a message: byte buffers as sequences.
pub enum MessageModel {
    KeepAlive,
    Choke,
    Unchoke,
    Interested,
    NotInterested,
    Have(u32),
    Bitfield(Seq<u8>),
    Request { index: u32, begin: u32, length: u32 },
    Piece { index: u32, begin: u32, block: Seq<u8> },
    Cancel { index: u32, begin: u32, length: u32 },
}

impl View for Message {
    type V = MessageModel;

    open spec fn view(&self) -> MessageModel {
        match self {
            Message::KeepAlive => MessageModel::KeepAlive,
            Message::Choke => MessageModel::Choke,
            Message::Unchoke => MessageModel::Unchoke,
            Message::Interested => MessageModel::Interested,
            Message::NotInterested => MessageModel::NotInterested,
            Message::Have(i) => MessageModel::Have(*i),
            Message::Bitfield(b) => MessageModel::Bitfield(b@),
            Message::Request { index, begin, length } => MessageModel::Request {
                index: *index,
                begin: *begin,
                length: *length,
            },
            Message::Piece { index, begin, block } => MessageModel::Piece {
                index: *index,
                begin: *begin,
                block: block@,
            },
            Message::Cancel { index, begin, length } => MessageModel::Cancel {
                index: *index,
                begin: *begin,
                length: *length,
            },
        }
    }
}

/// Why a message payload was refused.
#[derive(Debug, Clone, Copy, PartialEq, Eq, Structural)]
pub enum MessageError {
    /// The payload is empty: there is no id byte.
    IdMissing,
    /// The id byte names no message.
    InvalidId,
}

/// A state message: length 1, then its id.
pub open spec fn state_bytes(id: u8) -> Seq<u8> {
    be32(1) + seq![id]
}

/// A message with three numbers: length 13, the id, then the numbers.
pub open spec fn triple_bytes(id: u8, a: u32, b: u32, c: u32) -> Seq<u8> {
    be32(13) + seq![id] + be32(a) + be32(b) + be32(c)
}

/// The bytes of a message on the wire, length prefix included. A length
/// that does not fit in 32 bits is cut to its low 32 bits.
pub open spec fn message_bytes(m: MessageModel) -> Seq<u8> {
    match m {
        MessageModel::KeepAlive => be32(0),
        MessageModel::Choke => state_bytes(0),
        MessageModel::Unchoke => state_bytes(1),
        MessageModel::Interested => state_bytes(2),
        MessageModel::NotInterested => state_bytes(3),
        MessageModel::Have(i) => be32(5) + seq![4u8] + be32(i),
        MessageModel::Bitfield(b) => be32((1 + b.len()) as u32) + seq![5u8] + b,
        MessageModel::Request { index, begin, length } => triple_bytes(6, index, begin, length),
        MessageModel::Piece { index, begin, block } => be32((9 + block.len()) as u32) + seq![7u8]
            + be32(index) + be32(begin) + block,
        MessageModel::Cancel { index, begin, length } => triple_bytes(8, index, begin, length),
    }
}

/// Payloads too short or too long for their id: a `have` whose payload is
/// not four bytes, a `request` or `cancel` shorter than twelve, a `piece`
/// shorter than eight. They cannot be read at all.
pub open spec fn payload_malformed(buf: Seq<u8>) -> bool {
    buf.len() > 0 && {
        let rest_len = buf.len() - 1;
        ||| buf[0] == 4 && rest_len != 4
        ||| (buf[0] == 6 || buf[0] == 8) && rest_len < 12
        ||| buf[0] == 7 && rest_len < 8
    }
}

/// What a payload (id byte and the bytes after it) reads as.
pub open spec fn decode_payload(buf: Seq<u8>) -> Result<MessageModel, MessageError> {
    if buf.len() == 0 {
        Err(MessageError::IdMissing)
    } else {
        let rest = buf.drop_first();
        if buf[0] == 0 {
            Ok(MessageModel::Choke)
        } else if buf[0] == 1 {
            Ok(MessageModel::Unchoke)
        } else if buf[0] == 2 {
            Ok(MessageModel::Interested)
        } else if buf[0] == 3 {
            Ok(MessageModel::NotInterested)
        } else if buf[0] == 4 {
            Ok(MessageModel::Have(from_be32(rest)))
        } else if buf[0] == 5 {
            Ok(MessageModel::Bitfield(rest))
        } else if buf[0] == 6 {
            Ok(
                MessageModel::Request {
                    index: from_be32(rest),
                    begin: from_be32(rest.skip(4)),
                    length: from_be32(rest.skip(8)),
                },
            )
        } else if buf[0] == 7 {
            Ok(
                MessageModel::Piece {
                    index: from_be32(rest),
                    begin: from_be32(rest.skip(4)),
                    block: rest.skip(8),
                },
            )
        } else if buf[0] == 8 {
            Ok(
                MessageModel::Cancel {
                    index: from_be32(rest),
                    begin: from_be32(rest.skip(4)),
                    length: from_be32(rest.skip(8)),
                },
            )
        } else {
            Err(MessageError::InvalidId)
        }
    }
}

/// What the body of a frame reads as: an empty body is a keep-alive.
pub open spec fn decode_frame_body(body: Seq<u8>) -> Result<MessageModel, MessageError> {
    if body.len() == 0 {
        Ok(MessageModel::KeepAlive)
    } else {
        decode_payload(body)
    }
}

/// The buffer sizes of a message fit in the 32-bit length prefix.
pub open spec fn message_fits(m: MessageModel) -> bool {
    match m {
        MessageModel::Bitfield(b) => 1 + b.len() <= u32::MAX,
        MessageModel::Piece { block, .. } => 9 + block.len() <= u32::MAX,
        _ => true,
    }
}

pub open spec fn result_view(r: Result<Message, MessageError>) -> Result<MessageModel, MessageError> {
    match r {
        Ok(m) => Ok(m@),
        Err(e) => Err(e),
    }
}

impl Message {
    /// The bytes of the message on the wire.
    pub fn encode(&self) -> (r: Vec<u8>)
        requires
            match self {
                Message::Bitfield(b) => b.len() + 9 <= usize::MAX,
                Message::Piece { block, .. } => block.len() + 9 <= usize::MAX,
                _ => true,
            },
        ensures
            r@ == message_bytes(self@),
    {
        match self {
            Message::KeepAlive => Self::encode_keep_alive(),
            Message::Choke => Self::encode_state(0),
            Message::Unchoke => Self::encode_state(1),
            Message::Interested => Self::encode_state(2),
            Message::NotInterested => Self::encode_state(3),
            Message::Have(piece_index) => Self::encode_have(*piece_index),
            Message::Bitfield(bitfield) => Self::encode_bitfield(bitfield.as_slice()),
            Message::Request { index, begin, length } => Self::encode_request(
                *index,
                *begin,
                *length,
            ),
            Message::Piece { index, begin, block } => Self::encode_piece(
                *index,
                *begin,
                block.as_slice(),
            ),
            Message::Cancel { index, begin, length } => Self::encode_cancel(
                *index,
                *begin,
                *length,
            ),
        }
    }

    fn encode_keep_alive() -> (r: Vec<u8>)
        ensures
            r@ == be32(0),
    {
        let mut buf = Vec::new();
        append_bytes(&mut buf, &to_be_bytes(0));
        buf
    }

    fn encode_state(id: u8) -> (r: Vec<u8>)
        ensures
            r@ == state_bytes(id),
    {
        let mut buf = Vec::new();
        append_bytes(&mut buf, &to_be_bytes(1));
        buf.push(id);
        buf
    }

    fn encode_have(piece_index: u32) -> (r: Vec<u8>)
        ensures
            r@ == be32(5) + seq![4u8] + be32(piece_index),
    {
        let mut buf = Vec::new();
        append_bytes(&mut buf, &to_be_bytes(5));
        buf.push(4);
        append_bytes(&mut buf, &to_be_bytes(piece_index));
        buf
    }

    fn encode_bitfield(bitfield: &[u8]) -> (r: Vec<u8>)
        requires
            bitfield.len() + 9 <= usize::MAX,
        ensures
            r@ == be32((1 + bitfield@.len()) as u32) + seq![5u8] + bitfield@,
    {
        let mut buf = Vec::new();
        let length = 1 + bitfield.len();
        append_bytes(&mut buf, &to_be_bytes(length as u32));
        buf.push(5);
        append_bytes(&mut buf, bitfield);
        buf
    }

    fn encode_request(index: u32, begin: u32, length: u32) -> (r: Vec<u8>)
        ensures
            r@ == triple_bytes(6, index, begin, length),
    {
        Self::encode_triple(6, index, begin, length)
    }

    fn encode_piece(index: u32, begin: u32, block: &[u8]) -> (r: Vec<u8>)
        requires
            block.len() + 9 <= usize::MAX,
        ensures
            r@ == be32((9 + block@.len()) as u32) + seq![7u8] + be32(index) + be32(begin) + block@,
    {
        let mut buf = Vec::new();
        let length = 9 + block.len();
        append_bytes(&mut buf, &to_be_bytes(length as u32));
        buf.push(7);
        append_bytes(&mut buf, &to_be_bytes(index));
        append_bytes(&mut buf, &to_be_bytes(begin));
        append_bytes(&mut buf, block);
        buf
    }

    fn encode_cancel(index: u32, begin: u32, length: u32) -> (r: Vec<u8>)
        ensures
            r@ == triple_bytes(8, index, begin, length),
    {
        Self::encode_triple(8, index, begin, length)
    }

    fn encode_triple(id: u8, a: u32, b: u32, c: u32) -> (r: Vec<u8>)
        ensures
            r@ == triple_bytes(id, a, b, c),
    {
        let mut buf = Vec::new();
        append_bytes(&mut buf, &to_be_bytes(13));
        buf.push(id);
        append_bytes(&mut buf, &to_be_bytes(a));
        append_bytes(&mut buf, &to_be_bytes(b));
        append_bytes(&mut buf, &to_be_bytes(c));
        buf
    }

    /// Whether the payload has the wrong size for its id.
    pub fn is_malformed(buf: &[u8]) -> (r: bool)
        ensures
            r == payload_malformed(buf@),
    {
        if buf.len() == 0 {
            return false;
        }
        let id = buf[0];
        let rest_len = buf.len() - 1;
        (id == 4 && rest_len != 4) || ((id == 6 || id == 8) && rest_len < 12) || (id == 7
            && rest_len < 8)
    }

    /// Reads a payload: the id byte and what follows it.
    pub fn decode(buf: &[u8]) -> (r: Result<Message, MessageError>)
        requires
            !payload_malformed(buf@),
        ensures
            result_view(r) == decode_payload(buf@),
    {
        if buf.len() == 0 {
            return Err(MessageError::IdMissing);
        }
        let id = buf[0];
        let ghost rest = buf@.drop_first();
        proof {
            if buf.len() >= 13 {
                assert(from_be32(rest) == from_be32(buf@.subrange(1, 5)));
                assert(from_be32(rest.skip(4)) == from_be32(buf@.subrange(5, 9)));
                assert(from_be32(rest.skip(8)) == from_be32(buf@.subrange(9, 13)));
            } else if buf.len() >= 9 {
                assert(from_be32(rest) == from_be32(buf@.subrange(1, 5)));
                assert(from_be32(rest.skip(4)) == from_be32(buf@.subrange(5, 9)));
            }
            if buf.len() >= 9 {
                assert(rest.skip(8) =~= buf@.skip(9));
            }
        }
        if id == 0 {
            Ok(Message::Choke)
        } else if id == 1 {
            Ok(Message::Unchoke)
        } else if id == 2 {
            Ok(Message::Interested)
        } else if id == 3 {
            Ok(Message::NotInterested)
        } else if id == 4 {
            Ok(Self::decode_have(buf))
        } else if id == 5 {
            Ok(Self::decode_bitfield(buf))
        } else if id == 6 {
            Ok(Self::decode_request(buf))
        } else if id == 7 {
            Ok(Self::decode_piece(buf))
        } else if id == 8 {
            Ok(Self::decode_cancel(buf))
        } else {
            Err(MessageError::InvalidId)
        }
    }

    fn decode_have(buf: &[u8]) -> (r: Message)
        requires
            buf.len() == 5,
        ensures
            r@ == MessageModel::Have(from_be32(buf@.drop_first())),
    {
        let piece_index = from_be_bytes(buf, 1);
        assert(buf@.subrange(1, 5) =~= buf@.drop_first());
        Message::Have(piece_index)
    }

    fn decode_bitfield(buf: &[u8]) -> (r: Message)
        requires
            buf.len() >= 1,
        ensures
            r@ == MessageModel::Bitfield(buf@.drop_first()),
    {
        let mut bytes = Vec::new();
        let mut i: usize = 1;
        while i < buf.len()
            invariant
                1 <= i <= buf.len(),
                bytes@ == buf@.subrange(1, i as int),
            decreases buf.len() - i,
        {
            bytes.push(buf[i]);
            i = i + 1;
            assert(buf@.subrange(1, i as int) =~= buf@.subrange(1, i - 1).push(buf@[i - 1]));
        }
        assert(buf@.subrange(1, buf.len() as int) =~= buf@.drop_first());
        Message::Bitfield(bytes)
    }

    fn decode_request(buf: &[u8]) -> (r: Message)
        requires
            buf.len() >= 13,
        ensures
            r@ == (MessageModel::Request {
                index: from_be32(buf@.subrange(1, 5)),
                begin: from_be32(buf@.subrange(5, 9)),
                length: from_be32(buf@.subrange(9, 13)),
            }),
    {
        let index = from_be_bytes(buf, 1);
        let begin = from_be_bytes(buf, 5);
        let length = from_be_bytes(buf, 9);
        Message::Request { index, begin, length }
    }

    fn decode_piece(buf: &[u8]) -> (r: Message)
        requires
            buf.len() >= 9,
        ensures
            r@ == (MessageModel::Piece {
                index: from_be32(buf@.subrange(1, 5)),
                begin: from_be32(buf@.subrange(5, 9)),
                block: buf@.skip(9),
            }),
    {
        let index = from_be_bytes(buf, 1);
        let begin = from_be_bytes(buf, 5);
        let mut block = Vec::new();
        let mut i: usize = 9;
        while i < buf.len()
            invariant
                9 <= i <= buf.len(),
                block@ == buf@.subrange(9, i as int),
            decreases buf.len() - i,
        {
            block.push(buf[i]);
            i = i + 1;
            assert(buf@.subrange(9, i as int) =~= buf@.subrange(9, i - 1).push(buf@[i - 1]));
        }
        assert(buf@.subrange(9, buf.len() as int) =~= buf@.skip(9));
        Message::Piece { index, begin, block }
    }

    fn decode_cancel(buf: &[u8]) -> (r: Message)
        requires
            buf.len() >= 13,
        ensures
            r@ == (MessageModel::Cancel {
                index: from_be32(buf@.subrange(1, 5)),
                begin: from_be32(buf@.subrange(5, 9)),
                length: from_be32(buf@.subrange(9, 13)),
            }),
    {
        let index = from_be_bytes(buf, 1);
        let begin = from_be_bytes(buf, 5);
        let length = from_be_bytes(buf, 9);
        Message::Cancel { index, begin, length }
    }

    /// The length that a frame's four-byte prefix announces.
    pub fn frame_length(header: &[u8]) -> (r: u32)
        requires
            header.len() == 4,
        ensures
            r == from_be32(header@),
    {
        assert(header@.subrange(0, 4) =~= header@);
        from_be_bytes(header, 0)
    }

    /// Reads the body of a frame, the bytes after its length prefix.
    pub fn decode_frame(body: &[u8]) -> (r: Result<Message, MessageError>)
        requires
            !payload_malformed(body@),
        ensures
            result_view(r) == decode_frame_body(body@),
    {
        if body.len() == 0 {
            Ok(Message::KeepAlive)
        } else {
            Self::decode(body)
        }
    }
}

/// Every message reads back from the bytes that the writer gives for it:
/// the body after the four-byte prefix decodes to the same message (a
/// keep-alive is the empty body; any other message is a payload that `decode`
/// reads back), and where the sizes fit in 32 bits the prefix announces the
/// length of the body.
pub proof fn law_message_roundtrip(m: MessageModel)
    ensures
        message_bytes(m).len() >= 4,
        message_fits(m) ==> from_be32(message_bytes(m)) == message_bytes(m).len() - 4,
        !payload_malformed(message_bytes(m).skip(4)),
        decode_frame_body(message_bytes(m).skip(4)) == Ok::<MessageModel, MessageError>(m),
        !(m is KeepAlive) ==> decode_payload(message_bytes(m).skip(4)) == Ok::<
            MessageModel,
            MessageError,
        >(m),
{
    let e = message_bytes(m);
    let body = e.skip(4);
    match m {
        MessageModel::KeepAlive => {
            lemma_be32_roundtrip(0);
        },
        MessageModel::Choke | MessageModel::Unchoke | MessageModel::Interested
        | MessageModel::NotInterested => {
            lemma_be32_roundtrip(1);
        },
        MessageModel::Have(i) => {
            lemma_be32_roundtrip(5);
            lemma_be32_roundtrip(i);
            assert(body.drop_first() =~= be32(i));
        },
        MessageModel::Bitfield(b) => {
            lemma_be32_roundtrip((1 + b.len()) as u32);
            assert(body.drop_first() =~= b);
        },
        MessageModel::Request { index, begin, length } | MessageModel::Cancel {
            index,
            begin,
            length,
        } => {
            lemma_be32_roundtrip(13);
            lemma_be32_roundtrip(index);
            lemma_be32_roundtrip(begin);
            lemma_be32_roundtrip(length);
            let rest = body.drop_first();
            assert(rest =~= be32(index) + be32(begin) + be32(length));
            assert(rest.skip(4) =~= be32(begin) + be32(length));
            assert(rest.skip(8) =~= be32(length));
            assert(from_be32(rest) == from_be32(be32(index)));
            assert(from_be32(rest.skip(4)) == from_be32(be32(begin)));
        },
        MessageModel::Piece { index, begin, block } => {
            lemma_be32_roundtrip((9 + block.len()) as u32);
            lemma_be32_roundtrip(index);
            lemma_be32_roundtrip(begin);
            let rest = body.drop_first();
            assert(rest =~= be32(index) + be32(begin) + block);
            assert(rest.skip(4) =~= be32(begin) + block);
            assert(rest.skip(8) =~= block);
            assert(from_be32(rest) == from_be32(be32(index)));
            assert(from_be32(rest.skip(4)) == from_be32(be32(begin)));
        },
    }
}

} // verus!
