//! The binary wire format: one type byte, a four-byte little-endian payload
//! length, then the payload.
use vstd::prelude::*;
use vstd::string::*;

use crate::utf8_stream::std_from_utf8;

verus! {

broadcast use vstd::seq_lib::group_seq_properties;

/// Largest single message.
pub const MAX_MESSAGE_SIZE: usize = 1048576;

/// Frame type bytes.
pub const TYPE_OUTPUT: u8 = 0x01;

pub const TYPE_RESIZE: u8 = 0x02;

pub const TYPE_INPUT: u8 = 0x03;

pub const TYPE_WINDOW_SWITCH: u8 = 0x04;

pub const TYPE_STATS: u8 = 0x05;

pub const TYPE_PING: u8 = 0x06;

pub const TYPE_PONG: u8 = 0x07;

/// Binary protocol message types.
#[derive(Debug, Clone, Copy, PartialEq, Eq, Structural)]
pub enum BinaryMessageType {
    Output,
    Resize,
    Input,
    WindowSwitch,
    Stats,
    Ping,
    Pong,
}

pub open spec fn type_byte_spec(t: BinaryMessageType) -> u8 {
    match t {
        BinaryMessageType::Output => TYPE_OUTPUT,
        BinaryMessageType::Resize => TYPE_RESIZE,
        BinaryMessageType::Input => TYPE_INPUT,
        BinaryMessageType::WindowSwitch => TYPE_WINDOW_SWITCH,
        BinaryMessageType::Stats => TYPE_STATS,
        BinaryMessageType::Ping => TYPE_PING,
        BinaryMessageType::Pong => TYPE_PONG,
    }
}

impl BinaryMessageType {
    /// The byte that tags this message type on the wire.
    pub fn type_byte(self) -> (r: u8)
        ensures
            r == type_byte_spec(self),
    {
        match self {
            BinaryMessageType::Output => TYPE_OUTPUT,
            BinaryMessageType::Resize => TYPE_RESIZE,
            BinaryMessageType::Input => TYPE_INPUT,
            BinaryMessageType::WindowSwitch => TYPE_WINDOW_SWITCH,
            BinaryMessageType::Stats => TYPE_STATS,
            BinaryMessageType::Ping => TYPE_PING,
            BinaryMessageType::Pong => TYPE_PONG,
        }
    }

    /// The message type a tag byte stands for.
    pub fn from_byte(b: u8) -> (r: Option<BinaryMessageType>)
        ensures
            match r {
                Some(t) => type_byte_spec(t) == b,
                None => !(1 <= b <= 7),
            },
    {
        if b == TYPE_OUTPUT {
            Some(BinaryMessageType::Output)
        } else if b == TYPE_RESIZE {
            Some(BinaryMessageType::Resize)
        } else if b == TYPE_INPUT {
            Some(BinaryMessageType::Input)
        } else if b == TYPE_WINDOW_SWITCH {
            Some(BinaryMessageType::WindowSwitch)
        } else if b == TYPE_STATS {
            Some(BinaryMessageType::Stats)
        } else if b == TYPE_PING {
            Some(BinaryMessageType::Ping)
        } else if b == TYPE_PONG {
            Some(BinaryMessageType::Pong)
        } else {
            None
        }
    }
}

/// The four little-endian bytes of `n`.
pub open spec fn le32(n: u32) -> Seq<u8> {
    seq![
        (n % 256) as u8,
        ((n / 256) % 256) as u8,
        ((n / 65536) % 256) as u8,
        ((n / 16777216) % 256) as u8,
    ]
}

/// The value of four little-endian bytes.
pub open spec fn le32_value(b: Seq<u8>) -> int {
    b[0] + 256 * b[1] + 65536 * b[2] + 16777216 * b[3]
}

/// A frame: type byte, payload length (as a `u32`, little-endian), payload.
pub open spec fn frame_spec(msg_type: u8, payload: Seq<u8>) -> Seq<u8> {
    seq![msg_type] + le32(payload.len() as u32) + payload
}

fn push_le32(out: &mut Vec<u8>, n: u32)
    ensures
        final(out)@ == old(out)@ + le32(n),
{
    out.push((n % 256) as u8);
    out.push(((n / 256) % 256) as u8);
    out.push(((n / 65536) % 256) as u8);
    out.push(((n / 16777216) % 256) as u8);
    proof {
        assert(final(out)@ =~= old(out)@ + le32(n));
    }
}

/// Frames `payload` under `msg_type`.
pub fn encode_frame(msg_type: u8, payload: &[u8]) -> (r: Vec<u8>)
    ensures
        r@ == frame_spec(msg_type, payload@),
{
    let mut out: Vec<u8> = Vec::new();
    out.push(msg_type);
    push_le32(&mut out, payload.len() as u32);
    out.extend_from_slice(payload);
    proof {
        assert(out@ =~= frame_spec(msg_type, payload@));
    }
    out
}

/// Frames terminal output text as an output message.
pub fn encode_terminal_output(text: &str) -> (r: Vec<u8>)
    ensures
        r@ == frame_spec(TYPE_OUTPUT, text.spec_bytes()),
{
    encode_frame(TYPE_OUTPUT, text.as_bytes())
}


/// Largest piece of output sent in one message on the text path.
pub const MAX_OUTPUT_CHUNK: usize = 32768;

/// `data` cut into consecutive pieces of `max` bytes (the last may be
/// shorter).
pub open spec fn chunks_spec(data: Seq<u8>, max: nat) -> Seq<Seq<u8>>
    decreases data.len(),
{
    if data.len() == 0 || max == 0 {
        seq![]
    } else if data.len() <= max {
        seq![data]
    } else {
        seq![data.subrange(0, max as int)] + chunks_spec(data.subrange(max as int, data.len() as int), max)
    }
}

/// Cuts `data` into pieces of at most `max` bytes, in order.
pub fn split_output(data: &[u8], max: usize) -> (r: Vec<Vec<u8>>)
    requires
        max > 0,
    ensures
        r@.map_values(|c: Vec<u8>| c@) == chunks_spec(data@, max as nat),
{
    let mut out: Vec<Vec<u8>> = Vec::new();
    let mut start: usize = 0;
    proof {
        assert(data@.subrange(0, data@.len() as int) =~= data@);
        assert(out@.map_values(|c: Vec<u8>| c@) =~= Seq::<Seq<u8>>::empty());
        assert(Seq::<Seq<u8>>::empty() + chunks_spec(data@, max as nat) =~= chunks_spec(
            data@,
            max as nat,
        ));
    }
    while start < data.len()
        invariant
            start <= data@.len(),
            max > 0,
            out@.map_values(|c: Vec<u8>| c@) + chunks_spec(
                data@.subrange(start as int, data@.len() as int),
                max as nat,
            ) == chunks_spec(data@, max as nat),
        decreases data@.len() - start,
    {
        let rest = data.len() - start;
        let end = if rest <= max { data.len() } else { start + max };
        let mut piece: Vec<u8> = Vec::new();
        piece.extend_from_slice(vstd::slice::slice_subrange(data, start, end));
        proof {
            let tail = data@.subrange(start as int, data@.len() as int);
            assert(piece@ =~= data@.subrange(start as int, end as int));
            assert(tail.subrange(0, (end - start) as int) =~= piece@);
            assert(tail.subrange((end - start) as int, tail.len() as int) =~= data@.subrange(
                end as int,
                data@.len() as int,
            ));
            if rest <= max {
                assert(tail =~= piece@);
                assert(data@.subrange(end as int, data@.len() as int) =~= Seq::<u8>::empty());
                assert(chunks_spec(Seq::<u8>::empty(), max as nat) =~= Seq::<Seq<u8>>::empty());
            }
            assert(out@.push(piece).map_values(|c: Vec<u8>| c@) =~= out@.map_values(|c: Vec<u8>| c@).push(
                piece@,
            ));
            assert(out@.map_values(|c: Vec<u8>| c@).push(piece@) + chunks_spec(
                data@.subrange(end as int, data@.len() as int),
                max as nat,
            ) =~= out@.map_values(|c: Vec<u8>| c@) + chunks_spec(tail, max as nat));
        }
        out.push(piece);
        start = end;
    }
    proof {
        assert(data@.subrange(start as int, data@.len() as int) =~= Seq::<u8>::empty());
        assert(out@.map_values(|c: Vec<u8>| c@) + Seq::<Seq<u8>>::empty() =~= out@.map_values(
            |c: Vec<u8>| c@,
        ));
    }
    out
}

/// A message received on the binary path.
pub enum BinaryRequest {
    /// Keyboard input text.
    Input(String),
    /// A ping to answer with a pong.
    Ping,
    /// An input frame whose payload is not UTF-8.
    InvalidInput,
    /// Anything else: empty, unknown, or an input frame too short for its
    /// length field.
    Ignored,
}

/// The payload of an input frame, if the frame holds a length field and at
/// least that many payload bytes.
pub open spec fn input_payload(data: Seq<u8>) -> Option<Seq<u8>> {
    if data.len() > 5 && data[0] == TYPE_INPUT && data.len() >= 5 + le32_value(data.subrange(1, 5)) {
        Some(data.subrange(5, 5 + le32_value(data.subrange(1, 5))))
    } else {
        None
    }
}

/// Reads a binary message from a client.
pub fn parse_binary_message(data: &[u8]) -> (r: BinaryRequest)
    ensures
        data@.len() > 0 && data@[0] == TYPE_PING <==> r is Ping,
        match input_payload(data@) {
            Some(p) => match r {
                BinaryRequest::Input(s) => vstd::utf8::valid_utf8(p) && s@ == vstd::utf8::decode_utf8(
                    p,
                ),
                BinaryRequest::InvalidInput => !vstd::utf8::valid_utf8(p),
                _ => false,
            },
            None => r is Ping || r is Ignored,
        },
{
    if data.len() == 0 {
        return BinaryRequest::Ignored;
    }
    if data[0] == TYPE_PING {
        return BinaryRequest::Ping;
    }
    if data[0] == TYPE_INPUT && data.len() > 5 {
        let len: usize = data[1] as usize + 256 * (data[2] as usize) + 65536 * (data[3] as usize)
            + 16777216 * (data[4] as usize);
        proof {
            assert(data@.subrange(1, 5)[0] == data@[1]);
            assert(data@.subrange(1, 5)[1] == data@[2]);
            assert(data@.subrange(1, 5)[2] == data@[3]);
            assert(data@.subrange(1, 5)[3] == data@[4]);
        }
        if len <= data.len() - 5 {
            let payload = vstd::slice::slice_subrange(data, 5, 5 + len);
            match std_from_utf8(payload) {
                Ok(s) => {
                    let mut text = String::new();
                    text.append(s);
                    proof {
                        assert(text@ =~= s@);
                    }
                    return BinaryRequest::Input(text);
                },
                Err(_) => {
                    return BinaryRequest::InvalidInput;
                },
            }
        }
    }
    BinaryRequest::Ignored
}

} // verus!
