//! The transports a connection can use, and the framing of the plain v1 transport: a
//! 24-byte header (magic, command, length, checksum), then the payload.

use vstd::bytes::{spec_u32_from_le_bytes, spec_u32_to_le_bytes};
use vstd::prelude::*;

use crate::encoding::read_u32;
use crate::primitives::{sha256d, spec_sha256d};

verus! {

/// Bitcoin Core `MAX_PROTOCOL_MESSAGE_LENGTH`: the largest payload a frame may announce.
pub const MAX_PAYLOAD_LEN: usize = 4_000_000;

/// The length of a v1 frame header.
pub const HEADER_LEN: usize = 24;

/// Why a frame header is refused, before its payload is read.
#[derive(Debug, Clone, Copy, PartialEq, Eq)]
pub enum FrameError {
    /// The frame belongs to another network.
    WrongMagic { found: [u8; 4], expected: [u8; 4] },
    /// The payload would exceed the limit.
    TooLarge { len: usize, limit: usize },
    /// The frame holds another number of payload bytes than its header announces.
    WrongLength { announced: usize, payload: usize },
    /// The checksum is not the first four bytes of the payload's double SHA-256.
    BadChecksum,
    /// The payload does not decode as the message its command names.
    Undecodable,
}

/// The payload length a frame header announces, once the magic is ours and the length is
/// within the limit; checked before anything is allocated for the payload. The checksum and
/// the command are checked when the whole frame is decoded.
pub fn payload_len(header: &[u8], magic: [u8; 4]) -> (r: Result<usize, FrameError>)
    requires
        header@.len() == HEADER_LEN,
    ensures
        header@.subrange(0, 4) != magic@ ==> (r matches Err(FrameError::WrongMagic { found, expected }) && found@
            == header@.subrange(0, 4) && expected == magic),
        header@.subrange(0, 4) == magic@ ==> match r {
            Ok(n) => n <= MAX_PAYLOAD_LEN && header@.subrange(16, 20) == spec_u32_to_le_bytes(n as u32),
            Err(FrameError::TooLarge { len, limit }) => len > MAX_PAYLOAD_LEN && limit == MAX_PAYLOAD_LEN
                && header@.subrange(16, 20) == spec_u32_to_le_bytes(len as u32) && len <= u32::MAX,
            Err(_) => false,
        },
{
    let found: [u8; 4] = [header[0], header[1], header[2], header[3]];
    proof {
        assert(found@ =~= header@.subrange(0, 4));
    }
    if found[0] != magic[0] || found[1] != magic[1] || found[2] != magic[2] || found[3] != magic[3] {
        proof {
            if header@.subrange(0, 4) == magic@ {
                assert(found@[0] == magic@[0] && found@[1] == magic@[1] && found@[2] == magic@[2] && found@[3] == magic@[3]);
            }
        }
        return Err(FrameError::WrongMagic { found, expected: magic });
    }
    proof {
        assert(found@ =~= magic@);
    }
    let (len, _) = match read_u32(header, 16) {
        Some(x) => x,
        None => return Err(FrameError::TooLarge { len: 0, limit: MAX_PAYLOAD_LEN }),
    };
    let len = len as usize;
    if len > MAX_PAYLOAD_LEN {
        return Err(FrameError::TooLarge { len, limit: MAX_PAYLOAD_LEN });
    }
    Ok(len)
}

/// The checksum a frame carries for its payload: the first four bytes of its double SHA-256.
pub open spec fn spec_checksum(payload: Seq<u8>) -> Seq<u8> {
    spec_sha256d(payload).subrange(0, 4)
}

/// The payload length a frame header announces.
pub open spec fn announced_len(frame: Seq<u8>) -> nat {
    spec_u32_from_le_bytes(frame.subrange(16, 20)) as nat
}

/// A whole frame that is ours: our magic, a length within the limit, as many payload bytes
/// as announced, and the checksum of those bytes.
pub open spec fn frame_valid(frame: Seq<u8>, magic: [u8; 4]) -> bool {
    &&& frame.len() >= HEADER_LEN
    &&& frame.subrange(0, 4) == magic@
    &&& announced_len(frame) <= MAX_PAYLOAD_LEN
    &&& frame.len() == HEADER_LEN + announced_len(frame)
    &&& frame.subrange(20, 24) == spec_checksum(frame.subrange(24, frame.len() as int))
}

/// Why a frame that is not valid is refused, checked in this order: another network's magic,
/// a length over the limit, another number of payload bytes than announced, a bad checksum.
pub open spec fn refused_as(frame: Seq<u8>, magic: [u8; 4], e: FrameError) -> bool {
    let n = announced_len(frame);
    if frame.subrange(0, 4) != magic@ {
        e matches FrameError::WrongMagic { found, expected } && found@ == frame.subrange(0, 4) && expected == magic
    } else if n > MAX_PAYLOAD_LEN {
        e matches FrameError::TooLarge { len, limit } && len == n && limit == MAX_PAYLOAD_LEN
    } else if frame.len() != HEADER_LEN + n {
        e matches FrameError::WrongLength { announced, payload } && announced == n && payload == frame.len() - HEADER_LEN
    } else {
        e == FrameError::BadChecksum
    }
}

/// Checks a whole frame: its header as `payload_len` does, then that it holds exactly the
/// payload bytes announced, then the checksum. Gives the payload length.
pub fn check_frame(frame: &[u8], magic: [u8; 4]) -> (r: Result<usize, FrameError>)
    requires
        frame@.len() >= HEADER_LEN,
    ensures
        r is Ok <==> frame_valid(frame@, magic),
        r is Ok ==> r->Ok_0 == announced_len(frame@) && frame@.len() == HEADER_LEN + r->Ok_0,
        r is Err ==> refused_as(frame@, magic, r->Err_0),
{
    proof {
        vstd::bytes::lemma_auto_spec_u32_to_from_le_bytes();
    }
    let header = vstd::slice::slice_subrange(frame, 0, HEADER_LEN);
    proof {
        assert(header@.subrange(0, 4) =~= frame@.subrange(0, 4));
        assert(header@.subrange(16, 20) =~= frame@.subrange(16, 20));
    }
    let n = match payload_len(header, magic) {
        Ok(n) => n,
        Err(e) => return Err(e),
    };
    if frame.len() - HEADER_LEN != n {
        return Err(FrameError::WrongLength { announced: n, payload: frame.len() - HEADER_LEN });
    }
    let payload = vstd::slice::slice_subrange(frame, HEADER_LEN, frame.len());
    let digest = sha256d(payload);
    if digest[0] != frame[20] || digest[1] != frame[21] || digest[2] != frame[22] || digest[3] != frame[23] {
        proof {
            if frame@.subrange(20, 24) == spec_checksum(frame@.subrange(24, frame@.len() as int)) {
                assert(frame@.subrange(20, 24)[0] == frame@[20]);
                assert(frame@.subrange(20, 24)[1] == frame@[21]);
                assert(frame@.subrange(20, 24)[2] == frame@[22]);
                assert(frame@.subrange(20, 24)[3] == frame@[23]);
            }
        }
        return Err(FrameError::BadChecksum);
    }
    proof {
        assert(frame@.subrange(20, 24) =~= spec_checksum(frame@.subrange(24, frame@.len() as int)));
    }
    Ok(n)
}

/// A message of the bitcoin crate's peer protocol.
#[verifier::external_type_specification]
#[verifier::external_body]
pub struct ExNetworkMessage(bitcoin::p2p::message::NetworkMessage);

/// `bitcoin::consensus::encode::deserialize::<RawNetworkMessage>` of a whole frame, then
/// `RawNetworkMessage::into_payload`: the message the frame's command names, decoded from its
/// payload, or `None` when the decoder returns an error. Nothing is claimed of the message,
/// which is an outside value.
#[verifier::external_body]
fn decode_frame(frame: &[u8]) -> (r: Option<bitcoin::p2p::message::NetworkMessage>) {
    match bitcoin::consensus::encode::deserialize::<bitcoin::p2p::message::RawNetworkMessage>(frame) {
        Ok(raw) => Some(raw.into_payload()),
        Err(_) => None,
    }
}

/// Reads a whole v1 frame: `check_frame`, then the payload decoded as its command says. A
/// frame `check_frame` refuses gives its error and is not decoded; a valid frame whose
/// payload the decoder refuses gives `Undecodable`.
pub fn read_frame(frame: &[u8], magic: [u8; 4]) -> (r: Result<bitcoin::p2p::message::NetworkMessage, FrameError>)
    requires
        frame@.len() >= HEADER_LEN,
    ensures
        r is Ok ==> frame_valid(frame@, magic),
        r matches Err(FrameError::Undecodable) ==> frame_valid(frame@, magic),
        r is Err && !(r->Err_0 is Undecodable) ==> !frame_valid(frame@, magic) && refused_as(frame@, magic, r->Err_0),
        !frame_valid(frame@, magic) ==> r is Err,
{
    match check_frame(frame, magic) {
        Ok(_) => {},
        Err(e) => return Err(e),
    }
    match decode_frame(frame) {
        Some(message) => Ok(message),
        None => Err(FrameError::Undecodable),
    }
}

/// Which transport a connection ended up using.
#[derive(Debug, Clone, Copy, PartialEq, Eq, Structural)]
pub enum TransportKind {
    V1,
}

impl TransportKind {
    /// The transport's name, as logs show it.
    pub fn name(self) -> (r: &'static str)
        ensures
            r@ == "v1"@,
    {
        "v1"
    }
}

/// Which transports to use when connecting.
#[derive(Debug, Clone, Copy, PartialEq, Eq, Structural)]
pub enum TransportPolicy {
    /// Plain, unencrypted transport only.
    V1,
}

impl Default for TransportPolicy {
    fn default() -> (r: TransportPolicy)
        ensures
            r == TransportPolicy::V1,
    {
        TransportPolicy::V1
    }
}

} // verus!
