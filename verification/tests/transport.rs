use bitcoin::p2p::message::{NetworkMessage, RawNetworkMessage};
use bitcoin::p2p::Magic;
use rust_btcd::p2p::transport::{check_frame, payload_len, read_frame, FrameError, HEADER_LEN, MAX_PAYLOAD_LEN};

const MAGIC: Magic = Magic::REGTEST;

fn frame(message: NetworkMessage) -> Vec<u8> {
    bitcoin::consensus::serialize(&RawNetworkMessage::new(MAGIC, message))
}

#[test]
fn roundtrip() {
    let bytes = frame(NetworkMessage::Ping(42));
    assert_eq!(bytes.len(), HEADER_LEN + 8);
    assert_eq!(payload_len(&bytes[..HEADER_LEN], MAGIC.to_bytes()), Ok(8));
    assert_eq!(check_frame(&bytes, MAGIC.to_bytes()), Ok(8));
    assert_eq!(read_frame(&bytes, MAGIC.to_bytes()).unwrap(), NetworkMessage::Ping(42));
}

#[test]
fn rejects_wrong_magic() {
    let bytes = frame(NetworkMessage::Verack);
    let expected = bitcoin::Network::Bitcoin.magic().to_bytes();
    assert_eq!(
        payload_len(&bytes[..HEADER_LEN], expected),
        Err(FrameError::WrongMagic { found: MAGIC.to_bytes(), expected })
    );
}

#[test]
fn rejects_oversized_length_before_reading_payload() {
    let mut bytes = frame(NetworkMessage::Verack);
    bytes[16..20].copy_from_slice(&(MAX_PAYLOAD_LEN as u32 + 1).to_le_bytes());
    assert_eq!(
        payload_len(&bytes[..HEADER_LEN], MAGIC.to_bytes()),
        Err(FrameError::TooLarge { len: MAX_PAYLOAD_LEN + 1, limit: MAX_PAYLOAD_LEN })
    );
    bytes[16..20].copy_from_slice(&(MAX_PAYLOAD_LEN as u32).to_le_bytes());
    assert_eq!(payload_len(&bytes[..HEADER_LEN], MAGIC.to_bytes()), Ok(MAX_PAYLOAD_LEN));
}

#[test]
fn rejects_bad_checksum() {
    let mut bytes = frame(NetworkMessage::Ping(42));
    let last = bytes.len() - 1;
    bytes[last] ^= 1;
    assert_eq!(check_frame(&bytes, MAGIC.to_bytes()), Err(FrameError::BadChecksum));
    assert!(matches!(read_frame(&bytes, MAGIC.to_bytes()), Err(FrameError::BadChecksum)));
}

#[test]
fn a_frame_missing_payload_bytes_is_refused() {
    let bytes = frame(NetworkMessage::Ping(42));
    assert_eq!(
        check_frame(&bytes[..bytes.len() - 1], MAGIC.to_bytes()),
        Err(FrameError::WrongLength { announced: 8, payload: 7 })
    );
}

#[test]
fn a_valid_frame_whose_payload_does_not_decode_is_undecodable() {
    // A ping carries 8 bytes; this one announces and holds 4, with their own checksum.
    let mut bytes = frame(NetworkMessage::Ping(42));
    bytes.truncate(HEADER_LEN + 4);
    bytes[16..20].copy_from_slice(&4u32.to_le_bytes());
    let digest = <bitcoin::hashes::sha256d::Hash as bitcoin::hashes::Hash>::hash(&bytes[HEADER_LEN..]);
    let digest = <bitcoin::hashes::sha256d::Hash as bitcoin::hashes::Hash>::to_byte_array(digest);
    bytes[20..24].copy_from_slice(&digest[..4]);
    assert_eq!(check_frame(&bytes, MAGIC.to_bytes()), Ok(4));
    assert!(matches!(read_frame(&bytes, MAGIC.to_bytes()), Err(FrameError::Undecodable)));
}
