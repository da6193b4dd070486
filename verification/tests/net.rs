use xenotech::net::udp::{
    checksum, checksum_hash, decode, encode, frame, unframe, Header, Packet, PacketError,
    SocketError, CHECKSUM_BYTES,
};

#[test]
fn checksum_has_eight_bytes_most_significant_first() {
    let data = [1u8, 2, 3, 4, 5];
    let sum = checksum(&data);
    assert_eq!(checksum_hash(&data), sum.to_be_bytes());
    assert_eq!(CHECKSUM_BYTES, 8);
}

#[test]
fn checksum_depends_on_the_bytes_and_their_order() {
    assert_eq!(checksum(&[1, 2, 3]), checksum(&[1, 2, 3]));
    assert_ne!(checksum(&[1, 2, 3]), checksum(&[3, 2, 1]));
    assert_ne!(checksum(&[1, 2, 3]), checksum(&[1, 2, 3, 0]));
    assert_ne!(checksum(&[]), checksum(&[0]));
}

#[test]
fn frame_puts_the_checksum_in_front() {
    let payload = vec![9u8, 8, 7];
    let data = frame(&payload);
    assert_eq!(data.len(), 11);
    assert_eq!(&data[..8], &checksum_hash(&payload)[..]);
    assert_eq!(&data[8..], &payload[..]);
    assert_eq!(unframe(&data), Ok(payload));
    assert_eq!(unframe(&frame(&[])), Ok(vec![]));
}

#[test]
fn unframe_rejects_what_is_too_short_for_a_checksum() {
    assert_eq!(unframe(&[]), Err(PacketError::InvalidChecksum));
    assert_eq!(unframe(&[1, 2, 3, 4, 5, 6, 7]), Err(PacketError::InvalidChecksum));
    assert_eq!(decode(&[0; 7]), Err(PacketError::InvalidChecksum));
}

#[test]
fn corrupting_any_byte_of_a_frame_is_rejected() {
    let bytecode: Vec<u8> = (0..200u32).map(|i| (i * 7 % 251) as u8).collect();
    let data = encode(&bytecode).unwrap();
    assert_eq!(decode(&data), Ok(bytecode.clone()));
    for i in 0..data.len() {
        for flip in [0x01u8, 0x80, 0xFF] {
            let mut bad = data.clone();
            bad[i] ^= flip;
            assert_eq!(decode(&bad), Err(PacketError::InvalidChecksum));
            assert_eq!(unframe(&bad), Err(PacketError::InvalidChecksum));
        }
    }
}

#[test]
fn truncating_a_frame_is_rejected() {
    let data = encode(&[5u8; 64]).unwrap();
    for keep in 0..data.len() {
        assert_eq!(decode(&data[..keep]), Err(PacketError::InvalidChecksum));
    }
}

#[test]
fn decoding_a_frame_undoes_encoding_it() {
    for bytecode in [vec![], vec![0u8], vec![1u8, 2, 3], vec![42u8; 5000]] {
        let data = encode(&bytecode).unwrap();
        assert_eq!(decode(&data), Ok(bytecode));
    }
}

#[test]
fn encode_compresses_the_payload() {
    let bytecode = vec![0u8; 1000];
    let data = encode(&bytecode).unwrap();
    assert!(data.len() < 100);
    assert_ne!(&data[8..], &bytecode[..]);
    assert_eq!(&data[..8], &checksum_hash(&data[8..])[..]);
}

#[test]
fn a_payload_that_is_no_deflate_stream_fails_to_expand() {
    // A first block of the reserved kind is no deflate stream.
    let data = frame(&[0xFF, 0xFF, 0xFF, 0xFF]);
    assert_eq!(decode(&data), Err(PacketError::Decompress));
}

#[test]
fn packets_carry_their_header() {
    let packet = Packet { header: Header { id: 7 }, message: vec![1u8, 2] };
    assert_eq!(packet.header, Header { id: 7 });
    assert_eq!(packet.message, vec![1u8, 2]);
    assert_ne!(SocketError::Timeout, SocketError::FailedToConnect);
    assert_ne!(SocketError::FailedToBind, SocketError::Nonblocking);
    assert_ne!(PacketError::Serialize, PacketError::Deserialize);
    assert_ne!(PacketError::Compress, PacketError::Decompress);
}
