//! The laws of the library and its edge cases on concrete values.
use ale_frame::{
    crc_ccitt, AleAu1Info, AleAu2Info, AleError, AleFrame, AleFrameReader, AleFrameWriter,
    AleHeader, ALE_CLASS_D, ALE_HEADER_SIZE, ALE_MAX_USER_DATA, ALE_NR_FLAG_NORMAL, ALE_PKT_AU1,
    ALE_PKT_AU2, ALE_PKT_DI, ALE_PKT_DT, ALE_VERSION,
};

/// A header with the right checksum and any length field.
fn header_with_length(packet_length: u16, packet_type: u8) -> [u8; ALE_HEADER_SIZE] {
    let mut buf = [0u8; ALE_HEADER_SIZE];
    buf[0..2].copy_from_slice(&packet_length.to_be_bytes());
    buf[2] = ALE_VERSION;
    buf[3] = 0x1A;
    buf[6] = ALE_NR_FLAG_NORMAL;
    buf[7] = packet_type;
    let checksum = crc_ccitt(&buf[0..8]);
    buf[8..10].copy_from_slice(&checksum.to_be_bytes());
    buf
}

/// A stream of an AU1, two DTs and a DI, and the user data of each.
fn sample_stream() -> (Vec<u8>, Vec<Vec<u8>>) {
    let payloads: Vec<Vec<u8>> = vec![
        b"request".to_vec(),
        Vec::new(),
        (0..=255u8).collect(),
        b"bye".to_vec(),
    ];
    let types = [ALE_PKT_AU1, ALE_PKT_DT, ALE_PKT_DT, ALE_PKT_DI];
    let mut writer = AleFrameWriter::new(0x1A);
    let mut out = Vec::new();
    for (packet_type, payload) in types.iter().zip(payloads.iter()) {
        writer.write_alepkt(&mut out, *packet_type, payload).unwrap();
    }
    (out, payloads)
}

fn user_data(frames: &[AleFrame]) -> Vec<Vec<u8>> {
    frames.iter().map(|f| f.user_data.clone()).collect()
}

/// Remainder of the preset message modulo x^16 + x^12 + x^5 + 1, by long division of bits.
fn long_division(data: &[u8]) -> u16 {
    let generator: u32 = 0x1_1021;
    let mut bits: Vec<bool> = Vec::new();
    for byte in data {
        for k in (0..8).rev() {
            bits.push((byte >> k) & 1 == 1);
        }
    }
    bits.extend([false; 16]);
    for bit in bits.iter_mut().take(16) {
        *bit = !*bit;
    }
    for i in 0..bits.len() - 16 {
        if bits[i] {
            for j in 0..17 {
                if (generator >> (16 - j)) & 1 == 1 {
                    bits[i + j] = !bits[i + j];
                }
            }
        }
    }
    bits[bits.len() - 16..].iter().fold(0u16, |r, b| (r << 1) | (*b as u16))
}

#[test]
fn checksum_is_the_polynomial_remainder() {
    assert_eq!(crc_ccitt(b""), 0xFFFF);
    assert_eq!(crc_ccitt(b"A"), 0xB915);
    assert_eq!(crc_ccitt(b"123456789"), 0x29B1);
    let data: Vec<u8> = (0..200u8).collect();
    for n in 0..data.len() {
        assert_eq!(crc_ccitt(&data[..n]), long_division(&data[..n]));
    }
}

#[test]
fn header_wire_layout() {
    let header = AleHeader::build(0x05, 0x1A, 0x0203, 0x01, ALE_PKT_DT, 0x0100).unwrap();
    let wire = header.encode();
    assert_eq!(wire[0..8], [0x01, 0x08, 0x05, 0x1A, 0x02, 0x03, 0x01, 0x03]);
    assert_eq!(header.checksum, crc_ccitt(&wire[0..8]));
    assert_eq!(wire[8..10], header.checksum.to_be_bytes());
}

#[test]
fn decoded_header_encodes_to_the_same_octets() {
    for packet_type in [ALE_PKT_AU1, ALE_PKT_AU2, ALE_PKT_DT, ALE_PKT_DI] {
        for packet_length in [0u16, 7, 8, 300, 65_008, 65_535] {
            let buf = header_with_length(packet_length, packet_type);
            let header = AleHeader::decode(&buf).unwrap();
            assert_eq!(header.packet_length, packet_length);
            assert_eq!(header.encode(), buf);
            assert_eq!(header.clone().encode(), buf);
        }
    }
}

#[test]
fn wrong_checksum_is_reported_with_both_values() {
    let mut buf = header_with_length(8, ALE_PKT_DT);
    let right = u16::from_be_bytes([buf[8], buf[9]]);
    buf[9] ^= 0x01;
    let result = AleHeader::decode(&buf);
    assert!(matches!(
        result,
        Err(AleError::ChecksumMismatch { expected, got }) if expected == right && got == right ^ 1
    ));
}

#[test]
fn checksum_is_judged_before_the_type_and_the_length() {
    let mut buf = header_with_length(3, 0x77);
    assert!(matches!(AleHeader::decode(&buf), Err(AleError::InvalidPacketType(0x77))));
    buf[2] ^= 0x80;
    assert!(matches!(AleHeader::decode(&buf), Err(AleError::ChecksumMismatch { .. })));
}

#[test]
fn every_corrupted_octet_is_refused() {
    let sent = header_with_length(0x1234, ALE_PKT_DT);
    for i in 0..ALE_HEADER_SIZE {
        for delta in 1..=255u8 {
            let mut received = sent;
            received[i] ^= delta;
            let result = AleHeader::decode(&received);
            assert!(matches!(result, Err(AleError::ChecksumMismatch { .. })));
        }
    }
}

#[test]
fn every_sampled_burst_is_refused() {
    let sent = header_with_length(0x0042, ALE_PKT_AU2);
    let word = sent.iter().fold(0u128, |w, b| (w << 8) | (*b as u128));
    for at in 0..=64u32 {
        for pattern in (1..=0xFFFFu128).step_by(257) {
            let bent = word ^ (pattern << at);
            let mut received = [0u8; ALE_HEADER_SIZE];
            for (i, octet) in received.iter_mut().enumerate() {
                *octet = ((bent >> (8 * (9 - i))) & 0xFF) as u8;
            }
            let result = AleHeader::decode(&received);
            assert!(matches!(result, Err(AleError::ChecksumMismatch { .. })));
        }
    }
}

#[test]
fn chunking_does_not_matter() {
    let (stream, payloads) = sample_stream();
    for size in 1..=stream.len() {
        let mut reader = AleFrameReader::new();
        let mut frames = Vec::new();
        for chunk in stream.chunks(size) {
            frames.extend(reader.feed(chunk).unwrap());
        }
        assert_eq!(user_data(&frames), payloads);
        assert_eq!(reader.header_pos(), 0);
    }
}

#[test]
fn empty_chunks_change_nothing() {
    let (stream, payloads) = sample_stream();
    let mut reader = AleFrameReader::new();
    assert!(reader.feed(&[]).unwrap().is_empty());
    let mut frames = reader.feed(&stream[..13]).unwrap();
    assert!(reader.feed(&[]).unwrap().is_empty());
    assert_eq!(reader.header_pos(), ALE_HEADER_SIZE);
    frames.extend(reader.feed(&stream[13..]).unwrap());
    assert_eq!(user_data(&frames), payloads);
}

#[test]
fn cut_stream_delivers_its_first_frames() {
    let (stream, payloads) = sample_stream();
    let mut complete = 0;
    for cut in 0..=stream.len() {
        let frames = AleFrameReader::new().feed(&stream[..cut]).unwrap();
        assert_eq!(user_data(&frames), payloads[..frames.len()]);
        assert!(frames.len() >= complete);
        complete = frames.len();
    }
    assert_eq!(complete, 4);
}

#[test]
fn delivered_frames_are_the_octets_read() {
    let (stream, _) = sample_stream();
    let frames = AleFrameReader::new().feed(&stream).unwrap();
    let mut again = Vec::new();
    for frame in &frames {
        assert_eq!(frame.header.packet_length as usize, 8 + frame.user_data.len());
        again.extend(frame.header.encode());
        again.extend(&frame.user_data);
    }
    assert_eq!(again, stream);
}

#[test]
fn partial_header_is_kept() {
    let (stream, _) = sample_stream();
    let mut reader = AleFrameReader::new();
    assert!(reader.feed(&stream[..3]).unwrap().is_empty());
    assert_eq!(reader.header_pos(), 3);
    assert!(reader.feed(&stream[3..7]).unwrap().is_empty());
    assert_eq!(reader.header_pos(), 7);
    assert!(reader.feed(&stream[7..10]).unwrap().is_empty());
    assert_eq!(reader.header_pos(), 10);
    assert_eq!(reader.feed(&stream[10..17]).unwrap().len(), 1);
    assert_eq!(reader.header_pos(), 0);
}

#[test]
fn refusal_is_repeated() {
    let (stream, _) = sample_stream();
    let mut bad = stream[..17].to_vec();
    bad[5] ^= 0x10;
    let mut reader = AleFrameReader::new();
    let first = reader.feed(&bad);
    let (expected, got) = match first {
        Err(AleError::ChecksumMismatch { expected, got }) => (expected, got),
        other => panic!("unexpected: {:?}", other),
    };
    assert!(reader.feed(&[]).unwrap().is_empty());
    for _ in 0..3 {
        let next = reader.feed(&stream);
        assert!(matches!(
            next,
            Err(AleError::ChecksumMismatch { expected: e, got: g }) if e == expected && g == got
        ));
    }
    assert_eq!(reader.header_pos(), ALE_HEADER_SIZE);
}

#[test]
fn refused_chunk_delivers_nothing() {
    let (mut stream, payloads) = sample_stream();
    let good = stream.len();
    stream.extend(header_with_length(8, 9));
    assert!(matches!(
        AleFrameReader::new().feed(&stream),
        Err(AleError::InvalidPacketType(9))
    ));

    let mut reader = AleFrameReader::new();
    assert_eq!(user_data(&reader.feed(&stream[..good]).unwrap()), payloads);
    assert!(matches!(
        reader.feed(&stream[good..]),
        Err(AleError::InvalidPacketType(9))
    ));
}

#[test]
fn announced_length_is_judged() {
    let max = 8 + ALE_MAX_USER_DATA as u16;
    let mut reader = AleFrameReader::new();
    assert!(reader.feed(&header_with_length(max, ALE_PKT_DT)).unwrap().is_empty());
    assert!(matches!(
        AleFrameReader::new().feed(&header_with_length(max + 1, ALE_PKT_DT)),
        Err(AleError::PayloadTooLarge(65_001))
    ));
    assert!(matches!(
        AleFrameReader::new().feed(&header_with_length(65_535, ALE_PKT_DT)),
        Err(AleError::PayloadTooLarge(65_527))
    ));
    assert!(matches!(
        AleFrameReader::new().feed(&header_with_length(0, ALE_PKT_DT)),
        Err(AleError::InvalidPacketLength(0))
    ));
    let frames = AleFrameReader::new().feed(&header_with_length(8, ALE_PKT_DT)).unwrap();
    assert_eq!(frames.len(), 1);
    assert!(frames[0].user_data.is_empty());
}

#[test]
fn largest_user_data_is_read_back() {
    let payload: Vec<u8> = (0..ALE_MAX_USER_DATA).map(|i| (i % 251) as u8).collect();
    let mut writer = AleFrameWriter::new(0x1A);
    let mut out = Vec::new();
    writer.write_alepkt(&mut out, ALE_PKT_DT, &payload).unwrap();
    writer.write_alepkt(&mut out, ALE_PKT_DT, b"small").unwrap();
    let mut reader = AleFrameReader::new();
    let mut frames = Vec::new();
    for chunk in out.chunks(1500) {
        frames.extend(reader.feed(chunk).unwrap());
    }
    assert_eq!(user_data(&frames), vec![payload, b"small".to_vec()]);
}

#[test]
fn too_large_user_data_writes_nothing() {
    let mut writer = AleFrameWriter::new(0x1A);
    let mut out = vec![1, 2, 3];
    let big = vec![0u8; ALE_MAX_USER_DATA + 1];
    assert!(matches!(
        writer.write_alepkt(&mut out, ALE_PKT_DT, &big),
        Err(AleError::PayloadTooLarge(65_001))
    ));
    assert_eq!(out, [1, 2, 3]);
    assert_eq!(writer.t_sequence(), 0);
}

#[test]
fn failed_write_does_not_count() {
    let mut writer = AleFrameWriter::new(0x1A);
    let octets = writer.next_alepkt(ALE_PKT_DT, b"x").unwrap();
    let result = writer.finish_write(Err(std::io::Error::new(std::io::ErrorKind::Other, "down")));
    assert!(matches!(result, Err(AleError::Io(_))));
    assert_eq!(writer.t_sequence(), 0);

    assert_eq!(writer.next_alepkt(ALE_PKT_DT, b"x").unwrap(), octets);
    writer.finish_write(Ok(())).unwrap();
    assert_eq!(writer.t_sequence(), 1);
}

#[test]
fn written_frame_layout() {
    let mut writer = AleFrameWriter::new(0x1A);
    writer.t_sequence = 3;
    let mut out = vec![0xEE];
    writer.write_alepkt(&mut out, ALE_PKT_DI, b"abc").unwrap();
    let expected = [
        0xEE, 0x00, 0x0B, 0x01, 0x1A, 0x00, 0x03, 0x01, 0x04, 0x57, 0xA0, b'a', b'b', b'c',
    ];
    assert_eq!(out, expected);
    assert_eq!(writer.t_sequence(), 4);
}

#[test]
fn first_data_after_the_handshake_carries_one() {
    let mut initiator = AleFrameWriter::new(0x1A);
    let mut responder = AleFrameWriter::new(0x1A);
    let mut to_responder = Vec::new();
    let mut to_initiator = Vec::new();
    let au1 = AleAu1Info {
        calling_etcs_id: 0x0000_1234,
        called_etcs_id: 0x0000_5678,
        class_of_service: ALE_CLASS_D,
    };
    let au2 = AleAu2Info { responding_etcs_id: 0x0000_5678 };
    initiator.write_alepkt(&mut to_responder, ALE_PKT_AU1, &au1.encode(b"")).unwrap();
    responder.write_alepkt(&mut to_initiator, ALE_PKT_AU2, &au2.encode(b"")).unwrap();
    initiator.write_alepkt(&mut to_responder, ALE_PKT_DT, b"AU3").unwrap();
    responder.write_alepkt(&mut to_initiator, ALE_PKT_DT, b"AR").unwrap();

    for (stream, packet_type) in [(to_responder, ALE_PKT_AU1), (to_initiator, ALE_PKT_AU2)] {
        let frames = AleFrameReader::new().feed(&stream).unwrap();
        assert_eq!(frames[0].header.packet_type, packet_type);
        assert_eq!(frames[0].header.t_sequence, 0);
        assert_eq!(frames[1].header.packet_type, ALE_PKT_DT);
        assert_eq!(frames[1].header.t_sequence, 1);
        assert_eq!(frames[1].header.nr_flag, ALE_NR_FLAG_NORMAL);
        assert_eq!(frames[1].header.version, ALE_VERSION);
        assert_eq!(frames[1].header.app_type, 0x1A);
    }
}

#[test]
fn counter_wraps_after_all_values() {
    let mut writer = AleFrameWriter::new(0x00);
    for i in 0..70_000u32 {
        assert_eq!(writer.t_sequence(), (i % 65_536) as u16);
        writer.finish_write(Ok(())).unwrap();
    }
}

#[test]
fn unknown_type_is_written_and_refused() {
    let mut writer = AleFrameWriter::new(0x1A);
    let mut out = Vec::new();
    writer.write_alepkt(&mut out, 251, b"switch").unwrap();
    assert_eq!(out.len(), 16);
    assert_eq!(writer.t_sequence(), 1);
    assert!(matches!(
        AleFrameReader::new().feed(&out),
        Err(AleError::InvalidPacketType(251))
    ));
}

#[test]
fn handshake_layout() {
    let au1 = AleAu1Info {
        calling_etcs_id: 0x0102_0304,
        called_etcs_id: 0xA0B0_C0D0,
        class_of_service: 0x01,
    };
    let wire = au1.encode(&[0xFE]);
    assert_eq!(wire, [1, 2, 3, 4, 0xA0, 0xB0, 0xC0, 0xD0, 1, 0xFE]);
    let (info, sapdu) = AleAu1Info::decode(&wire).unwrap();
    assert_eq!(info.clone().encode(sapdu), wire);

    let au2 = AleAu2Info { responding_etcs_id: 0x0506_0708 };
    let wire = au2.encode(&[]);
    assert_eq!(wire, [5, 6, 7, 8]);
    let (info, sapdu) = AleAu2Info::decode(&wire).unwrap();
    assert!(sapdu.is_empty());
    assert_eq!(info.clone().encode(sapdu), wire);
}

#[test]
fn handshake_needs_its_fixed_part_only() {
    let (info, sapdu) = AleAu1Info::decode(&[0, 0, 0, 1, 0, 0, 0, 2, 3]).unwrap();
    assert_eq!(info.calling_etcs_id, 1);
    assert_eq!(info.called_etcs_id, 2);
    assert_eq!(info.class_of_service, 3);
    assert!(sapdu.is_empty());
}

#[test]
fn error_messages() {
    let mismatch = AleError::ChecksumMismatch { expected: 0x00AF, got: 0xF38E };
    assert_eq!(
        mismatch.message(),
        "ALEPKT checksum mismatch: expected 0x00AF, got 0xF38E"
    );
    assert_eq!(
        AleError::InvalidPacketType(0).message(),
        "invalid ALEPKT packet type: 0"
    );
    assert_eq!(
        AleError::InvalidPacketType(255).message(),
        "invalid ALEPKT packet type: 255"
    );
    assert_eq!(
        AleError::InvalidPacketLength(7).message(),
        "ALEPKT packet_length too small: 7 (minimum 8)"
    );
    assert_eq!(
        AleError::PayloadTooLarge(1_065_001).message(),
        "ALEPKT payload too large: 1065001 bytes"
    );
    assert_eq!(AleError::io_message("gone"), "ALE I/O error: gone");
    let failure = AleError::from(std::io::Error::new(std::io::ErrorKind::Other, "link down"));
    assert_eq!(failure.message(), "ALE I/O error: link down");
}

#[test]
fn only_transport_failures_have_a_source() {
    let failure = AleError::from(std::io::Error::new(std::io::ErrorKind::Other, "link down"));
    assert_eq!(failure.source().unwrap().to_string(), "link down");
    assert!(AleError::InvalidPacketType(9).source().is_none());
    assert!(AleError::PayloadTooLarge(9).source().is_none());
}

#[test]
fn cloned_frame_is_the_same_frame() {
    let (stream, _) = sample_stream();
    let frames = AleFrameReader::new().feed(&stream).unwrap();
    let copy = frames[2].clone();
    assert_eq!(copy.header.encode(), frames[2].header.encode());
    assert_eq!(copy.user_data, frames[2].user_data);
}
