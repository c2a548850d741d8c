//! Checksum, header, framing, reassembly and handshake on concrete values.
use ale_frame::{
    crc_ccitt, AleAu1Info, AleAu2Info, AleError, AleFrameReader, AleFrameWriter, AleHeader,
    ALE_CHECKSUM_COVERED_SIZE, ALE_CLASS_D, ALE_HEADER_SIZE, ALE_MAX_USER_DATA,
    ALE_NR_FLAG_NORMAL, ALE_PKT_AU1, ALE_PKT_AU2, ALE_PKT_DI, ALE_PKT_DT, ALE_VERSION,
};

/// Test vectors from Subset-098 v3.0.0, Table 14 (7.5).
#[test]
fn test_crc_ccitt_subset098_vectors() {
    // Row 1: 001E 01 1A 0000 01 01 -> checksum 1089
    let input1 = [0x00, 0x1E, 0x01, 0x1A, 0x00, 0x00, 0x01, 0x01];
    assert_eq!(crc_ccitt(&input1), 0x1089, "vector 1");

    // Row 2: 0021 01 1A 0000 01 02 -> checksum F38E
    let input2 = [0x00, 0x21, 0x01, 0x1A, 0x00, 0x00, 0x01, 0x02];
    assert_eq!(crc_ccitt(&input2), 0xF38E, "vector 2");

    // Row 3: 0011 01 1A 0001 01 03 -> checksum 8D12
    let input3 = [0x00, 0x11, 0x01, 0x1A, 0x00, 0x01, 0x01, 0x03];
    assert_eq!(crc_ccitt(&input3), 0x8D12, "vector 3");

    // Row 4: 002A 01 1A 0002 01 03 -> checksum C6E0
    let input4 = [0x00, 0x2A, 0x01, 0x1A, 0x00, 0x02, 0x01, 0x03];
    assert_eq!(crc_ccitt(&input4), 0xC6E0, "vector 4");

    // Row 5: 000B 01 1A 0003 01 04 -> checksum 57A0
    let input5 = [0x00, 0x0B, 0x01, 0x1A, 0x00, 0x03, 0x01, 0x04];
    assert_eq!(crc_ccitt(&input5), 0x57A0, "vector 5");
}

#[test]
fn test_header_roundtrip() {
    let header =
        AleHeader::build(ALE_VERSION, 0x1A, 42, ALE_NR_FLAG_NORMAL, ALE_PKT_DT, 100).unwrap();
    let encoded = header.encode();
    let decoded = AleHeader::decode(&encoded).expect("decode should succeed");
    assert_eq!(decoded.version, ALE_VERSION);
    assert_eq!(decoded.app_type, 0x1A);
    assert_eq!(decoded.t_sequence, 42);
    assert_eq!(decoded.nr_flag, ALE_NR_FLAG_NORMAL);
    assert_eq!(decoded.packet_type, ALE_PKT_DT);
    assert_eq!(decoded.checksum, header.checksum);
    // packet_length = 8 (header after PktLen) + 100 (user data) = 108
    assert_eq!(decoded.packet_length, 108);
}

// `build` rejects an oversize payload instead of silently truncating
// packet_length via `as u16`.
#[test]
fn test_build_rejects_oversize() {
    let err = AleHeader::build(
        ALE_VERSION,
        0x1A,
        0,
        ALE_NR_FLAG_NORMAL,
        ALE_PKT_DT,
        ALE_MAX_USER_DATA + 1,
    );
    assert!(matches!(err, Err(AleError::PayloadTooLarge(n)) if n == ALE_MAX_USER_DATA + 1));
}

#[test]
fn test_build_accepts_max_payload() {
    let h = AleHeader::build(
        ALE_VERSION,
        0x1A,
        0,
        ALE_NR_FLAG_NORMAL,
        ALE_PKT_DT,
        ALE_MAX_USER_DATA,
    )
    .expect("max payload must build");
    assert_eq!(
        h.packet_length as usize,
        ALE_CHECKSUM_COVERED_SIZE + ALE_MAX_USER_DATA
    );
}

#[test]
fn test_checksum_failure_detected() {
    let header =
        AleHeader::build(ALE_VERSION, 0x1A, 0, ALE_NR_FLAG_NORMAL, ALE_PKT_AU1, 20).unwrap();
    let mut encoded = header.encode();
    // Corrupt one byte
    encoded[3] ^= 0xFF;
    let result = AleHeader::decode(&encoded);
    assert!(
        matches!(result, Err(AleError::ChecksumMismatch { .. })),
        "should detect checksum mismatch"
    );
}

#[test]
fn test_frame_writer_reader_roundtrip() {
    let mut output = Vec::new();
    let mut writer = AleFrameWriter::new(0x1A);

    let payload1 = b"Hello, EuroRadio!";
    let payload2 = b"Second message";

    writer
        .write_alepkt(&mut output, ALE_PKT_DT, payload1)
        .unwrap();
    writer
        .write_alepkt(&mut output, ALE_PKT_DT, payload2)
        .unwrap();

    let mut reader = AleFrameReader::new();
    let frames = reader.feed(&output).expect("feed should succeed");
    assert_eq!(frames.len(), 2);
    assert_eq!(frames[0].user_data, payload1);
    assert_eq!(frames[0].header.packet_type, ALE_PKT_DT);
    assert_eq!(frames[0].header.t_sequence, 0);
    assert_eq!(frames[1].user_data, payload2);
    assert_eq!(frames[1].header.t_sequence, 1);
}

#[test]
fn test_frame_reader_partial_feed() {
    let mut output = Vec::new();
    let mut writer = AleFrameWriter::new(0x1A);
    let payload = b"Test partial read across TCP segments";
    writer
        .write_alepkt(&mut output, ALE_PKT_DT, payload)
        .unwrap();

    let mut reader = AleFrameReader::new();

    // Feed in tiny chunks (simulating TCP segmentation)
    let mut all_frames = Vec::new();
    for chunk in output.chunks(3) {
        let frames = reader.feed(chunk).expect("feed should succeed");
        all_frames.extend(frames);
    }

    assert_eq!(all_frames.len(), 1);
    assert_eq!(all_frames[0].user_data, payload);
}

#[test]
fn test_sequence_number_wrapping() {
    let mut writer = AleFrameWriter::new(0x1A);
    // Artificially set sequence near max
    writer.t_sequence = 65534;

    let mut output = Vec::new();
    writer.write_alepkt(&mut output, ALE_PKT_DT, b"a").unwrap();
    assert_eq!(writer.t_sequence(), 65535);

    writer.write_alepkt(&mut output, ALE_PKT_DT, b"b").unwrap();
    assert_eq!(writer.t_sequence(), 0); // Wrapped

    writer.write_alepkt(&mut output, ALE_PKT_DT, b"c").unwrap();
    assert_eq!(writer.t_sequence(), 1);

    // Verify the encoded frames have correct sequences
    let mut reader = AleFrameReader::new();
    let frames = reader.feed(&output).unwrap();
    assert_eq!(frames.len(), 3);
    assert_eq!(frames[0].header.t_sequence, 65534);
    assert_eq!(frames[1].header.t_sequence, 65535);
    assert_eq!(frames[2].header.t_sequence, 0);
}

#[test]
fn test_au1_au2_sequence_always_zero() {
    let mut writer = AleFrameWriter::new(0x1A);
    writer.t_sequence = 42; // Non-zero starting value

    let mut output = Vec::new();
    writer
        .write_alepkt(&mut output, ALE_PKT_AU1, b"au1data")
        .unwrap();
    // AU1 carries value 0 but still advances the counter (6.5.3.3.2.1)
    assert_eq!(writer.t_sequence(), 43);

    writer
        .write_alepkt(&mut output, ALE_PKT_AU2, b"au2data")
        .unwrap();
    assert_eq!(writer.t_sequence(), 44);

    let mut reader = AleFrameReader::new();
    let frames = reader.feed(&output).unwrap();
    assert_eq!(frames[0].header.t_sequence, 0); // AU1 always carries 0
    assert_eq!(frames[1].header.t_sequence, 0); // AU2 always carries 0
}

#[test]
fn test_au1_info_roundtrip() {
    let info = AleAu1Info {
        calling_etcs_id: 0x12345678,
        called_etcs_id: 0xABCDEF01,
        class_of_service: ALE_CLASS_D,
    };
    let encoded = info.encode(b"sapdu");
    let (decoded, sapdu) = AleAu1Info::decode(&encoded).unwrap();
    assert_eq!(decoded.calling_etcs_id, 0x12345678);
    assert_eq!(decoded.called_etcs_id, 0xABCDEF01);
    assert_eq!(decoded.class_of_service, ALE_CLASS_D);
    assert_eq!(sapdu, b"sapdu");
}

#[test]
fn test_payload_too_large() {
    let mut output = Vec::new();
    let mut writer = AleFrameWriter::new(0x1A);
    let big = vec![0u8; ALE_MAX_USER_DATA + 1];
    let result = writer.write_alepkt(&mut output, ALE_PKT_DT, &big);
    assert!(matches!(result, Err(AleError::PayloadTooLarge(_))));
}

#[test]
fn test_au2_info_roundtrip() {
    let info = AleAu2Info {
        responding_etcs_id: 0xDEADBEEF,
    };
    let encoded = info.encode(b"au2sapdu");
    let (decoded, sapdu) = AleAu2Info::decode(&encoded).unwrap();
    assert_eq!(decoded.responding_etcs_id, 0xDEADBEEF);
    assert_eq!(sapdu, b"au2sapdu");
}

#[test]
fn test_au1_decode_too_short() {
    assert!(AleAu1Info::decode(&[0; 8]).is_none());
    assert!(AleAu1Info::decode(&[]).is_none());
}

#[test]
fn test_au2_decode_too_short() {
    assert!(AleAu2Info::decode(&[0; 3]).is_none());
    assert!(AleAu2Info::decode(&[]).is_none());
}

#[test]
fn test_invalid_packet_type() {
    let mut buf = [0u8; ALE_HEADER_SIZE];
    // Build a valid header, then overwrite the packet type with an invalid value
    buf[0..2].copy_from_slice(&8u16.to_be_bytes()); // packet_length
    buf[2] = ALE_VERSION;
    buf[3] = 0x1A;
    buf[4..6].copy_from_slice(&0u16.to_be_bytes());
    buf[6] = ALE_NR_FLAG_NORMAL;
    buf[7] = 0xFF; // invalid packet type
    let cksum = crc_ccitt(&buf[0..8]);
    buf[8..10].copy_from_slice(&cksum.to_be_bytes());

    let result = AleHeader::decode(&buf);
    assert!(
        matches!(result, Err(AleError::InvalidPacketType(0xFF))),
        "should reject invalid packet type"
    );
}

#[test]
fn test_di_packet_increments_sequence() {
    let mut writer = AleFrameWriter::new(0x1A);
    let mut output = Vec::new();

    writer
        .write_alepkt(&mut output, ALE_PKT_DT, b"data")
        .unwrap();
    assert_eq!(writer.t_sequence(), 1);

    writer.write_alepkt(&mut output, ALE_PKT_DI, b"").unwrap();
    assert_eq!(writer.t_sequence(), 2);

    let mut reader = AleFrameReader::new();
    let frames = reader.feed(&output).unwrap();
    assert_eq!(frames.len(), 2);
    assert_eq!(frames[0].header.packet_type, ALE_PKT_DT);
    assert_eq!(frames[1].header.packet_type, ALE_PKT_DI);
    assert_eq!(frames[1].header.t_sequence, 1);
}

#[test]
fn test_multiple_frames_across_chunk_boundary() {
    let mut output = Vec::new();
    let mut writer = AleFrameWriter::new(0x1A);

    writer
        .write_alepkt(&mut output, ALE_PKT_DT, b"first")
        .unwrap();
    writer
        .write_alepkt(&mut output, ALE_PKT_DT, b"second")
        .unwrap();
    writer
        .write_alepkt(&mut output, ALE_PKT_DT, b"third")
        .unwrap();

    // Feed in 7-byte chunks (splits frames mid-header and mid-payload)
    let mut reader = AleFrameReader::new();
    let mut all_frames = Vec::new();
    for chunk in output.chunks(7) {
        let frames = reader.feed(chunk).unwrap();
        all_frames.extend(frames);
    }

    assert_eq!(all_frames.len(), 3);
    assert_eq!(all_frames[0].user_data, b"first");
    assert_eq!(all_frames[1].user_data, b"second");
    assert_eq!(all_frames[2].user_data, b"third");
}

#[test]
fn test_default_frame_reader() {
    let reader: AleFrameReader = Default::default();
    assert_eq!(reader.header_pos(), 0);
}

#[test]
fn test_reject_too_small_packet_length() {
    let mut buf = [0u8; ALE_HEADER_SIZE];
    buf[0..2].copy_from_slice(&7u16.to_be_bytes()); // invalid: packet_length < 8
    buf[2] = ALE_VERSION;
    buf[3] = 0x1A;
    buf[4..6].copy_from_slice(&0u16.to_be_bytes());
    buf[6] = ALE_NR_FLAG_NORMAL;
    buf[7] = ALE_PKT_DT;
    let cksum = crc_ccitt(&buf[0..8]);
    buf[8..10].copy_from_slice(&cksum.to_be_bytes());

    // Header decode itself succeeds (it doesn't validate packet_length range)
    let header = AleHeader::decode(&buf).unwrap();
    assert_eq!(header.packet_length, 7);

    // But feed() must reject it before the subtraction can underflow
    let mut reader = AleFrameReader::new();
    let result = reader.feed(&buf);
    assert!(
        matches!(result, Err(AleError::InvalidPacketLength(7))),
        "should reject packet_length < 8, got: {:?}",
        result
    );
}

#[test]
fn test_frame_roundtrip_packet_length_equals_8_plus_payload() {
    let mut output = Vec::new();
    let mut writer = AleFrameWriter::new(0x1A);

    let payloads: &[&[u8]] = &[b"", b"short", &[0xAB; 200]];
    for payload in payloads {
        writer
            .write_alepkt(&mut output, ALE_PKT_DT, payload)
            .unwrap();
    }

    let mut reader = AleFrameReader::new();
    let frames = reader.feed(&output).unwrap();
    assert_eq!(frames.len(), 3);

    for (frame, payload) in frames.iter().zip(payloads.iter()) {
        assert_eq!(
            frame.header.packet_length as usize,
            8 + payload.len(),
            "packet_length must equal 8 + user_data_len for payload of {} bytes",
            payload.len()
        );
        assert_eq!(frame.user_data, *payload);
    }
}
