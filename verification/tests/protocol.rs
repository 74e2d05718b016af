use space_tts::protocol::{
    client_payload_len, read_client_msg, read_server_msg, server_payload_len, write_client_msg,
    write_server_msg, ByteReader, ClientMsg, ProtocolError, ServerMsg,
};

#[test]
fn round_trip_audio_segment() {
    let samples: Vec<i16> = vec![-32768, -1, 0, 1, 32767];
    let mut buf = Vec::new();
    write_client_msg(&mut buf, &ClientMsg::AudioSegment(samples.clone())).unwrap();

    let mut cursor = ByteReader::new(buf);
    let msg = read_client_msg(&mut cursor).unwrap();
    match msg {
        ClientMsg::AudioSegment(decoded) => assert_eq!(decoded, samples),
    }
}

#[test]
fn round_trip_audio_segment_empty() {
    let samples: Vec<i16> = vec![];
    let mut buf = Vec::new();
    write_client_msg(&mut buf, &ClientMsg::AudioSegment(samples.clone())).unwrap();

    let mut cursor = ByteReader::new(buf);
    let msg = read_client_msg(&mut cursor).unwrap();
    match msg {
        ClientMsg::AudioSegment(decoded) => assert_eq!(decoded, samples),
    }
}

#[test]
fn round_trip_ready() {
    let mut buf = Vec::new();
    write_server_msg(&mut buf, &ServerMsg::Ready).unwrap();

    let mut cursor = ByteReader::new(buf);
    let msg = read_server_msg(&mut cursor).unwrap();
    assert!(matches!(msg, ServerMsg::Ready));
}

#[test]
fn round_trip_text() {
    let text = "Bonjour, ça va bien !".to_string();
    let mut buf = Vec::new();
    write_server_msg(&mut buf, &ServerMsg::Text(text.clone())).unwrap();

    let mut cursor = ByteReader::new(buf);
    let msg = read_server_msg(&mut cursor).unwrap();
    match msg {
        ServerMsg::Text(decoded) => assert_eq!(decoded, text),
        other => panic!("Expected Text, got {other:?}"),
    }
}

#[test]
fn round_trip_error() {
    let text = "model not found".to_string();
    let mut buf = Vec::new();
    write_server_msg(&mut buf, &ServerMsg::Error(text.clone())).unwrap();

    let mut cursor = ByteReader::new(buf);
    let msg = read_server_msg(&mut cursor).unwrap();
    match msg {
        ServerMsg::Error(decoded) => assert_eq!(decoded, text),
        other => panic!("Expected Error, got {other:?}"),
    }
}

#[test]
fn round_trip_text_empty() {
    let mut buf = Vec::new();
    write_server_msg(&mut buf, &ServerMsg::Text(String::new())).unwrap();

    let mut cursor = ByteReader::new(buf);
    let msg = read_server_msg(&mut cursor).unwrap();
    match msg {
        ServerMsg::Text(decoded) => assert_eq!(decoded, ""),
        other => panic!("Expected Text, got {other:?}"),
    }
}

#[test]
fn multiple_messages_in_stream() {
    let mut buf = Vec::new();
    write_server_msg(&mut buf, &ServerMsg::Ready).unwrap();
    write_server_msg(&mut buf, &ServerMsg::Text("hello".into())).unwrap();
    write_server_msg(&mut buf, &ServerMsg::Error("oops".into())).unwrap();

    let mut cursor = ByteReader::new(buf);
    assert!(matches!(read_server_msg(&mut cursor).unwrap(), ServerMsg::Ready));
    match read_server_msg(&mut cursor).unwrap() {
        ServerMsg::Text(t) => assert_eq!(t, "hello"),
        other => panic!("Expected Text, got {other:?}"),
    }
    match read_server_msg(&mut cursor).unwrap() {
        ServerMsg::Error(e) => assert_eq!(e, "oops"),
        other => panic!("Expected Error, got {other:?}"),
    }
}

#[test]
fn unknown_client_tag_errors() {
    let buf = vec![0xFF, 0, 0, 0, 0]; // unknown tag, length 0
    let mut cursor = ByteReader::new(buf);
    assert!(read_client_msg(&mut cursor).is_err());
}

#[test]
fn unknown_server_tag_errors() {
    let buf = vec![0xFF, 0, 0, 0, 0];
    let mut cursor = ByteReader::new(buf);
    assert!(read_server_msg(&mut cursor).is_err());
}

#[test]
fn audio_segment_wire_bytes_are_exact() {
    let mut buf = Vec::new();
    write_client_msg(&mut buf, &ClientMsg::AudioSegment(vec![-32768, -1, 0, 1, 32767, 258]))
        .unwrap();
    assert_eq!(
        buf,
        vec![
            0x01, 12, 0, 0, 0, 0x00, 0x80, 0xFF, 0xFF, 0x00, 0x00, 0x01, 0x00, 0xFF, 0x7F, 0x02,
            0x01
        ]
    );
}

#[test]
fn server_wire_bytes_are_exact() {
    let mut buf = Vec::new();
    write_server_msg(&mut buf, &ServerMsg::Ready).unwrap();
    assert_eq!(buf, vec![0x80, 0, 0, 0, 0]);

    let mut buf = Vec::new();
    write_server_msg(&mut buf, &ServerMsg::Text("é!".into())).unwrap();
    assert_eq!(buf, vec![0x81, 3, 0, 0, 0, 0xC3, 0xA9, b'!']);

    let mut buf = Vec::new();
    write_server_msg(&mut buf, &ServerMsg::Error("no".into())).unwrap();
    assert_eq!(buf, vec![0x82, 2, 0, 0, 0, b'n', b'o']);
}

#[test]
fn length_field_is_little_endian_over_four_bytes() {
    let text = "a".repeat(0x0001_0203);
    let mut buf = Vec::new();
    write_server_msg(&mut buf, &ServerMsg::Text(text.clone())).unwrap();
    assert_eq!(&buf[..5], &[0x81, 0x03, 0x02, 0x01, 0x00]);
    assert_eq!(buf.len(), 5 + 0x0001_0203);
    let mut cursor = ByteReader::new(buf);
    match read_server_msg(&mut cursor).unwrap() {
        ServerMsg::Text(t) => assert_eq!(t, text),
        other => panic!("Expected Text, got {other:?}"),
    }
    assert_eq!(cursor.remaining(), 0);
}

#[test]
fn writing_appends_to_what_is_there() {
    let mut buf = vec![7u8, 8, 9];
    write_client_msg(&mut buf, &ClientMsg::AudioSegment(vec![1])).unwrap();
    assert_eq!(buf, vec![7, 8, 9, 0x01, 2, 0, 0, 0, 1, 0]);
}

#[test]
fn odd_audio_length_is_rejected_behind_the_header() {
    let buf = vec![0x01, 3, 0, 0, 0, 1, 2, 3];
    let mut cursor = ByteReader::new(buf);
    assert_eq!(
        read_client_msg(&mut cursor).err(),
        Some(ProtocolError::OddAudioLength(3))
    );
    assert_eq!(cursor.remaining(), 3);
}

#[test]
fn unknown_tags_are_named_in_the_error() {
    let mut cursor = ByteReader::new(vec![0x80, 0, 0, 0, 0]);
    assert_eq!(
        read_client_msg(&mut cursor).err(),
        Some(ProtocolError::UnknownTag(0x80))
    );
    let mut cursor = ByteReader::new(vec![0x01, 0, 0, 0, 0]);
    assert_eq!(
        read_server_msg(&mut cursor).err(),
        Some(ProtocolError::UnknownTag(0x01))
    );
    assert_eq!(cursor.remaining(), 0);
}

#[test]
fn truncated_streams_end_unexpectedly() {
    let mut cursor = ByteReader::new(vec![]);
    assert_eq!(
        read_server_msg(&mut cursor).err(),
        Some(ProtocolError::UnexpectedEof)
    );
    let mut cursor = ByteReader::new(vec![0x81, 4, 0]);
    assert_eq!(
        read_server_msg(&mut cursor).err(),
        Some(ProtocolError::UnexpectedEof)
    );
    assert_eq!(cursor.remaining(), 0);
    let mut cursor = ByteReader::new(vec![0x01, 4, 0, 0, 0, 1, 2]);
    assert_eq!(
        read_client_msg(&mut cursor).err(),
        Some(ProtocolError::UnexpectedEof)
    );
    assert_eq!(cursor.remaining(), 0);
}

#[test]
fn invalid_utf8_text_is_rejected() {
    let mut cursor = ByteReader::new(vec![0x81, 2, 0, 0, 0, 0xC3, 0x28, 0x80, 0, 0, 0, 0]);
    assert_eq!(
        read_server_msg(&mut cursor).err(),
        Some(ProtocolError::InvalidUtf8)
    );
    assert!(matches!(read_server_msg(&mut cursor).unwrap(), ServerMsg::Ready));
}

#[test]
fn ready_with_payload_skips_it() {
    let mut cursor = ByteReader::new(vec![0x80, 2, 0, 0, 0, 0xAA, 0xBB, 0x81, 1, 0, 0, 0, b'x']);
    assert!(matches!(read_server_msg(&mut cursor).unwrap(), ServerMsg::Ready));
    match read_server_msg(&mut cursor).unwrap() {
        ServerMsg::Text(t) => assert_eq!(t, "x"),
        other => panic!("Expected Text, got {other:?}"),
    }
    assert_eq!(cursor.remaining(), 0);
}

#[test]
fn multiple_client_messages_in_stream() {
    let mut buf = Vec::new();
    write_client_msg(&mut buf, &ClientMsg::AudioSegment(vec![1, 2, 3])).unwrap();
    write_client_msg(&mut buf, &ClientMsg::AudioSegment(vec![])).unwrap();
    write_client_msg(&mut buf, &ClientMsg::AudioSegment(vec![-5])).unwrap();
    let mut cursor = ByteReader::new(buf);
    let expected: Vec<Vec<i16>> = vec![vec![1, 2, 3], vec![], vec![-5]];
    for want in expected {
        match read_client_msg(&mut cursor).unwrap() {
            ClientMsg::AudioSegment(got) => assert_eq!(got, want),
        }
    }
    assert_eq!(
        read_client_msg(&mut cursor).err(),
        Some(ProtocolError::UnexpectedEof)
    );
}

#[test]
fn reader_hands_out_exact_runs() {
    let mut cursor = ByteReader::new(vec![1, 2, 3, 4, 5]);
    assert_eq!(cursor.remaining(), 5);
    assert_eq!(cursor.read_exact(2), Ok(vec![1, 2]));
    assert_eq!(cursor.read_exact(0), Ok(vec![]));
    assert_eq!(cursor.read_exact(4), Err(ProtocolError::UnexpectedEof));
    assert_eq!(cursor.remaining(), 0);
}

#[test]
fn headers_announce_the_payload() {
    assert_eq!(client_payload_len(&vec![0x01, 0x10, 0x27, 0, 0]), Ok(10000));
    assert_eq!(
        client_payload_len(&vec![0x01, 0x11, 0x27, 0, 0]),
        Err(ProtocolError::OddAudioLength(10001))
    );
    assert_eq!(
        client_payload_len(&vec![0x02, 0, 0, 0, 0]),
        Err(ProtocolError::UnknownTag(2))
    );
    assert_eq!(
        client_payload_len(&vec![0x01, 0, 0]),
        Err(ProtocolError::UnexpectedEof)
    );
    assert_eq!(server_payload_len(&vec![0x81, 0xFF, 0xFF, 0xFF, 0xFF]), Ok(u32::MAX));
    assert_eq!(server_payload_len(&vec![0x80, 0, 0, 0, 0]), Ok(0));
    assert_eq!(server_payload_len(&vec![0x82, 1, 1, 0, 0]), Ok(257));
    assert_eq!(
        server_payload_len(&vec![0x83, 0, 0, 0, 0]),
        Err(ProtocolError::UnknownTag(0x83))
    );
}
