use event_graph::event::create_message;
use event_graph::event::push_text;
use event_graph::event::read_text;
use event_graph::event::Event;
use event_graph::event::EventAction;
use event_graph::event::PrivMsgEvent;
use event_graph::wire::push_le;
use event_graph::wire::push_length;
use event_graph::wire::read_le;
use event_graph::wire::read_length;
use event_graph::wire::FormatError;

fn sample() -> Event {
    create_message([0x11u8; 32], "ab", "c", 0x0102_0304_0506_0708)
}

fn sample_bytes() -> Vec<u8> {
    let mut bytes = vec![0u8];
    bytes.extend_from_slice(&[0x11u8; 32]);
    bytes.extend_from_slice(&[2, 97, 98, 1, 99, 8, 7, 6, 5, 4, 3, 2, 1]);
    bytes
}

#[test]
fn create_message_fills_every_field() {
    let e = sample();
    assert_eq!(e.previous_event_hash, [0x11u8; 32]);
    assert_eq!(e.timestamp, 0x0102_0304_0506_0708);
    assert_eq!(
        e.action,
        EventAction::PrivMsg(PrivMsgEvent { nick: "ab".to_string(), msg: "c".to_string() })
    );
}

#[test]
fn encode_writes_tag_parent_fields_and_timestamp() {
    assert_eq!(sample().encode(), sample_bytes());
}

#[test]
fn encode_then_decode_gives_the_event_back() {
    let e = create_message([7u8; 32], "alice", "hello", 1234);
    let bytes = e.encode();
    assert_eq!(Event::decode(&bytes), Ok(e));
}

#[test]
fn decode_reads_the_canonical_bytes() {
    assert_eq!(Event::decode(&sample_bytes()), Ok(sample()));
}

#[test]
fn round_trip_keeps_text_beyond_ascii_and_empty_text() {
    let e = create_message([0u8; 32], "", "gr\u{fc}\u{df}e \u{1f600}", u64::MAX);
    assert_eq!(Event::decode(&e.encode()), Ok(e));
}

#[test]
fn round_trip_of_a_long_message_uses_a_three_byte_prefix() {
    let msg = "x".repeat(300);
    let e = create_message([3u8; 32], "n", &msg, 5);
    let bytes = e.encode();
    assert_eq!(bytes.len(), 1 + 32 + 2 + 3 + 300 + 8);
    assert_eq!(&bytes[35..38], &[0xFD, 0x2C, 0x01]);
    assert_eq!(Event::decode(&bytes), Ok(e));
}

#[test]
fn hash_is_the_sha256_of_the_encoding() {
    let expected: [u8; 32] = [
        203, 121, 59, 250, 115, 195, 189, 45, 255, 59, 132, 207, 146, 143, 16, 168, 72, 111, 81,
        237, 190, 184, 37, 22, 190, 190, 194, 75, 60, 65, 45, 166,
    ];
    assert_eq!(sample().hash(), expected);
}

#[test]
fn hash_is_stable_and_tells_events_apart() {
    let a = sample();
    let b = sample();
    assert_eq!(a.hash(), a.hash());
    assert_eq!(a.hash(), b.hash());
    let c = create_message([0x11u8; 32], "ab", "d", 0x0102_0304_0506_0708);
    assert_ne!(a.hash(), c.hash());
}

#[test]
fn decode_refuses_an_unknown_action_tag() {
    let mut bytes = sample_bytes();
    bytes[0] = 9;
    assert_eq!(Event::decode(&bytes), Err(FormatError::UnknownAction));
}

#[test]
fn decode_refuses_input_that_ends_early() {
    assert_eq!(Event::decode(&[]), Err(FormatError::Truncated));
    assert_eq!(Event::decode(&[0u8; 32]), Err(FormatError::Truncated));
    let bytes = sample_bytes();
    for cut in 0..bytes.len() {
        assert_eq!(Event::decode(&bytes[..cut]), Err(FormatError::Truncated));
    }
}

#[test]
fn decode_refuses_trailing_bytes() {
    let mut bytes = sample_bytes();
    bytes.push(0);
    assert_eq!(Event::decode(&bytes), Err(FormatError::TrailingBytes));
}

#[test]
fn decode_refuses_a_length_written_too_long() {
    let mut bytes = vec![0u8];
    bytes.extend_from_slice(&[0x11u8; 32]);
    bytes.extend_from_slice(&[0xFD, 2, 0, 97, 98, 1, 99, 8, 7, 6, 5, 4, 3, 2, 1]);
    assert_eq!(Event::decode(&bytes), Err(FormatError::NonMinimalLength));
}

#[test]
fn decode_refuses_text_that_is_not_utf8() {
    let mut bytes = vec![0u8];
    bytes.extend_from_slice(&[0x11u8; 32]);
    bytes.extend_from_slice(&[2, 0xFF, 0xFE, 1, 99, 8, 7, 6, 5, 4, 3, 2, 1]);
    assert_eq!(Event::decode(&bytes), Err(FormatError::InvalidText));
}

#[test]
fn action_encodes_its_tag_and_fields_and_counts_them() {
    let action = EventAction::PrivMsg(PrivMsgEvent { nick: "ab".to_string(), msg: "c".to_string() });
    assert_eq!(action.tag(), 0);
    let mut out = vec![42u8];
    let written = action.encode(&mut out);
    assert_eq!(written, 6);
    assert_eq!(out, vec![42, 0, 2, 97, 98, 1, 99]);
    assert_eq!(EventAction::decode(&out, 1), Ok((action, 7)));
}

#[test]
fn action_decode_reads_the_tag_from_the_input() {
    assert_eq!(EventAction::decode(&[9, 1, 97, 1, 98], 0), Err(FormatError::UnknownAction));
    assert_eq!(EventAction::decode(&[0, 1, 97, 1, 98], 5), Err(FormatError::Truncated));
    assert_eq!(EventAction::decode(&[], 0), Err(FormatError::Truncated));
    assert_eq!(EventAction::decode(&[0], 0), Err(FormatError::Truncated));
    assert_eq!(EventAction::decode(&[0, 1, 97], 0), Err(FormatError::Truncated));
    assert_eq!(EventAction::decode(&[0, 1, 0xFF, 0], 0), Err(FormatError::InvalidText));
    let both = EventAction::PrivMsg(PrivMsgEvent { nick: "a".to_string(), msg: "b".to_string() });
    assert_eq!(EventAction::decode(&[0, 1, 97, 1, 98, 7], 0), Ok((both, 5)));
}

#[test]
fn action_fields_stand_without_the_tag() {
    let action = EventAction::PrivMsg(PrivMsgEvent { nick: "ab".to_string(), msg: "c".to_string() });
    let mut out = vec![42u8];
    let written = action.encode_fields(&mut out);
    assert_eq!(written, 5);
    assert_eq!(out, vec![42, 2, 97, 98, 1, 99]);
    assert_eq!(EventAction::decode_fields(0, &out, 1), Ok((action, 6)));
    assert_eq!(EventAction::decode_fields(1, &out, 1), Err(FormatError::UnknownAction));
}

#[test]
fn text_fields_carry_their_length() {
    let mut out = Vec::new();
    push_text(&mut out, &"hi".to_string());
    assert_eq!(out, vec![2, b'h', b'i']);
    assert_eq!(read_text(&out, 0), Ok(("hi".to_string(), 3)));
    assert_eq!(read_text(&out, 3), Err(FormatError::Truncated));
    assert_eq!(read_text(&[5, b'h'], 0), Err(FormatError::Truncated));
    assert_eq!(read_text(&[1, 0x80], 0), Err(FormatError::InvalidText));
}

#[test]
fn little_endian_numbers() {
    let mut out = vec![9u8];
    push_le(&mut out, 0x0102_0304, 4);
    assert_eq!(out, vec![9, 4, 3, 2, 1]);
    assert_eq!(read_le(&out, 1, 4), 0x0102_0304);
    assert_eq!(read_le(&out, 1, 0), 0);
    let mut wide = Vec::new();
    push_le(&mut wide, u64::MAX, 8);
    assert_eq!(wide, vec![0xFF; 8]);
    assert_eq!(read_le(&wide, 0, 8), u64::MAX);
    let mut cut = Vec::new();
    push_le(&mut cut, 0x1234, 1);
    assert_eq!(cut, vec![0x34]);
}

#[test]
fn length_prefix_takes_the_shortest_form() {
    let cases: Vec<(u64, Vec<u8>)> = vec![
        (0, vec![0]),
        (252, vec![252]),
        (253, vec![0xFD, 253, 0]),
        (0xFFFF, vec![0xFD, 0xFF, 0xFF]),
        (0x1_0000, vec![0xFE, 0, 0, 1, 0]),
        (0xFFFF_FFFF, vec![0xFE, 0xFF, 0xFF, 0xFF, 0xFF]),
        (0x1_0000_0000, vec![0xFF, 0, 0, 0, 0, 1, 0, 0, 0]),
        (u64::MAX, vec![0xFF; 9]),
    ];
    for (n, bytes) in cases {
        let mut out = Vec::new();
        push_length(&mut out, n);
        assert_eq!(out, bytes);
        assert_eq!(read_length(&out, 0), Ok((n, bytes.len())));
    }
}

#[test]
fn length_prefix_errors() {
    assert_eq!(read_length(&[], 0), Err(FormatError::Truncated));
    assert_eq!(read_length(&[1], 1), Err(FormatError::Truncated));
    assert_eq!(read_length(&[0xFD, 1], 0), Err(FormatError::Truncated));
    assert_eq!(read_length(&[0xFE, 1, 2, 3], 0), Err(FormatError::Truncated));
    assert_eq!(read_length(&[0xFF, 1, 2, 3, 4, 5, 6, 7], 0), Err(FormatError::Truncated));
    assert_eq!(read_length(&[0xFD, 252, 0], 0), Err(FormatError::NonMinimalLength));
    assert_eq!(read_length(&[0xFE, 0xFF, 0xFF, 0, 0], 0), Err(FormatError::NonMinimalLength));
    assert_eq!(
        read_length(&[0xFF, 0xFF, 0xFF, 0xFF, 0xFF, 0, 0, 0, 0], 0),
        Err(FormatError::NonMinimalLength)
    );
}
