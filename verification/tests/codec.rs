use minichain::codec::{
    address_ok, concat_u8, decode_id, decode_id_response, decode_message, decode_sockip,
    encode_id, encode_message, encode_sockip, id_text_ok, Flag, ProtocolError,
};
use minichain::text::{parse_u128, parse_u32, u128_to_string, u32_to_string, u64_to_string};

#[test]
fn concat_joins_in_order() {
    let a: &[u8] = b"Hello, ";
    let b: &[u8] = b"World!";
    assert_eq!(concat_u8(a, b), b"Hello, World!".to_vec());
}

#[test]
fn sockip_padding_round_trip() {
    let padded = encode_sockip(String::from("127.0.0.1:4000"));
    assert_eq!(padded, "127.0.0.1:4000XXXXXXX");
    assert_eq!(padded.len(), 21);
    assert_eq!(decode_sockip(padded), "127.0.0.1:4000");
}

#[test]
fn id_padding_round_trip() {
    let padded = encode_id(String::from("42"));
    assert_eq!(padded, "42YYYYYYYY");
    assert_eq!(padded.len(), 10);
    assert_eq!(decode_id(padded), "42");
    assert_eq!(decode_id_response(String::from("7YYYYYYYYY")), "7");
}

#[test]
fn message_round_trip() {
    let frame = encode_message(
        Flag::Connect,
        String::from("127.0.0.1:4000"),
        String::from("17"),
        String::from("hello mesh"),
    );
    assert_eq!(frame.len(), 32 + 10);
    let m = decode_message(&frame).expect("frame must decode");
    assert!(matches!(m.flag, Flag::Connect));
    assert_eq!(m.sender_addr, "127.0.0.1:4000");
    assert_eq!(m.sender_id, "17");
    assert_eq!(m.payload, "hello mesh");
}

#[test]
fn message_round_trip_empty_fields() {
    let frame = encode_message(
        Flag::RequireID,
        String::from("h:1"),
        String::new(),
        String::new(),
    );
    assert_eq!(frame.len(), 32);
    let m = decode_message(&frame).expect("frame must decode");
    assert!(matches!(m.flag, Flag::RequireID));
    assert_eq!(m.sender_addr, "h:1");
    assert_eq!(m.sender_id, "");
    assert_eq!(m.payload, "");
}

#[test]
fn message_round_trip_multibyte_payload() {
    let frame = encode_message(
        Flag::Transaction,
        String::from("h:1"),
        String::from("3"),
        String::from("caf\u{e9} \u{2714}"),
    );
    let m = decode_message(&frame).expect("frame must decode");
    assert_eq!(m.payload, "caf\u{e9} \u{2714}");
}

#[test]
fn decode_trims_trailing_buffer_padding() {
    let mut frame = encode_message(
        Flag::Transaction,
        String::from("h:1"),
        String::from("3"),
        String::from("pay"),
    );
    frame.extend_from_slice(&[0u8, 0, 0, 0]);
    let m = decode_message(&frame).expect("frame must decode");
    assert_eq!(m.payload, "pay");
}

#[test]
fn decode_rejects_truncated_frame() {
    let r = decode_message(&[1u8; 31]);
    assert_eq!(r.unwrap_err(), ProtocolError::Truncated);
}

#[test]
fn decode_rejects_unknown_tag() {
    let mut frame = encode_message(Flag::Okay, String::from("h:1"), String::new(), String::new());
    frame[0] = 99;
    assert_eq!(decode_message(&frame).unwrap_err(), ProtocolError::UnknownTag(99));
}

#[test]
fn decode_rejects_sentinel_collision_in_address() {
    let mut frame = encode_message(Flag::Okay, String::from("h:1"), String::new(), String::new());
    // an interior 'X' in the address field, before the padding
    frame[1] = b'X';
    assert_eq!(decode_message(&frame).unwrap_err(), ProtocolError::FieldCollision);
}

#[test]
fn decode_rejects_non_utf8_region() {
    let mut frame = encode_message(Flag::Okay, String::from("h:1"), String::new(), String::new());
    frame[2] = 0xff;
    assert_eq!(decode_message(&frame).unwrap_err(), ProtocolError::NonUtf8);
    let mut frame2 = encode_message(
        Flag::Okay,
        String::from("h:1"),
        String::new(),
        String::from("pay"),
    );
    frame2.push(0xff);
    assert_eq!(decode_message(&frame2).unwrap_err(), ProtocolError::NonUtf8);
}

#[test]
fn decode_rejects_non_digit_id() {
    let mut frame = encode_message(Flag::Okay, String::from("h:1"), String::new(), String::new());
    frame[22] = b'a';
    assert_eq!(decode_message(&frame).unwrap_err(), ProtocolError::FieldCollision);
}

#[test]
fn decimal_formatting_exact() {
    assert_eq!(u32_to_string(0), "0");
    assert_eq!(u32_to_string(4294967295), "4294967295");
    assert_eq!(u64_to_string(18446744073709551615), "18446744073709551615");
    assert_eq!(u128_to_string(1234567890123456789012345678901234567), "1234567890123456789012345678901234567");
}

#[test]
fn decimal_parsing_exact() {
    assert_eq!(parse_u32("0"), Some(0));
    assert_eq!(parse_u32("007"), Some(7));
    assert_eq!(parse_u32("4294967295"), Some(4294967295));
    assert_eq!(parse_u32("4294967296"), None);
    assert_eq!(parse_u32(""), None);
    assert_eq!(parse_u32("12a"), None);
    assert_eq!(parse_u128("340282366920938463463374607431768211455"), Some(u128::MAX));
    assert_eq!(parse_u128("340282366920938463463374607431768211456"), None);
}

#[test]
fn validity_checks() {
    assert!(address_ok("127.0.0.1:4000"));
    assert!(!address_ok("has a X"));
    assert!(!address_ok("commas,bad"));
    assert!(!address_ok("toolongaddresstoolongaddress"));
    assert!(id_text_ok(""));
    assert!(id_text_ok("0123456789"));
    assert!(!id_text_ok("01234567890"));
    assert!(!id_text_ok("12b"));
}
