use darkui::codec::{
    decode_datemsg_payload, decode_insert_data, decode_key, decode_privmsg_payload, decode_value,
    encode_datemsg_payload, encode_insert_data, encode_key, encode_privmsg_payload, encode_value,
    msg_type_from_u8, try_msg_type_from_u8, CorruptKind, MessageId, MsgType, KEY_LEN,
};

fn rid(b: u8) -> MessageId {
    MessageId([b; 32])
}

#[test]
fn key_round_trip() {
    let key = encode_key(1_756_000_000_000, &rid(7));
    assert_eq!(key.len(), KEY_LEN);
    assert_eq!(decode_key(&key), (1_756_000_000_000, rid(7)));
    // BE ordering: the ts leads.
    assert_eq!(&key[..8], &1_756_000_000_000u64.to_be_bytes());
}

#[test]
fn privmsg_value_round_trip() {
    let id = rid(1);
    let payload = encode_privmsg_payload("alice", "hello world", false);
    let val = encode_value(MsgType::PrivMsg, &payload);
    assert_eq!(val[0], MsgType::PrivMsg as u8);

    let rec = decode_value(&val, 123, &id).unwrap();
    assert_eq!(rec.ts, 123);
    assert_eq!(rec.id, id);
    assert_eq!(rec.msg_type, MsgType::PrivMsg);
    assert_eq!(
        decode_privmsg_payload(&rec.payload, 123, &id).unwrap(),
        ("alice".to_string(), "hello world".to_string(), false)
    );

    let payload = encode_privmsg_payload("NOTICE", "\u{1}ACTION waves\u{1}", true);
    let val = encode_value(MsgType::PrivMsg, &payload);
    let rec = decode_value(&val, 124, &id).unwrap();
    assert_eq!(
        decode_privmsg_payload(&rec.payload, 124, &id).unwrap(),
        ("NOTICE".to_string(), "\u{1}ACTION waves\u{1}".to_string(), true)
    );
}

#[test]
fn datemsg_value_round_trip() {
    let payload = encode_datemsg_payload(1_755_936_000_000);
    let val = encode_value(MsgType::DateMsg, &payload);
    let rec = decode_value(&val, 1_755_936_000_000, &rid(0)).unwrap();
    assert_eq!(rec.msg_type, MsgType::DateMsg);
    assert_eq!(decode_datemsg_payload(&rec.payload, 0, &rid(0)).unwrap(), 1_755_936_000_000);
}

#[test]
fn discriminants_are_the_wire_tags() {
    assert_eq!(MsgType::PrivMsg as u8, 0);
    assert_eq!(MsgType::FileMsg as u8, 1);
    assert_eq!(MsgType::DateMsg as u8, 2);
    assert_eq!(msg_type_from_u8(0), MsgType::PrivMsg);
    assert_eq!(msg_type_from_u8(1), MsgType::FileMsg);
    assert_eq!(msg_type_from_u8(2), MsgType::DateMsg);
}

#[test]
fn wire_tag_matches_discriminant() {
    for t in [MsgType::PrivMsg, MsgType::FileMsg, MsgType::DateMsg] {
        assert_eq!(t.wire_tag(), t as u8);
        assert_eq!(try_msg_type_from_u8(t as u8), Some(t));
    }
    assert_eq!(try_msg_type_from_u8(3), None);
    assert!(MsgType::DateMsg.is_derived());
    assert!(!MsgType::PrivMsg.is_derived());
    assert!(!MsgType::FileMsg.is_derived());
}

#[test]
fn unknown_tag_is_corrupt() {
    let e = decode_value(&[9, 0, 0], 1, &rid(1)).unwrap_err();
    assert_eq!(e.kind, CorruptKind::UnknownTag(9));
    assert_eq!((e.ts, e.id), (1, rid(1)));
}

#[test]
fn empty_value_is_corrupt() {
    assert_eq!(decode_value(&[], 1, &rid(1)).unwrap_err().kind, CorruptKind::EmptyValue);
}

#[test]
fn truncated_privmsg_payload_is_corrupt() {
    let mut payload = encode_privmsg_payload("alice", "hello", true);
    payload.truncate(6);
    let e = decode_privmsg_payload(&payload, 5, &rid(2)).unwrap_err();
    assert_eq!(e.kind, CorruptKind::BadPrivmsgText);
}

#[test]
fn missing_confirmed_flag_is_corrupt() {
    let mut payload = encode_privmsg_payload("alice", "hello", true);
    payload.pop();
    let e = decode_privmsg_payload(&payload, 5, &rid(2)).unwrap_err();
    assert_eq!(e.kind, CorruptKind::BadPrivmsgConfirmedFlag);
}

#[test]
fn legacy_untagged_value_is_corrupt() {
    // The old store kept `nick, text` with no tag byte; the nick's length
    // byte reads as a tag and must be reported, never misread.
    let mut legacy = encode_privmsg_payload("alice", "hello", true);
    legacy.pop();
    assert_eq!(legacy[0], 5);
    assert_eq!(decode_value(&legacy, 1, &rid(1)).unwrap_err().kind, CorruptKind::UnknownTag(5));
}

#[test]
fn stored_filemsg_is_corrupt() {
    assert_eq!(decode_value(&[1, 0, 0], 1, &rid(1)).unwrap_err().kind, CorruptKind::StoredFileMsg);
}

#[test]
fn bad_datemsg_payload_is_corrupt() {
    assert_eq!(decode_value(&[2, 1, 2, 3], 1, &rid(1)).unwrap_err().kind, CorruptKind::BadDatemsgMidnight);
    let e = decode_datemsg_payload(&[1, 2, 3], 7, &rid(3)).unwrap_err();
    assert_eq!(e.kind, CorruptKind::BadDatemsgMidnight);
}

#[test]
fn bad_privmsg_nick_is_corrupt() {
    // A string length announcing more bytes than there are.
    let e = decode_privmsg_payload(&[9, b'a'], 5, &rid(2)).unwrap_err();
    assert_eq!(e.kind, CorruptKind::BadPrivmsgNick);
    // Invalid UTF-8 in the nick.
    let e = decode_privmsg_payload(&[1, 0xff, 0, 1], 5, &rid(2)).unwrap_err();
    assert_eq!(e.kind, CorruptKind::BadPrivmsgNick);
}

#[test]
fn privmsg_payload_layout() {
    // [len]["alice"][len]["hi"][confirmed]
    let payload = encode_privmsg_payload("alice", "hi", true);
    assert_eq!(payload, vec![5, b'a', b'l', b'i', b'c', b'e', 2, b'h', b'i', 1]);
    // Non-zero bytes read as true.
    let mut p = payload.clone();
    *p.last_mut().unwrap() = 7;
    assert!(decode_privmsg_payload(&p, 0, &rid(0)).unwrap().2);
}

#[test]
fn long_strings_use_wide_varints() {
    let text = "x".repeat(300);
    let payload = encode_privmsg_payload("n", &text, false);
    // 300 bytes: 0xfd marker then 300 little-endian.
    assert_eq!(&payload[2..5], &[0xfd, 0x2c, 0x01]);
    assert_eq!(decode_privmsg_payload(&payload, 0, &rid(0)).unwrap(), ("n".to_string(), text, false));
}

#[test]
fn non_minimal_varint_is_rejected() {
    // 5 encoded with the 0xfd marker is not minimal.
    let payload = [0xfd, 5, 0, b'a', b'b', b'c', b'd', b'e', 0, 0];
    assert_eq!(decode_privmsg_payload(&payload, 0, &rid(0)).unwrap_err().kind, CorruptKind::BadPrivmsgNick);
}

#[test]
fn datemsg_payload_is_little_endian() {
    assert_eq!(encode_datemsg_payload(0x0102), vec![2, 1, 0, 0, 0, 0, 0, 0]);
}

#[test]
fn insert_data_round_trip() {
    let data = encode_insert_data(1_756_000_000_000, &rid(9), "alice", "hi there");
    assert_eq!(data.len(), 8 + 32 + 6 + 9);
    assert_eq!(
        decode_insert_data(&data),
        Some((1_756_000_000_000, rid(9), "alice".to_string(), "hi there".to_string()))
    );
    assert_eq!(decode_insert_data(&data[..20]), None);
}

#[test]
fn keys_order_by_timestamp_first() {
    let a = encode_key(100, &rid(0xff));
    let b = encode_key(101, &rid(0));
    assert!(a < b);
    let c = encode_key(100, &rid(1));
    let d = encode_key(100, &rid(2));
    assert!(c < d);
}

#[test]
fn encoded_keys_sort_like_composite_keys() {
    let samples = [
        (0u64, rid(0)),
        (1, rid(0)),
        (255, rid(9)),
        (256, rid(1)),
        (256, rid(2)),
        (1_756_000_000_000, rid(0xff)),
        (u64::MAX, rid(0)),
    ];
    for (t1, i1) in samples.iter() {
        for (t2, i2) in samples.iter() {
            let bytes = encode_key(*t1, i1) < encode_key(*t2, i2);
            let composite = (*t1, i1.0) < (*t2, i2.0);
            assert_eq!(bytes, composite);
        }
    }
}
