use darkui::codec::{encode_privmsg_payload, CorruptKind, MessageId, MsgRecord, MsgType};
use darkui::filemsg::{decode_filemsg_payload, derive_filemsg, derived_file_id, encode_filemsg_payload, get_file_url};

fn privmsg(text: &str) -> MsgRecord {
    let mut rec = MsgRecord::new(1000, MessageId([7; 32]), MsgType::PrivMsg);
    rec.payload = encode_privmsg_payload("alice", text, true);
    rec
}

#[test]
fn derivation_keys_and_orders() {
    let privmsg = privmsg("grab fud://abcdef/file.tar now");

    let file = derive_filemsg(&privmsg, "grab fud://abcdef/file.tar now").expect("derived");
    assert_eq!(file.ts, privmsg.ts, "shares the privmsg timestamp");
    assert!(file.id.0 > privmsg.id.0, "sorts directly below its source line");
    assert_eq!(file.msg_type, MsgType::FileMsg);
    let url = decode_filemsg_payload(&file.payload, file.ts, &file.id).unwrap();
    let url = url::Url::parse(&url).unwrap();
    assert_eq!(url.host_str(), Some("abcdef"));

    assert!(derive_filemsg(&privmsg, "no urls here").is_none());
}

#[test]
fn file_url_is_the_first_fud_match() {
    assert_eq!(
        get_file_url("see fud://abc/one and fud://def/two"),
        Some("fud://abc/one".to_string())
    );
    assert_eq!(get_file_url("https://example.com/x"), None);
    assert_eq!(get_file_url(""), None);
}

#[test]
fn derived_id_is_a_hash_with_the_top_byte_forced() {
    let src = MessageId([7; 32]);
    let id = derived_file_id(&src);
    let digest = blake3::hash(&src.0);
    assert_eq!(id.0[0], 0xff);
    assert_eq!(&id.0[1..8], &digest.as_bytes()[1..8]);
    assert!(id.0[8..].iter().all(|b| *b == 0));
    // Deterministic: the same source always derives the same id.
    assert_eq!(derived_file_id(&src), id);
}

#[test]
fn filemsg_payload_round_trip() {
    let payload = encode_filemsg_payload("fud://abcdef012345/file.png");
    assert_eq!(
        decode_filemsg_payload(&payload, 5, &MessageId([1; 32])).unwrap(),
        "fud://abcdef012345/file.png"
    );
}

#[test]
fn bad_filemsg_payload_is_reported_corrupt() {
    let id = MessageId([3; 32]);
    let err = decode_filemsg_payload(&[], 9, &id).unwrap_err();
    assert_eq!(err.kind, CorruptKind::BadFilemsgUrl);
    assert_eq!(err.ts, 9);
    assert_eq!(err.id, id);
    let payload = encode_filemsg_payload("not a url");
    assert_eq!(decode_filemsg_payload(&payload, 9, &id).unwrap_err().kind, CorruptKind::BadFilemsgUrl);
}

#[test]
fn fud_match_is_leftmost_and_stops_at_unicode_whitespace() {
    assert_eq!(get_file_url("see fud://abc\u{a0}def").as_deref(), Some("fud://abc"));
    assert_eq!(get_file_url("fud://x\u{3000}y").as_deref(), Some("fud://x"));
    // A bare prefix is no match; the next one is taken.
    assert_eq!(get_file_url("fud:// then fud://zz").as_deref(), Some("fud://zz"));
    assert_eq!(get_file_url("fud://"), None);
    assert_eq!(get_file_url("FUD://abc"), None);
}
