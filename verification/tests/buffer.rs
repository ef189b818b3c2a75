use chrono::{Local, NaiveDate, TimeZone};
use darkui::buffer::MsgBuffer;
use darkui::codec::{MessageId, MsgRecord, MsgType, Timestamp};

fn rec(ts: Timestamp, id_byte: u8) -> MsgRecord {
    MsgRecord::new(ts, MessageId([id_byte; 32]), MsgType::PrivMsg)
}

fn ids_in_order(buf: &MsgBuffer) -> Vec<u8> {
    let mut ids = vec![];
    for rec in buf.iter_display_order() {
        ids.push(rec.id.0[0]);
    }
    ids
}

/// Timestamps on distinct local days, in unix ms.
fn day_ts(day_offset: i64, hour: u32, min: u32) -> Timestamp {
    let date = NaiveDate::from_ymd_opt(2026, 8, 29).unwrap() + chrono::Duration::days(day_offset);
    let dt = date.and_hms_opt(hour, min, 0).unwrap();
    Local.from_local_datetime(&dt).unwrap().timestamp_millis() as u64
}

#[test]
fn insert_orders_descending() {
    let mut buf = MsgBuffer::new();
    buf.disable_separators();
    assert!(buf.insert(rec(300, b'a')));
    assert!(buf.insert(rec(100, b'b')));
    assert!(buf.insert(rec(200, b'c')));
    assert_eq!(ids_in_order(&buf), vec![b'a', b'c', b'b']);
    assert_eq!(buf.oldest_ts(), Some(100));
}

#[test]
fn insert_newest_goes_to_front() {
    let mut buf = MsgBuffer::new();
    buf.disable_separators();
    buf.insert(rec(100, b'a'));
    buf.insert(rec(200, b'b'));
    buf.insert(rec(500, b'c'));
    assert_eq!(ids_in_order(&buf), vec![b'c', b'b', b'a']);
}

#[test]
fn insert_older_goes_to_back() {
    let mut buf = MsgBuffer::new();
    buf.disable_separators();
    buf.insert(rec(200, b'b'));
    buf.insert(rec(300, b'c'));
    buf.insert(rec(50, b'a'));
    assert_eq!(ids_in_order(&buf), vec![b'c', b'b', b'a']);
    assert_eq!(buf.oldest_ts(), Some(50));
}

#[test]
fn duplicate_insert_is_ignored() {
    let mut buf = MsgBuffer::new();
    buf.disable_separators();
    assert!(buf.insert(rec(100, b'a')));
    assert!(!buf.insert(rec(100, b'a')));
    assert_eq!(buf.len(), 1);
    assert_eq!(ids_in_order(&buf), vec![b'a']);
}

#[test]
fn same_millisecond_coexists_ordered_by_id() {
    let mut buf = MsgBuffer::new();
    buf.disable_separators();
    assert!(buf.insert(rec(100, b'x')));
    assert!(buf.insert(rec(100, b'b')));
    assert!(buf.insert(rec(100, b'q')));
    assert_eq!(buf.len(), 3);
    assert_eq!(ids_in_order(&buf), vec![b'x', b'q', b'b']);
}

#[test]
fn removal_updates_ordering() {
    let mut buf = MsgBuffer::new();
    buf.disable_separators();
    buf.insert(rec(100, b'a'));
    buf.insert(rec(200, b'b'));
    buf.insert(rec(300, b'c'));

    assert!(buf.remove(&MessageId([b'b'; 32])));
    assert_eq!(ids_in_order(&buf), vec![b'c', b'a']);
    assert!(!buf.contains(&MessageId([b'b'; 32])));
    assert!(!buf.remove(&MessageId([b'b'; 32])));

    assert!(buf.remove(&MessageId([b'c'; 32])));
    assert_eq!(ids_in_order(&buf), vec![b'a']);
    assert_eq!(buf.oldest_ts(), Some(100));
}

#[test]
fn reinsert_after_removal_works() {
    let mut buf = MsgBuffer::new();
    buf.disable_separators();
    buf.insert(rec(100, b'a'));
    buf.insert(rec(200, b'b'));
    assert!(buf.remove(&MessageId([b'b'; 32])));
    assert!(buf.insert(rec(200, b'b')));
    assert_eq!(ids_in_order(&buf), vec![b'b', b'a']);
    assert_eq!(buf.position_of(&MessageId([b'b'; 32])), Some(0));
}

#[test]
fn record_access_by_id() {
    let mut buf = MsgBuffer::new();
    buf.disable_separators();
    buf.insert(rec(100, b'a'));
    assert!(buf.set_payload(&MessageId([b'a'; 32]), vec![42]));
    assert_eq!(buf.record(&MessageId([b'a'; 32])).unwrap().payload, vec![42]);
    assert!(buf.record(&MessageId([b'z'; 32])).is_none());
    assert!(!buf.set_payload(&MessageId([b'z'; 32]), vec![1]));
}

#[test]
fn clear_resets_everything() {
    let mut buf = MsgBuffer::new();
    buf.disable_separators();
    buf.insert(rec(100, b'a'));
    buf.insert(rec(200, b'b'));
    buf.clear();
    assert!(buf.is_empty());
    assert_eq!(buf.oldest_ts(), None);
    assert!(buf.insert(rec(100, b'a')));
    assert_eq!(ids_in_order(&buf), vec![b'a']);
}

#[test]
fn derived_records_share_synthetic_ids() {
    let mut buf = MsgBuffer::new();
    buf.disable_separators();
    let sep1 = MsgRecord::new(1000, MessageId([0; 32]), MsgType::DateMsg);
    let sep2 = MsgRecord::new(2000, MessageId([0; 32]), MsgType::DateMsg);
    assert!(buf.insert(sep1));
    assert!(buf.insert(sep2));
    assert_eq!(buf.len(), 2);
    // The zero id is not in the id index: derived lookups and
    // public removal go through real message ids only.
    assert!(!buf.contains(&MessageId([0; 32])));
    assert!(!buf.remove(&MessageId([0; 32])));
    assert_eq!(buf.oldest_ts(), Some(1000));
}

/// A small deterministic generator (xorshift64*).
struct Rng(u64);

impl Rng {
    fn next(&mut self) -> u64 {
        self.0 ^= self.0 >> 12;
        self.0 ^= self.0 << 25;
        self.0 ^= self.0 >> 27;
        self.0.wrapping_mul(0x2545_F491_4F6C_DD1D)
    }

    fn below(&mut self, n: u64) -> u64 {
        self.next() % n
    }
}

#[test]
fn randomized_inserts_match_sorted_reference() {
    let mut rng = Rng(0xBEEF);
    for _ in 0..50 {
        let n = rng.below(200);
        let mut keys = vec![];
        for _ in 0..n {
            let key = (rng.below(10_000), rng.below(255) as u8);
            keys.push(key);
        }
        let mut buf = MsgBuffer::new();
        buf.disable_separators();
        for (ts, id) in &keys {
            buf.insert(rec(*ts, *id));
        }

        keys.sort_unstable();
        keys.dedup();
        keys.reverse();
        assert_eq!(buf.len(), keys.len(), "loaded count");
        let mut expect = vec![];
        for (_, id) in &keys {
            expect.push(*id);
        }
        assert_eq!(ids_in_order(&buf), expect, "display order");
        assert_eq!(buf.oldest_ts(), keys.last().map(|(ts, _)| *ts));
    }
}

#[test]
fn record_at_counts_from_the_newest() {
    let mut buf = MsgBuffer::new();
    buf.disable_separators();
    buf.insert(rec(100, b'a'));
    buf.insert(rec(300, b'c'));
    buf.insert(rec(200, b'b'));
    assert_eq!(buf.record_at(0).unwrap().id.0[0], b'c');
    assert_eq!(buf.record_at(2).unwrap().id.0[0], b'a');
    assert!(buf.record_at(3).is_none());
    assert_eq!(buf.position_of(&MessageId([b'a'; 32])), Some(2));
    assert_eq!(buf.position_of(&MessageId([b'z'; 32])), None);
}

#[test]
fn separators_appear_at_day_boundaries() {
    let mut buf = MsgBuffer::new();
    // Two messages on day 0, one on day 1.
    buf.insert(rec(day_ts(0, 10, 0), b'a'));
    buf.insert(rec(day_ts(0, 11, 0), b'b'));
    buf.insert(rec(day_ts(1, 9, 0), b'c'));

    let kinds: Vec<(u8, bool)> =
        buf.iter_display_order().iter().map(|r| (r.id.0[0], r.msg_type.is_derived())).collect();
    // Display order (newest first): c, [sep day1], b, a, [sep day0].
    assert_eq!(kinds, vec![(b'c', false), (0, true), (b'b', false), (b'a', false), (0, true)]);

    // The separator keys are the local midnights.
    let seps: Vec<Timestamp> =
        buf.iter_display_order().iter().filter(|r| r.msg_type.is_derived()).map(|r| r.ts).collect();
    assert_eq!(
        seps,
        vec![MsgBuffer::midnight_of(day_ts(1, 9, 0)), MsgBuffer::midnight_of(day_ts(0, 10, 0))]
    );
}

#[test]
fn same_day_insert_adds_no_second_separator() {
    let mut buf = MsgBuffer::new();
    for i in 0..5 {
        assert!(buf.insert(rec(day_ts(0, 10, i), b'a' + i as u8)));
    }
    let sep_count = buf.iter_display_order().iter().filter(|r| r.msg_type.is_derived()).count();
    assert_eq!(sep_count, 1);
}

#[test]
fn deleting_a_days_only_message_removes_its_separator() {
    let mut buf = MsgBuffer::new();
    buf.insert(rec(day_ts(0, 10, 0), b'a'));
    buf.insert(rec(day_ts(1, 9, 0), b'b'));
    buf.insert(rec(day_ts(1, 10, 0), b'c'));
    assert_eq!(buf.iter_display_order().iter().filter(|r| r.msg_type.is_derived()).count(), 2);

    // Remove day 0's only message: its separator must go too.
    assert!(buf.remove(&MessageId([b'a'; 32])));
    let kinds: Vec<(u8, bool)> =
        buf.iter_display_order().iter().map(|r| (r.id.0[0], r.msg_type.is_derived())).collect();
    assert_eq!(kinds, vec![(b'c', false), (b'b', false), (0, true)]);

    // Removing one of day 1's messages keeps its separator.
    assert!(buf.remove(&MessageId([b'c'; 32])));
    let kinds: Vec<(u8, bool)> =
        buf.iter_display_order().iter().map(|r| (r.id.0[0], r.msg_type.is_derived())).collect();
    assert_eq!(kinds, vec![(b'b', false), (0, true)]);
}

#[test]
fn batch_insert_syncs_separators() {
    let mut buf = MsgBuffer::new();
    let batch = vec![
        rec(day_ts(2, 23, 0), b'x'),
        rec(day_ts(1, 8, 0), b'y'),
        rec(day_ts(0, 12, 0), b'z'),
        rec(day_ts(2, 1, 0), b'w'),
    ];
    assert_eq!(buf.insert_batch(batch), 4);
    assert_eq!(buf.iter_display_order().iter().filter(|r| r.msg_type.is_derived()).count(), 3);

    // Display order: x w [sep d2] y [sep d1] z [sep d0].
    let kinds: Vec<u8> = buf
        .iter_display_order()
        .iter()
        .map(|r| if r.msg_type.is_derived() { b'|' } else { r.id.0[0] })
        .collect();
    assert_eq!(kinds, vec![b'x', b'w', b'|', b'y', b'|', b'z', b'|']);
}

#[test]
fn batch_insert_rejects_duplicates_and_drops_orphan_separators() {
    let mut buf = MsgBuffer::new();
    // A separator for a day with no messages, arriving in a batch.
    let orphan = MsgRecord::new(5_000, MessageId([0; 32]), MsgType::DateMsg);
    let batch = vec![rec(day_ts(0, 12, 0), b'z'), rec(day_ts(0, 12, 0), b'z'), orphan];
    assert_eq!(buf.insert_batch(batch), 2);
    let kinds: Vec<(u8, bool)> =
        buf.iter_display_order().iter().map(|r| (r.id.0[0], r.msg_type.is_derived())).collect();
    assert_eq!(kinds, vec![(b'z', false), (0, true)]);
}

#[test]
fn dated_insert_uses_the_given_day() {
    let mut buf = MsgBuffer::new();
    assert!(buf.insert_dated(rec(1_500, b'a'), 1_000));
    assert!(buf.insert_dated(rec(2_500, b'b'), 2_000));
    assert!(buf.insert_dated(rec(2_600, b'c'), 2_000));
    let keys: Vec<(Timestamp, u8)> = buf.iter_display_order().iter().map(|r| (r.ts, r.id.0[0])).collect();
    assert_eq!(keys, vec![(2_600, b'c'), (2_500, b'b'), (2_000, 0), (1_500, b'a'), (1_000, 0)]);
}

#[test]
fn clear_drops_separators() {
    let mut buf = MsgBuffer::new();
    buf.insert(rec(day_ts(0, 10, 0), b'a'));
    buf.insert(rec(day_ts(1, 9, 0), b'b'));
    buf.clear();
    assert!(buf.is_empty());
    buf.insert(rec(day_ts(1, 9, 0), b'b'));
    let sep_count = buf.iter_display_order().iter().filter(|r| r.msg_type.is_derived()).count();
    assert_eq!(sep_count, 1, "separator re-derives after clear");
}

#[test]
fn remove_undoes_insert_with_its_separator() {
    let mut buf = MsgBuffer::new();
    buf.insert_dated(rec(2_500, b'b'), 2_000);
    let before: Vec<(Timestamp, u8, bool)> =
        buf.iter_display_order().iter().map(|r| (r.ts, r.id.0[0], r.msg_type.is_derived())).collect();
    // A message on a new day brings its separator; removing it takes both.
    assert!(buf.insert_dated(rec(1_500, b'a'), 1_000));
    assert_eq!(buf.len(), 4);
    assert!(buf.remove(&MessageId([b'a'; 32])));
    let after: Vec<(Timestamp, u8, bool)> =
        buf.iter_display_order().iter().map(|r| (r.ts, r.id.0[0], r.msg_type.is_derived())).collect();
    assert_eq!(after, before);
}

#[test]
fn resync_gives_each_populated_day_one_separator() {
    let mut buf = MsgBuffer::new();
    let batch: Vec<MsgRecord> = (0..6).map(|i| rec(day_ts(i % 3, 10, i as u32), b'a' + i as u8)).collect();
    assert_eq!(buf.insert_batch(batch), 6);
    let seps: Vec<Timestamp> =
        buf.iter_display_order().iter().filter(|r| r.msg_type.is_derived()).map(|r| r.ts).collect();
    assert_eq!(seps.len(), 3);
    for r in buf.iter_display_order() {
        if !r.msg_type.is_derived() {
            assert!(seps.contains(&MsgBuffer::midnight_of(r.ts)));
        }
    }
}

#[test]
fn id_finds_the_message_inserted_last() {
    let mut buf = MsgBuffer::new();
    let id = MessageId([b'd'; 32]);
    assert!(buf.insert(rec(day_ts(0, 9, 0), b'd')));
    assert!(buf.insert(rec(day_ts(0, 10, 0), b'd')));
    assert_eq!(buf.record(&id).map(|r| r.ts), Some(day_ts(0, 10, 0)));
    // Removing by id removes the later one; the id then finds nothing,
    // while the earlier message stays loaded.
    assert!(buf.remove(&id));
    assert!(!buf.contains(&id));
    assert!(!buf.remove(&id));
    let left: Vec<Timestamp> = buf.iter_display_order().iter().map(|r| r.ts).collect();
    assert!(left.contains(&day_ts(0, 9, 0)));
    assert!(!left.contains(&day_ts(0, 10, 0)));
    // An older message inserted after a newer one is the one found.
    let mut buf = MsgBuffer::new();
    buf.disable_separators();
    assert!(buf.insert(rec(500, b'e')));
    assert!(buf.insert(rec(100, b'e')));
    assert_eq!(buf.position_of(&MessageId([b'e'; 32])), Some(1));
    assert!(buf.set_payload(&MessageId([b'e'; 32]), vec![7]));
    assert_eq!(buf.record(&MessageId([b'e'; 32])).map(|r| (r.ts, r.payload.clone())), Some((100, vec![7])));
}
