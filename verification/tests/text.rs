use darkui::codec::{encode_key, MessageId};
use darkui::loader::{resume_key, Wakeup};
use darkui::repeat::RepeatingKeyTimer;
use darkui::strs::{byte_offset_of, char_len_utf8, join_strs, split_at_byte, split_at_char, substr_bytes};
use darkui::utf16::{byte_to_char16_index, char16_to_byte_index};

#[test]
fn char16_index_maps_to_bytes() {
    // 'é' is 2 bytes / 1 unit; '😀' is 4 bytes / 2 units.
    let s = "aé😀b";
    assert_eq!(char16_to_byte_index(s, 0), Some(0));
    assert_eq!(char16_to_byte_index(s, 1), Some(1));
    assert_eq!(char16_to_byte_index(s, 2), Some(3));
    // Inside the surrogate pair.
    assert_eq!(char16_to_byte_index(s, 3), None);
    assert_eq!(char16_to_byte_index(s, 4), Some(7));
    assert_eq!(char16_to_byte_index(s, 5), Some(8));
    // Past the end: the whole string.
    assert_eq!(char16_to_byte_index(s, 50), Some(8));
}

#[test]
fn byte_index_maps_to_char16() {
    let s = "aé😀b";
    assert_eq!(byte_to_char16_index(s, 0), Some(0));
    assert_eq!(byte_to_char16_index(s, 1), Some(1));
    assert_eq!(byte_to_char16_index(s, 2), None);
    assert_eq!(byte_to_char16_index(s, 3), Some(2));
    assert_eq!(byte_to_char16_index(s, 7), Some(4));
    assert_eq!(byte_to_char16_index(s, 8), Some(5));
    assert_eq!(byte_to_char16_index(s, 9), None);
}

#[test]
fn utf16_and_byte_indices_round_trip() {
    let s = "x😀yé";
    for units in [0usize, 1, 3, 4, 5] {
        let b = char16_to_byte_index(s, units).unwrap();
        assert_eq!(byte_to_char16_index(s, b), Some(units));
    }
}

#[test]
fn string_helpers() {
    assert_eq!(char_len_utf8('a'), 1);
    assert_eq!(char_len_utf8('é'), 2);
    assert_eq!(char_len_utf8('€'), 3);
    assert_eq!(char_len_utf8('😀'), 4);
    assert_eq!(byte_offset_of("aé😀b", 3), 7);
    assert_eq!(split_at_char("aé😀b", 2), ("aé", "😀b"));
    assert_eq!(split_at_byte("aé😀b", 3), ("aé".to_string(), "😀b".to_string()));
    assert_eq!(substr_bytes("hello world", 6, 11), "world");
    assert_eq!(join_strs("ab", "cd"), "abcd");
}

#[test]
fn repeat_waits_for_start_delay_then_steps() {
    let mut t = RepeatingKeyTimer::new();
    assert_eq!(t.update_at(100, 300, 50), 0);
    assert_eq!(t.update_at(300, 300, 50), 0);
    assert_eq!(t.update_at(420, 300, 50), 2);
    assert_eq!(t.update_at(440, 300, 50), 0);
    assert_eq!(t.update_at(450, 300, 50), 1);
}

#[test]
fn repeat_clock_update_is_nothing_right_after_press() {
    let mut t = RepeatingKeyTimer::new();
    // A long start delay cannot have elapsed yet.
    assert_eq!(t.update(60_000, 50), 0);
}

#[test]
fn wake_reason_bits_coalesce() {
    let bits = [
        Wakeup::ChannelSwitch.bit(),
        Wakeup::NearTop.bit(),
        Wakeup::Insert.bit(),
        Wakeup::FilterChange.bit(),
        Wakeup::RectChange.bit(),
    ];
    assert_eq!(bits, [1, 2, 4, 8, 16]);
    let pending = Wakeup::Insert.bit() | Wakeup::RectChange.bit();
    assert!(!Wakeup::reloads(pending));
    assert!(Wakeup::reloads(pending | Wakeup::FilterChange.bit()));
    assert!(Wakeup::reloads(Wakeup::ChannelSwitch.bit()));
    assert!(!Wakeup::reloads(0));
}

#[test]
fn loading_resumes_below_the_oldest_millisecond() {
    assert_eq!(resume_key(None), None);
    let key = resume_key(Some(500)).unwrap();
    assert_eq!(key, encode_key(499, &MessageId([0xff; 32])));
    assert!(encode_key(499, &MessageId([7; 32])) < key);
    assert!(encode_key(500, &MessageId([0; 32])) > key);
    assert_eq!(resume_key(Some(0)).unwrap(), encode_key(0, &MessageId([0xff; 32])));
}

#[test]
fn utf16_indices_at_surrogate_pairs() {
    let s = "a😀b";
    assert_eq!(byte_to_char16_index(s, 5), Some(3));
    assert_eq!(char16_to_byte_index(s, 3), Some(5));
    assert_eq!(char16_to_byte_index(s, 2), None);
    assert_eq!(byte_to_char16_index(s, 2), None);
    for b in 0..=s.len() {
        if s.is_char_boundary(b) {
            assert_eq!(char16_to_byte_index(s, byte_to_char16_index(s, b).unwrap()), Some(b));
        }
    }
}

#[test]
fn time_label_is_hours_and_minutes() {
    let label = darkui::privmsg::gen_timestr(1_700_000_000_000);
    assert_eq!(label.len(), 5);
    assert_eq!(&label[2..3], ":");
    let h: u32 = label[..2].parse().unwrap();
    let m: u32 = label[3..].parse().unwrap();
    assert!(h <= 23 && m <= 59);
    // 1_700_000_000_000 ms is 22:13:20 UTC; zone offsets are whole,
    // half or three-quarter hours.
    assert!([13, 43, 58].contains(&m));
}
