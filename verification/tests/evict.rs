use darkui::codec::MessageId;
use darkui::evict::{evict_beyond, InstKey};

fn key(n: u64) -> InstKey {
    (n, MessageId([n as u8; 32]))
}

#[test]
fn evict_beyond_keeps_window_members() {
    let keep = vec![key(1), key(2)];
    let mut touches = Vec::new();
    for n in 0..10u64 {
        touches.push((key(n), n));
    }
    // Window members are never released, whatever the budget.
    assert!(evict_beyond(&keep, &touches, 0).iter().all(|k| !keep.contains(k)));
    let releases = evict_beyond(&keep, &touches, 0);
    assert_eq!(releases.len(), 8);
}

#[test]
fn evict_beyond_respects_budget() {
    let keep: Vec<InstKey> = Vec::new();
    let mut touches = Vec::new();
    for n in 0..10u64 {
        touches.push((key(n), n));
    }
    // Under budget: nothing released.
    assert!(evict_beyond(&keep, &touches, 12).is_empty());
    // Budget 3 keeps the 3 most recently touched (7, 8, 9).
    let mut releases = evict_beyond(&keep, &touches, 3);
    releases.sort_unstable_by_key(|(n, _)| *n);
    assert_eq!(releases, vec![key(0), key(1), key(2), key(3), key(4), key(5), key(6)]);
}

#[test]
fn evict_beyond_releases_oldest_first() {
    let keep: Vec<InstKey> = Vec::new();
    // Insertion order is not access order.
    let touches = vec![(key(0), 90), (key(1), 10), (key(2), 50)];
    let releases = evict_beyond(&keep, &touches, 1);
    // The two oldest go oldest-first; key 0 (touch 90) fills the budget.
    assert_eq!(releases, vec![key(1), key(2)]);
}

#[test]
fn evict_beyond_exact_budget_releases_nothing() {
    let keep: Vec<InstKey> = vec![key(9)];
    let touches = vec![(key(3), 5), (key(9), 1), (key(4), 2)];
    assert!(evict_beyond(&keep, &touches, 2).is_empty());
    assert_eq!(evict_beyond(&keep, &touches, 1), vec![key(4)]);
}

#[test]
fn evict_beyond_releases_each_instance_once() {
    let keep: Vec<InstKey> = vec![];
    let touches: Vec<(InstKey, u64)> = (0..6).map(|n| (key(n), 10 - n)).collect();
    let releases = evict_beyond(&keep, &touches, 2);
    assert_eq!(releases.len(), 4);
    for i in 0..releases.len() {
        for j in i + 1..releases.len() {
            assert_ne!(releases[i], releases[j]);
        }
    }
}
