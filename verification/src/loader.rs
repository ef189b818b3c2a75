//! Load-pipeline wake reasons. Wakes coalesce into a bitset; the pump
//! restores the coverage invariant whatever the reasons, except that a
//! channel switch or a filter change reloads from an empty buffer.

use vstd::prelude::*;

use crate::buffer::{key_lt, lemma_key_parts_order, seq_lt};
use crate::codec::{be_bytes, encode_key, key_bytes, MessageId, Timestamp};

verus! {

/// Why the loader was woken.
#[derive(Debug, Clone, Copy, PartialEq, Eq, Structural)]
pub enum Wakeup {
    ChannelSwitch,
    NearTop,
    Insert,
    FilterChange,
    RectChange,
}

/// The bit of each wake reason.
pub open spec fn wakeup_bit(w: Wakeup) -> u8 {
    match w {
        Wakeup::ChannelSwitch => 1,
        Wakeup::NearTop => 2,
        Wakeup::Insert => 4,
        Wakeup::FilterChange => 8,
        Wakeup::RectChange => 16,
    }
}

impl Wakeup {
    /// This reason's bit in the pending set.
    pub fn bit(self) -> (b: u8)
        ensures
            b == wakeup_bit(self),
    {
        match self {
            Self::ChannelSwitch => 0b1,
            Self::NearTop => 0b10,
            Self::Insert => 0b100,
            Self::FilterChange => 0b1000,
            Self::RectChange => 0b1_0000,
        }
    }

    /// Whether drained `reasons` make the pump reload the buffer from
    /// empty: a channel switch or a filter change is among them.
    pub fn reloads(reasons: u8) -> (r: bool)
        ensures
            r == (reasons & 1 != 0 || reasons & 8 != 0),
    {
        let mask = Wakeup::ChannelSwitch.bit() | Wakeup::FilterChange.bit();
        assert(reasons & (1u8 | 8u8) != 0 <==> (reasons & 1 != 0 || reasons & 8 != 0)) by (bit_vector);
        reasons & mask != 0
    }
}

/// Where the next load resumes, reading the store newest to oldest:
/// strictly below this key, the largest key of the millisecond before
/// the oldest loaded record. None when nothing is loaded: read from the
/// newest entry.
pub fn resume_key(oldest: Option<Timestamp>) -> (r: Option<[u8; 40]>)
    ensures
        match oldest {
            None => r is None,
            Some(t) => r matches Some(k) && k@ == be_bytes(if t > 0 { (t - 1) as u64 } else { 0 }) + Seq::new(
                32,
                |i: int| 0xffu8,
            ),
        },
{
    match oldest {
        None => None,
        Some(t) => {
            let top = MessageId([0xffu8; 32]);
            let key = encode_key(t.saturating_sub(1), &top);
            assert(top.0@ =~= Seq::new(32, |i: int| 0xffu8));
            Some(key)
        },
    }
}

/// Every 32-byte id sorts below the all-`0xff` id, except that id itself.
proof fn lemma_below_top_id(a: Seq<u8>)
    requires
        forall|i: int| 0 <= i < a.len() ==> a[i] <= 0xff,
    ensures
        seq_lt(a, Seq::new(a.len(), |i: int| 0xffu8)) <==> a != Seq::new(a.len(), |i: int| 0xffu8),
    decreases a.len(),
{
    let top = Seq::new(a.len(), |i: int| 0xffu8);
    if a.len() > 0 {
        let rest = Seq::new((a.len() - 1) as nat, |i: int| 0xffu8);
        assert(top.drop_first() =~= rest);
        lemma_below_top_id(a.drop_first());
        if a[0] == 0xff && a.drop_first() == rest {
            assert forall|i: int| 0 <= i < a.len() implies a[i] == top[i] by {
                if i > 0 {
                    assert(a[i] == a.drop_first()[i - 1]);
                }
            }
            assert(a =~= top);
        }
        if a == top {
            assert(a.drop_first() =~= rest);
        }
    } else {
        assert(a =~= top);
    }
}

/// Loading resumes exactly below the oldest loaded timestamp: a stored
/// entry lies below the resume key when it is from an earlier
/// millisecond, bar the one all-`0xff` id of the millisecond just before.
pub proof fn lemma_resume_key_range(oldest: Timestamp, ts: Timestamp, id: MessageId)
    requires
        oldest > 0,
    ensures
        seq_lt(key_bytes(ts, id), be_bytes((oldest - 1) as u64) + Seq::new(32, |i: int| 0xffu8))
            <==> ts < oldest - 1 || (ts == oldest - 1 && id.0@ != Seq::new(32, |i: int| 0xffu8)),
{
    lemma_key_parts_order(ts, id.0@, (oldest - 1) as u64, Seq::new(32, |i: int| 0xffu8));
    lemma_below_top_id(id.0@);
}

/// Distinct reasons have disjoint bits, so coalescing wakes into one
/// pending set loses none of them: each reason's bit can be read back
/// from the union.
pub proof fn lemma_wakeup_bits_disjoint(a: Wakeup, b: Wakeup, pending: u8)
    ensures
        a != b ==> wakeup_bit(a) & wakeup_bit(b) == 0,
        (pending | wakeup_bit(a)) & wakeup_bit(a) != 0,
        pending & wakeup_bit(b) != 0 ==> (pending | wakeup_bit(a)) & wakeup_bit(b) != 0,
{
    let x = wakeup_bit(a);
    let y = wakeup_bit(b);
    assert(x == 1 || x == 2 || x == 4 || x == 8 || x == 16);
    assert(y == 1 || y == 2 || y == 4 || y == 8 || y == 16);
    assert((x == 1 || x == 2 || x == 4 || x == 8 || x == 16) && (y == 1 || y == 2 || y == 4 || y == 8
        || y == 16) ==> (x != y ==> x & y == 0) && (pending | x) & x != 0 && (pending & y != 0 ==> (
    pending | x) & y != 0)) by (bit_vector);
    if a != b {
        assert(x != y);
    }
}

} // verus!
