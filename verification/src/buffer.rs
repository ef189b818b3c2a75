//! The chatview record store: ordering, dedup and date separators.
//!
//! Records are kept sorted ascending by the `(timestamp, msg_id)`
//! composite key, which is also the dedup and identity key (derived
//! records reuse synthetic ids). Display order is newest first, the
//! reverse of the stored order. An id index finds, for each id, the
//! message with that id inserted last; lookups and removal by id go
//! through it. Each record is stored with its local
//! day (the midnight timestamp of its day), which decides where date
//! separators go: every run of same-day messages is headed by one
//! separator record keyed `(midnight, zero id)`.

use vstd::prelude::*;

use crate::codec::{be_byte, be_bytes, encode_datemsg_payload, id_eq, key_bytes, MessageId, MsgRecord, MsgType, Timestamp};
use crate::wire::u64_wire;

verus! {

/// A stored record as the contracts see it.
#[verifier::ext_equal]
pub struct EntryView {
    pub ts: Timestamp,
    pub id: Seq<u8>,
    pub msg_type: MsgType,
    pub payload: Seq<u8>,
    /// The midnight of the record's local day.
    pub day: Timestamp,
}

/// The composite key of a stored record.
pub open spec fn key(e: EntryView) -> (Timestamp, Seq<u8>) {
    (e.ts, e.id)
}

/// The composite key of a record.
pub open spec fn rec_key(r: MsgRecord) -> (Timestamp, Seq<u8>) {
    (r.ts, r.id.0@)
}

/// Byte-wise lexicographic order.
pub open spec fn seq_lt(a: Seq<u8>, b: Seq<u8>) -> bool
    decreases a.len(),
{
    if a.len() == 0 || b.len() == 0 {
        a.len() < b.len()
    } else if a[0] != b[0] {
        a[0] < b[0]
    } else {
        seq_lt(a.drop_first(), b.drop_first())
    }
}

/// The composite key order: by timestamp, then by id bytes.
pub open spec fn key_lt(a: (Timestamp, Seq<u8>), b: (Timestamp, Seq<u8>)) -> bool {
    a.0 < b.0 || (a.0 == b.0 && seq_lt(a.1, b.1))
}

/// Strictly ascending by key: sorted, and no key twice.
pub open spec fn sorted(s: Seq<EntryView>) -> bool {
    forall|i: int, j: int| 0 <= i < j < s.len() ==> key_lt(key(#[trigger] s[i]), key(#[trigger] s[j]))
}

/// Every id is 32 bytes long.
pub open spec fn ids_sized(s: Seq<EntryView>) -> bool {
    forall|i: int| 0 <= i < s.len() ==> (#[trigger] s[i]).id.len() == 32
}

/// Whether a record with key `k` is stored.
pub open spec fn has_key(s: Seq<EntryView>, k: (Timestamp, Seq<u8>)) -> bool {
    exists|i: int| 0 <= i < s.len() && key(#[trigger] s[i]) == k
}

/// The first index from `i` on whose key is not below `k`.
pub open spec fn pos_from(s: Seq<EntryView>, k: (Timestamp, Seq<u8>), i: int) -> int
    decreases s.len() - i,
{
    if i < 0 || i >= s.len() {
        s.len() as int
    } else if key_lt(key(s[i]), k) {
        pos_from(s, k, i + 1)
    } else {
        i
    }
}

/// Where a record with key `k` goes: after every smaller key.
pub open spec fn insert_pos(s: Seq<EntryView>, k: (Timestamp, Seq<u8>)) -> int {
    pos_from(s, k, 0)
}

/// `s` with `e` inserted at its key's place.
pub open spec fn sorted_insert(s: Seq<EntryView>, e: EntryView) -> Seq<EntryView> {
    s.insert(insert_pos(s, key(e)), e)
}

/// The zero id that derived records carry.
pub open spec fn zero_id() -> Seq<u8> {
    Seq::new(32, |i: int| 0u8)
}

/// How a record is stored, with the midnight of its local day.
pub open spec fn entry_of(r: MsgRecord, day: Timestamp) -> EntryView {
    EntryView { ts: r.ts, id: r.id.0@, msg_type: r.msg_type, payload: r.payload@, day }
}

/// The date separator heading a day: keyed `(midnight, zero id)`. Every
/// message of the day sorts at or after its midnight and every older one
/// before it, so the separator lands at the boundary of the day's run.
pub open spec fn sep_entry(day: Timestamp) -> EntryView {
    EntryView { ts: day, id: zero_id(), msg_type: MsgType::DateMsg, payload: u64_wire(day), day }
}

/// Whether the record at position `p` starts a run of its day: it is
/// the oldest record, or its older neighbor is a message of another day.
pub open spec fn starts_run(s: Seq<EntryView>, p: int, day: Timestamp) -> bool {
    p == 0 || (!s[p - 1].msg_type.spec_is_derived() && s[p - 1].day != day)
}

/// The store after inserting the new entry `e` at position `p` of `s`:
/// when separators are kept and a message starts a day run with no
/// separator yet, the day's separator joins it.
pub open spec fn with_separator(s: Seq<EntryView>, p: int, e: EntryView, seps: bool) -> Seq<EntryView> {
    if seps && !e.msg_type.spec_is_derived() && starts_run(s, p, e.day) && !has_key(s, key(sep_entry(e.day))) {
        sorted_insert(s, sep_entry(e.day))
    } else {
        s
    }
}

/// The store after a successful insert of the new entry `e`.
pub open spec fn after_insert(s: Seq<EntryView>, e: EntryView, seps: bool) -> Seq<EntryView> {
    with_separator(sorted_insert(s, e), insert_pos(s, key(e)), e, seps)
}

/// Whether a message of this day is stored.
pub open spec fn day_populated(s: Seq<EntryView>, day: Timestamp) -> bool {
    exists|j: int| 0 <= j < s.len() && !(#[trigger] s[j]).msg_type.spec_is_derived() && s[j].day == day
}

/// The store after removing the entry at `i`: when separators are kept
/// and a message was its day's last, the day's separator goes too.
pub open spec fn after_remove(s: Seq<EntryView>, i: int, seps: bool) -> Seq<EntryView> {
    let e = s[i];
    let s1 = s.remove(i);
    if seps && !e.msg_type.spec_is_derived() && !day_populated(s1, e.day) && has_key(s1, key(sep_entry(e.day))) {
        s1.remove(insert_pos(s1, key(sep_entry(e.day))))
    } else {
        s1
    }
}

/// `r` is the record stored as `e`.
pub open spec fn views_rec(r: MsgRecord, e: EntryView) -> bool {
    r.ts == e.ts && r.id.0@ == e.id && r.msg_type == e.msg_type && r.payload@ == e.payload
}

/// Whether a date separator (a derived record) with this timestamp is stored.
pub open spec fn sep_at(s: Seq<EntryView>, t: Timestamp) -> bool {
    exists|j: int| 0 <= j < s.len() && (#[trigger] s[j]).msg_type.spec_is_derived() && s[j].ts == t
}

/// Every derived record carries the zero id.
pub open spec fn seps_zero(s: Seq<EntryView>) -> bool {
    forall|j: int| 0 <= j < s.len() && (#[trigger] s[j]).msg_type.spec_is_derived() ==> s[j].id == zero_id()
}

/// Whether `x` is in the store `s` after separator resync: every day
/// with messages gets its separator unless one is stored, and the
/// separators of days without messages are dropped; nothing else changes.
pub open spec fn resynced(s: Seq<EntryView>, x: EntryView) -> bool {
    ||| s.contains(x) && !(x.msg_type.spec_is_derived() && !day_populated(s, x.ts))
    ||| day_populated(s, x.day) && x == sep_entry(x.day) && !sep_at(s, x.day) && !has_key(s, key(x))
}

/// `x` is the separator of one of the first `k` days in `dv` that had
/// none (a resync addition).
spec fn sep_added(s0: Seq<EntryView>, dv: Seq<Timestamp>, sv: Seq<Timestamp>, k: int, x: EntryView) -> bool {
    exists|m: int|
        0 <= m < k && x == sep_entry(#[trigger] dv[m]) && !sv.contains(dv[m]) && !has_key(s0, key(sep_entry(dv[m])))
}

/// `x` has the key of the separator of one of the first `k` timestamps
/// in `sv` whose day has no messages (a resync removal).
spec fn sep_dropped(dv: Seq<Timestamp>, sv: Seq<Timestamp>, k: int, x: EntryView) -> bool {
    exists|m: int| 0 <= m < k && !dv.contains(#[trigger] sv[m]) && key(x) == (sv[m], zero_id())
}

/// Whether an id index fits a store: each indexed id points at the key
/// of a stored message with that id.
pub open spec fn index_sound(s: Seq<EntryView>, idx: Map<Seq<u8>, (Timestamp, Seq<u8>)>) -> bool {
    forall|id: Seq<u8>|
        #[trigger] idx.contains_key(id) ==> idx[id].1 == id && has_key(s, idx[id]) && !s[insert_pos(
            s,
            idx[id],
        )].msg_type.spec_is_derived()
}

/// The id index after a successful insert of `e`: a message becomes the
/// one its id finds; a derived record is not indexed.
pub open spec fn index_after_insert(
    idx: Map<Seq<u8>, (Timestamp, Seq<u8>)>,
    e: EntryView,
) -> Map<Seq<u8>, (Timestamp, Seq<u8>)> {
    if e.msg_type.spec_is_derived() {
        idx
    } else {
        idx.insert(e.id, key(e))
    }
}

/// The id index after removing the message at `i` (see [`after_remove`]):
/// its id leaves the index, and so does the zero id when the entry that
/// goes as the day's separator is a message the index finds.
pub open spec fn index_after_remove(
    s: Seq<EntryView>,
    idx: Map<Seq<u8>, (Timestamp, Seq<u8>)>,
    i: int,
    seps: bool,
) -> Map<Seq<u8>, (Timestamp, Seq<u8>)> {
    let e = s[i];
    let s1 = s.remove(i);
    let idx1 = idx.remove(e.id);
    let k = key(sep_entry(e.day));
    if seps && !e.msg_type.spec_is_derived() && !day_populated(s1, e.day) && has_key(s1, k) && idx1.contains_key(k.1)
        && idx1[k.1] == k {
        idx1.remove(k.1)
    } else {
        idx1
    }
}

/// How a batch of records with their days is stored.
pub open spec fn batch_view(b: Seq<(MsgRecord, Timestamp)>) -> Seq<EntryView> {
    b.map_values(|p: (MsgRecord, Timestamp)| entry_of(p.0, p.1))
}

/// How a batch of records is stored given their days.
pub open spec fn dated_view(b: Seq<MsgRecord>, days: Seq<Timestamp>) -> Seq<EntryView> {
    Seq::new(b.len(), |j: int| entry_of(b[j], days[j]))
}

/// The store after inserting the batch entries one by one, each skipped
/// when its key is already stored; no separator maintenance.
pub open spec fn batch_fold(s: Seq<EntryView>, b: Seq<EntryView>) -> Seq<EntryView>
    decreases b.len(),
{
    if b.len() == 0 {
        s
    } else {
        let s0 = batch_fold(s, b.drop_last());
        if has_key(s0, key(b.last())) {
            s0
        } else {
            sorted_insert(s0, b.last())
        }
    }
}

/// The id index after [`batch_fold`]: each stored message becomes the
/// one its id finds, in batch order.
pub open spec fn index_fold(
    idx: Map<Seq<u8>, (Timestamp, Seq<u8>)>,
    s: Seq<EntryView>,
    b: Seq<EntryView>,
) -> Map<Seq<u8>, (Timestamp, Seq<u8>)>
    decreases b.len(),
{
    if b.len() == 0 {
        idx
    } else {
        let i0 = index_fold(idx, s, b.drop_last());
        if has_key(batch_fold(s, b.drop_last()), key(b.last())) {
            i0
        } else {
            index_after_insert(i0, b.last())
        }
    }
}

/// How many batch entries [`batch_fold`] stores.
pub open spec fn batch_count(s: Seq<EntryView>, b: Seq<EntryView>) -> nat
    decreases b.len(),
{
    if b.len() == 0 {
        0
    } else {
        batch_count(s, b.drop_last()) + if has_key(batch_fold(s, b.drop_last()), key(b.last())) {
            0nat
        } else {
            1nat
        }
    }
}

proof fn lemma_seq_lt_irrefl(a: Seq<u8>)
    ensures
        !seq_lt(a, a),
    decreases a.len(),
{
    if a.len() > 0 {
        lemma_seq_lt_irrefl(a.drop_first());
    }
}

proof fn lemma_seq_lt_trans(a: Seq<u8>, b: Seq<u8>, c: Seq<u8>)
    requires
        seq_lt(a, b),
        seq_lt(b, c),
    ensures
        seq_lt(a, c),
    decreases a.len(),
{
    if a.len() > 0 && b.len() > 0 && c.len() > 0 && a[0] == b[0] && b[0] == c[0] {
        lemma_seq_lt_trans(a.drop_first(), b.drop_first(), c.drop_first());
    }
}

proof fn lemma_seq_lt_total(a: Seq<u8>, b: Seq<u8>)
    requires
        a.len() == b.len(),
    ensures
        a == b || seq_lt(a, b) || seq_lt(b, a),
    decreases a.len(),
{
    if a.len() > 0 && a[0] == b[0] {
        lemma_seq_lt_total(a.drop_first(), b.drop_first());
        if a.drop_first() == b.drop_first() {
            assert(a =~= seq![a[0]] + a.drop_first());
            assert(b =~= seq![b[0]] + b.drop_first());
        }
    } else if a.len() == 0 {
        assert(a =~= b);
    }
}

/// The key order is a strict total order on 32-byte ids.
pub proof fn lemma_key_order(a: (Timestamp, Seq<u8>), b: (Timestamp, Seq<u8>), c: (Timestamp, Seq<u8>))
    requires
        a.1.len() == 32,
        b.1.len() == 32,
    ensures
        !key_lt(a, a),
        key_lt(a, b) && key_lt(b, c) ==> key_lt(a, c),
        a == b || key_lt(a, b) || key_lt(b, a),
        !(key_lt(a, b) && key_lt(b, a)),
{
    lemma_seq_lt_irrefl(a.1);
    if key_lt(a, b) && key_lt(b, c) && a.0 == b.0 && b.0 == c.0 {
        lemma_seq_lt_trans(a.1, b.1, c.1);
    }
    lemma_seq_lt_total(a.1, b.1);
    if key_lt(a, b) && key_lt(b, a) {
        lemma_seq_lt_trans(a.1, b.1, a.1);
    }
}

/// Facts about the insertion position of a key in a sorted sequence.
proof fn lemma_pos_from(s: Seq<EntryView>, k: (Timestamp, Seq<u8>), i: int)
    requires
        sorted(s),
        ids_sized(s),
        k.1.len() == 32,
        0 <= i <= s.len(),
        forall|j: int| 0 <= j < i ==> key_lt(key(#[trigger] s[j]), k),
    ensures
        i <= pos_from(s, k, i) <= s.len(),
        forall|j: int| 0 <= j < pos_from(s, k, i) ==> key_lt(key(#[trigger] s[j]), k),
        forall|j: int| pos_from(s, k, i) <= j < s.len() ==> !key_lt(key(#[trigger] s[j]), k),
    decreases s.len() - i,
{
    if i < s.len() {
        if key_lt(key(s[i]), k) {
            lemma_pos_from(s, k, i + 1);
        } else {
            assert forall|j: int| i <= j < s.len() implies !key_lt(key(#[trigger] s[j]), k) by {
                if j > i && key_lt(key(s[j]), k) {
                    lemma_key_order(key(s[i]), key(s[j]), k);
                }
            }
        }
    }
}

/// Where a key goes in a sorted sequence, and whether it is there.
pub proof fn lemma_insert_pos(s: Seq<EntryView>, k: (Timestamp, Seq<u8>))
    requires
        sorted(s),
        ids_sized(s),
        k.1.len() == 32,
    ensures
        0 <= insert_pos(s, k) <= s.len(),
        forall|j: int| 0 <= j < insert_pos(s, k) ==> key_lt(key(#[trigger] s[j]), k),
        forall|j: int| insert_pos(s, k) <= j < s.len() ==> !key_lt(key(#[trigger] s[j]), k),
        has_key(s, k) <==> insert_pos(s, k) < s.len() && key(s[insert_pos(s, k)]) == k,
        !has_key(s, k) ==> forall|j: int| insert_pos(s, k) <= j < s.len() ==> key_lt(k, key(#[trigger] s[j])),
{
    lemma_pos_from(s, k, 0);
    let p = insert_pos(s, k);
    if has_key(s, k) {
        let i = choose|i: int| 0 <= i < s.len() && key(#[trigger] s[i]) == k;
        lemma_key_order(k, k, k);
        if i > p {
            lemma_key_order(key(s[p]), k, k);
        }
        assert(i == p);
    }
    if !has_key(s, k) {
        assert forall|j: int| p <= j < s.len() implies key_lt(k, key(#[trigger] s[j])) by {
            lemma_key_order(key(s[j]), k, k);
        }
    }
}

/// Inserting a new key at its place keeps the sequence sorted.
pub proof fn lemma_sorted_insert(s: Seq<EntryView>, e: EntryView)
    requires
        sorted(s),
        ids_sized(s),
        e.id.len() == 32,
        !has_key(s, key(e)),
    ensures
        sorted(sorted_insert(s, e)),
        ids_sized(sorted_insert(s, e)),
        sorted_insert(s, e).len() == s.len() + 1,
{
    lemma_insert_pos(s, key(e));
    let p = insert_pos(s, key(e));
    let t = sorted_insert(s, e);
    assert forall|i: int, j: int| 0 <= i < j < t.len() implies key_lt(key(#[trigger] t[i]), key(#[trigger] t[j])) by {
        if j < p {
            assert(t[i] == s[i] && t[j] == s[j]);
        } else if j == p {
            assert(t[i] == s[i]);
        } else if i < p {
            assert(t[i] == s[i] && t[j] == s[j - 1]);
            lemma_key_order(key(s[i]), key(e), key(s[j - 1]));
        } else if i == p {
            assert(t[j] == s[j - 1]);
        } else {
            assert(t[i] == s[i - 1] && t[j] == s[j - 1]);
        }
    }
}

/// Removing an entry keeps the sequence sorted.
pub proof fn lemma_sorted_remove(s: Seq<EntryView>, i: int)
    requires
        sorted(s),
        ids_sized(s),
        0 <= i < s.len(),
    ensures
        sorted(s.remove(i)),
        ids_sized(s.remove(i)),
{
    let t = s.remove(i);
    assert forall|a: int, b: int| 0 <= a < b < t.len() implies key_lt(key(#[trigger] t[a]), key(#[trigger] t[b])) by {
        let a0 = if a < i { a } else { a + 1 };
        let b0 = if b < i { b } else { b + 1 };
        assert(t[a] == s[a0] && t[b] == s[b0]);
    }
}

proof fn lemma_push_contains<A>(s: Seq<A>, v: A)
    ensures
        forall|x: A| #[trigger] s.push(v).contains(x) <==> s.contains(x) || x == v,
{
    assert forall|x: A| s.push(v).contains(x) <==> s.contains(x) || x == v by {
        if s.contains(x) {
            let i = choose|i: int| 0 <= i < s.len() && s[i] == x;
            assert(s.push(v)[i] == x);
        }
        if x == v {
            assert(s.push(v)[s.len() as int] == x);
        }
        if s.push(v).contains(x) {
            let i = choose|i: int| 0 <= i < s.len() + 1 && s.push(v)[i] == x;
            if i < s.len() {
                assert(s[i] == x);
            }
        }
    }
}

proof fn lemma_sep_added_step(s0: Seq<EntryView>, dv: Seq<Timestamp>, sv: Seq<Timestamp>, k: int)
    requires
        0 <= k < dv.len(),
    ensures
        forall|x: EntryView| #[trigger] sep_added(s0, dv, sv, k + 1, x) <==> sep_added(s0, dv, sv, k, x) || (x
            == sep_entry(dv[k]) && !sv.contains(dv[k]) && !has_key(s0, key(sep_entry(dv[k])))),
{
    assert forall|x: EntryView| #[trigger] sep_added(s0, dv, sv, k + 1, x) <==> sep_added(s0, dv, sv, k, x) || (x
        == sep_entry(dv[k]) && !sv.contains(dv[k]) && !has_key(s0, key(sep_entry(dv[k])))) by {
        if sep_added(s0, dv, sv, k + 1, x) {
            let m = choose|m: int|
                0 <= m < k + 1 && x == sep_entry(#[trigger] dv[m]) && !sv.contains(dv[m]) && !has_key(
                    s0,
                    key(sep_entry(dv[m])),
                );
            if m < k {
                assert(sep_added(s0, dv, sv, k, x));
            }
        }
        if sep_added(s0, dv, sv, k, x) {
            let m = choose|m: int|
                0 <= m < k && x == sep_entry(#[trigger] dv[m]) && !sv.contains(dv[m]) && !has_key(
                    s0,
                    key(sep_entry(dv[m])),
                );
            assert(sep_added(s0, dv, sv, k + 1, x));
        }
        if x == sep_entry(dv[k]) && !sv.contains(dv[k]) && !has_key(s0, key(sep_entry(dv[k]))) {
            assert(sep_added(s0, dv, sv, k + 1, x));
        }
    }
}

proof fn lemma_sep_dropped_step(dv: Seq<Timestamp>, sv: Seq<Timestamp>, k: int)
    requires
        0 <= k < sv.len(),
    ensures
        forall|x: EntryView| #[trigger] sep_dropped(dv, sv, k + 1, x) <==> sep_dropped(dv, sv, k, x) || (!dv.contains(
            sv[k],
        ) && key(x) == (sv[k], zero_id())),
{
    assert forall|x: EntryView| #[trigger] sep_dropped(dv, sv, k + 1, x) <==> sep_dropped(dv, sv, k, x) || (
    !dv.contains(sv[k]) && key(x) == (sv[k], zero_id())) by {
        if sep_dropped(dv, sv, k + 1, x) {
            let m = choose|m: int| 0 <= m < k + 1 && !dv.contains(#[trigger] sv[m]) && key(x) == (sv[m], zero_id());
            if m < k {
                assert(sep_dropped(dv, sv, k, x));
            }
        }
        if sep_dropped(dv, sv, k, x) {
            let m = choose|m: int| 0 <= m < k && !dv.contains(#[trigger] sv[m]) && key(x) == (sv[m], zero_id());
            assert(sep_dropped(dv, sv, k + 1, x));
        }
        if !dv.contains(sv[k]) && key(x) == (sv[k], zero_id()) {
            assert(sep_dropped(dv, sv, k + 1, x));
        }
    }
}

proof fn lemma_contains_insert(s: Seq<EntryView>, p: int, e: EntryView)
    requires
        0 <= p <= s.len(),
    ensures
        forall|x: EntryView| #[trigger] s.insert(p, e).contains(x) <==> s.contains(x) || x == e,
{
    let t = s.insert(p, e);
    assert forall|x: EntryView| t.contains(x) <==> s.contains(x) || x == e by {
        if t.contains(x) {
            let i = choose|i: int| 0 <= i < t.len() && t[i] == x;
            if i < p {
                assert(s[i] == x);
            } else if i > p {
                assert(s[i - 1] == x);
            }
        }
        if s.contains(x) {
            let i = choose|i: int| 0 <= i < s.len() && s[i] == x;
            if i < p {
                assert(t[i] == x);
            } else {
                assert(t[i + 1] == x);
            }
        }
        if x == e {
            assert(t[p] == x);
        }
    }
}

proof fn lemma_contains_remove_key(s: Seq<EntryView>, p: int)
    requires
        sorted(s),
        ids_sized(s),
        0 <= p < s.len(),
    ensures
        forall|x: EntryView| s.remove(p).contains(x) <==> s.contains(x) && key(x) != key(s[p]),
{
    let t = s.remove(p);
    assert forall|x: EntryView| t.contains(x) <==> s.contains(x) && key(x) != key(s[p]) by {
        if t.contains(x) {
            let i = choose|i: int| 0 <= i < t.len() && t[i] == x;
            let i0 = if i < p { i } else { i + 1 };
            assert(s[i0] == x);
            lemma_key_order(key(s[i0]), key(s[i0]), key(s[i0]));
            lemma_key_order(key(s[p]), key(s[p]), key(s[p]));
        }
        if s.contains(x) && key(x) != key(s[p]) {
            let i = choose|i: int| 0 <= i < s.len() && s[i] == x;
            if i < p {
                assert(t[i] == x);
            } else {
                assert(i != p);
                assert(t[i - 1] == x);
            }
        }
    }
}

/// In a sorted store, an entry with the key of a stored one is that one.
proof fn lemma_key_unique(s: Seq<EntryView>, x: EntryView, i: int)
    requires
        sorted(s),
        ids_sized(s),
        s.contains(x),
        0 <= i < s.len(),
        key(x) == key(s[i]),
    ensures
        x == s[i],
{
    let j = choose|j: int| 0 <= j < s.len() && s[j] == x;
    lemma_key_order(key(s[i]), key(s[i]), key(s[i]));
}

/// The two resync passes (adding the separators of days that have
/// messages, then dropping those of days that have none) give the
/// resynced store.
proof fn lemma_resync_membership(
    s0: Seq<EntryView>,
    dv: Seq<Timestamp>,
    sv: Seq<Timestamp>,
    c3: Seq<EntryView>,
    fin: Seq<EntryView>,
    x: EntryView,
)
    requires
        sorted(s0),
        ids_sized(s0),
        seps_zero(s0),
        forall|d: Timestamp| dv.contains(d) <==> day_populated(s0, d),
        forall|t: Timestamp| sv.contains(t) <==> sep_at(s0, t),
        forall|y: EntryView| #[trigger] c3.contains(y) <==> s0.contains(y) || sep_added(s0, dv, sv, dv.len() as int, y),
        forall|y: EntryView| #[trigger] fin.contains(y) <==> c3.contains(y) && !sep_dropped(dv, sv, sv.len() as int, y),
    ensures
        fin.contains(x) <==> resynced(s0, x),
{
    let removed = sep_dropped(dv, sv, sv.len() as int, x);
    if s0.contains(x) {
        let i = choose|i: int| 0 <= i < s0.len() && s0[i] == x;
        assert(c3.contains(x));
        if x.msg_type.spec_is_derived() && !day_populated(s0, x.ts) {
            assert(sep_at(s0, x.ts));
            assert(sv.contains(x.ts));
            let m = choose|m: int| 0 <= m < sv.len() && sv[m] == x.ts;
            assert(!dv.contains(sv[m]));
            assert(key(x) == (sv[m], zero_id()));
            assert(removed);
            assert(has_key(s0, key(x)));
        } else if removed {
            let m = choose|m: int| 0 <= m < sv.len() && !dv.contains(#[trigger] sv[m]) && key(x) == (sv[m], zero_id());
            assert(sv.contains(sv[m]));
            let j = choose|j: int| 0 <= j < s0.len() && (#[trigger] s0[j]).msg_type.spec_is_derived() && s0[j].ts == sv[m];
            assert(key(s0[j]) == key(x));
            lemma_key_unique(s0, x, j);
        }
    } else {
        if c3.contains(x) {
            let m = choose|m: int|
                0 <= m < dv.len() && x == sep_entry(#[trigger] dv[m]) && !sv.contains(dv[m]) && !has_key(
                    s0,
                    key(sep_entry(dv[m])),
                );
            assert(dv.contains(dv[m]));
            if removed {
                let m2 = choose|m2: int| 0 <= m2 < sv.len() && !dv.contains(#[trigger] sv[m2]) && key(x) == (sv[m2], zero_id());
                assert(sv[m2] == dv[m]);
            }
        }
        if resynced(s0, x) {
            assert(dv.contains(x.day));
            let m = choose|m: int| 0 <= m < dv.len() && dv[m] == x.day;
            assert(x == sep_entry(dv[m]) && !sv.contains(dv[m]) && !has_key(s0, key(sep_entry(dv[m]))));
            assert(c3.contains(x));
            if removed {
                let m2 = choose|m2: int| 0 <= m2 < sv.len() && !dv.contains(#[trigger] sv[m2]) && key(x) == (sv[m2], zero_id());
                assert(sv[m2] == x.day);
            }
        }
    }
}

/// Inserting an entry keeps every derived record on the zero id when the
/// entry is not derived or carries it.
proof fn lemma_seps_zero_insert(s: Seq<EntryView>, p: int, e: EntryView)
    requires
        seps_zero(s),
        0 <= p <= s.len(),
        e.msg_type.spec_is_derived() ==> e.id == zero_id(),
    ensures
        seps_zero(s.insert(p, e)),
{
    let t = s.insert(p, e);
    assert forall|j: int| 0 <= j < t.len() && (#[trigger] t[j]).msg_type.spec_is_derived() implies t[j].id == zero_id() by {
        if j < p {
            assert(t[j] == s[j]);
        } else if j > p {
            assert(t[j] == s[j - 1]);
        }
    }
}

/// A successful insert keeps every derived record on the zero id when the
/// new record is not derived or carries it: the separator it may bring
/// carries the zero id too.
pub proof fn lemma_seps_zero_after_insert(s: Seq<EntryView>, e: EntryView, seps: bool)
    requires
        sorted(s),
        ids_sized(s),
        e.id.len() == 32,
        seps_zero(s),
        e.msg_type.spec_is_derived() ==> e.id == zero_id(),
        sorted(sorted_insert(s, e)),
        ids_sized(sorted_insert(s, e)),
    ensures
        seps_zero(after_insert(s, e, seps)),
{
    lemma_insert_pos(s, key(e));
    let t = sorted_insert(s, e);
    lemma_seps_zero_insert(s, insert_pos(s, key(e)), e);
    let sep = sep_entry(e.day);
    if seps && !e.msg_type.spec_is_derived() && starts_run(t, insert_pos(s, key(e)), e.day) && !has_key(t, key(sep)) {
        lemma_insert_pos(t, key(sep));
        lemma_seps_zero_insert(t, insert_pos(t, key(sep)), sep);
    }
}

/// Removing an entry keeps every derived record on the zero id.
proof fn lemma_seps_zero_remove(s: Seq<EntryView>, p: int)
    requires
        seps_zero(s),
        0 <= p < s.len(),
    ensures
        seps_zero(s.remove(p)),
{
    let t = s.remove(p);
    assert forall|j: int| 0 <= j < t.len() && (#[trigger] t[j]).msg_type.spec_is_derived() implies t[j].id == zero_id() by {
        if j < p {
            assert(t[j] == s[j]);
        } else {
            assert(t[j] == s[j + 1]);
        }
    }
}

/// Without separators, a successful insert adds exactly the new record,
/// one more entry, and keeps the keys strictly ascending (so the display
/// order strictly descending).
pub proof fn lemma_insert_plain(s: Seq<EntryView>, e: EntryView)
    requires
        sorted(s),
        ids_sized(s),
        e.id.len() == 32,
        !has_key(s, key(e)),
    ensures
        after_insert(s, e, false).len() == s.len() + 1,
        forall|x: EntryView| #[trigger] after_insert(s, e, false).contains(x) <==> s.contains(x) || x == e,
        sorted(after_insert(s, e, false)),
{
    lemma_sorted_insert(s, e);
    lemma_insert_pos(s, key(e));
    lemma_contains_insert(s, insert_pos(s, key(e)), e);
}

/// The store reached by inserting the records of `b` one at a time, each
/// with separators off.
pub open spec fn single_inserts(s: Seq<EntryView>, b: Seq<EntryView>) -> Seq<EntryView>
    decreases b.len(),
{
    if b.len() == 0 {
        s
    } else {
        let s0 = single_inserts(s, b.drop_last());
        if has_key(s0, key(b.last())) {
            s0
        } else {
            after_insert(s0, b.last(), false)
        }
    }
}

/// How many of those single inserts succeed.
pub open spec fn single_insert_count(s: Seq<EntryView>, b: Seq<EntryView>) -> nat
    decreases b.len(),
{
    if b.len() == 0 {
        0
    } else {
        single_insert_count(s, b.drop_last()) + if has_key(single_inserts(s, b.drop_last()), key(b.last())) {
            0nat
        } else {
            1nat
        }
    }
}

/// A batch insert without separators stores what inserting its records
/// one by one stores, and counts the same successes.
pub proof fn lemma_batch_is_single_inserts(s: Seq<EntryView>, b: Seq<EntryView>)
    ensures
        batch_fold(s, b) == single_inserts(s, b),
        batch_count(s, b) == single_insert_count(s, b),
    decreases b.len(),
{
    if b.len() > 0 {
        lemma_batch_is_single_inserts(s, b.drop_last());
    }
}

/// Two sorted stores holding the same entries are equal.
pub proof fn lemma_sorted_eq(a: Seq<EntryView>, b: Seq<EntryView>)
    requires
        sorted(a),
        ids_sized(a),
        sorted(b),
        ids_sized(b),
        forall|x: EntryView| a.contains(x) <==> b.contains(x),
    ensures
        a == b,
    decreases a.len() + b.len(),
{
    if a.len() == 0 || b.len() == 0 {
        if a.len() > 0 {
            assert(a.contains(a[0]));
        }
        if b.len() > 0 {
            assert(b.contains(b[0]));
        }
        assert(a =~= b);
    } else {
        assert(a.contains(a[0]) && b.contains(b[0]));
        let i = choose|i: int| 0 <= i < b.len() && b[i] == a[0];
        let j = choose|j: int| 0 <= j < a.len() && a[j] == b[0];
        lemma_key_order(key(a[0]), key(b[0]), key(a[0]));
        if i > 0 && j > 0 {
            assert(key_lt(key(b[0]), key(a[0])));
            assert(key_lt(key(a[0]), key(b[0])));
        }
        assert(a[0] == b[0]);
        let a1 = a.drop_first();
        let b1 = b.drop_first();
        assert(a1 =~= a.remove(0));
        assert(b1 =~= b.remove(0));
        lemma_sorted_remove(a, 0);
        lemma_sorted_remove(b, 0);
        lemma_contains_remove_key(a, 0);
        lemma_contains_remove_key(b, 0);
        assert forall|x: EntryView| a1.contains(x) <==> b1.contains(x) by {
            assert(a.remove(0).contains(x) <==> a.contains(x) && key(x) != key(a[0]));
            assert(b.remove(0).contains(x) <==> b.contains(x) && key(x) != key(b[0]));
        }
        lemma_sorted_eq(a1, b1);
        assert(a =~= seq![a[0]] + a1);
        assert(b =~= seq![b[0]] + b1);
    }
}

/// Removing a message undoes inserting it: the id index then finds the
/// new message, and from a store where its key is new and its day has a
/// separator exactly when it has messages, an insert followed by a remove
/// of its id gives back the store, separators included.
pub proof fn lemma_insert_then_remove(
    s: Seq<EntryView>,
    idx: Map<Seq<u8>, (Timestamp, Seq<u8>)>,
    e: EntryView,
    seps: bool,
)
    requires
        sorted(s),
        ids_sized(s),
        e.id.len() == 32,
        !e.msg_type.spec_is_derived(),
        !has_key(s, key(e)),
        seps ==> has_key(s, key(sep_entry(e.day))) == day_populated(s, e.day),
    ensures
        index_after_insert(idx, e).contains_key(e.id),
        after_insert(s, e, seps)[insert_pos(after_insert(s, e, seps), index_after_insert(idx, e)[e.id])] == e,
        after_remove(after_insert(s, e, seps), insert_pos(after_insert(s, e, seps), index_after_insert(idx, e)[e.id]), seps)
            == s,
{
    let p = insert_pos(s, key(e));
    let s1 = sorted_insert(s, e);
    let sep = sep_entry(e.day);
    let s2 = after_insert(s, e, seps);
    lemma_insert_pos(s, key(e));
    lemma_sorted_insert(s, e);
    lemma_contains_insert(s, p, e);
    let added = seps && starts_run(s1, p, e.day) && !has_key(s1, key(sep));
    assert(sep.id =~= zero_id());
    if added {
        lemma_insert_pos(s1, key(sep));
        lemma_sorted_insert(s1, sep);
        lemma_contains_insert(s1, insert_pos(s1, key(sep)), sep);
    }
    assert(s2 == if added { sorted_insert(s1, sep) } else { s1 });
    // The index finds `e`, where its key goes.
    assert(s2.contains(e));
    let ie = choose|ie: int| 0 <= ie < s2.len() && s2[ie] == e;
    if added {
        assert(sorted(s2) && ids_sized(s2));
    }
    lemma_pos_of_entry(s2, ie);
    let f = insert_pos(s2, key(e));
    assert(index_after_insert(idx, e)[e.id] == key(e));
    assert(s2[f] == e);
    // After removing `e`, the store is `s`, plus the separator if one came.
    let r1 = s2.remove(f);
    lemma_sorted_remove(s2, f);
    lemma_contains_remove_key(s2, f);
    assert(s1[p] == e);
    if has_key(s, key(sep)) {
        let j = choose|j: int| 0 <= j < s.len() && key(#[trigger] s[j]) == key(sep);
        if j < p {
            assert(s1[j] == s[j]);
        } else {
            assert(s1[j + 1] == s[j]);
        }
        assert(has_key(s1, key(sep)));
    }
    if added && key(sep) == key(e) {
        assert(has_key(s1, key(sep)));
    }
    assert forall|x: EntryView| r1.contains(x) <==> s.contains(x) || (added && x == sep) by {
        assert(r1.contains(x) <==> s2.contains(x) && key(x) != key(e));
        let ins1 = s.insert(p, e);
        assert(ins1.contains(x) <==> s.contains(x) || x == e);
        if added {
            let ins2 = s1.insert(insert_pos(s1, key(sep)), sep);
            assert(ins2.contains(x) <==> s1.contains(x) || x == sep);
        }
        if s.contains(x) {
            let k = choose|k: int| 0 <= k < s.len() && s[k] == x;
            assert(key(s[k]) != key(e));
        }
    }
    if added {
        assert(!has_key(s, key(sep)));
        assert(!day_populated(s, e.day));
        assert(!day_populated(r1, e.day)) by {
            if day_populated(r1, e.day) {
                let j = choose|j: int| 0 <= j < r1.len() && !(#[trigger] r1[j]).msg_type.spec_is_derived() && r1[j].day == e.day;
                assert(r1.contains(r1[j]));
            }
        }
        assert(r1.contains(sep));
        let js = choose|js: int| 0 <= js < r1.len() && r1[js] == sep;
        assert(has_key(r1, key(sep)));
        lemma_insert_pos(r1, key(sep));
        let q = insert_pos(r1, key(sep));
        let r2 = r1.remove(q);
        lemma_sorted_remove(r1, q);
        lemma_contains_remove_key(r1, q);
        assert forall|x: EntryView| r2.contains(x) <==> s.contains(x) by {
            if s.contains(x) {
                assert(key(x) != key(sep));
            }
        }
        lemma_sorted_eq(r2, s);
    } else {
        if seps {
            assert(!(!day_populated(r1, e.day) && has_key(r1, key(sep)))) by {
                if has_key(r1, key(sep)) {
                    let j = choose|j: int| 0 <= j < r1.len() && key(#[trigger] r1[j]) == key(sep);
                    assert(r1.contains(r1[j]));
                    assert(has_key(s, key(sep)));
                    assert(day_populated(s, e.day));
                    let k = choose|k: int| 0 <= k < s.len() && !(#[trigger] s[k]).msg_type.spec_is_derived() && s[k].day == e.day;
                    assert(s.contains(s[k]));
                    assert(r1.contains(s[k]));
                    let k2 = choose|k2: int| 0 <= k2 < r1.len() && r1[k2] == s[k];
                    assert(day_populated(r1, e.day));
                }
            }
        }
        lemma_sorted_eq(r1, s);
    }
}

/// After a separator resync of a store whose derived records all carry
/// the zero id and whose messages never do, a day has a separator
/// exactly when it has messages, and every derived record is such a
/// separator.
pub proof fn lemma_resync_in_sync(s: Seq<EntryView>, f: Seq<EntryView>)
    requires
        sorted(s),
        ids_sized(s),
        seps_zero(s),
        forall|i: int| 0 <= i < s.len() && !(#[trigger] s[i]).msg_type.spec_is_derived() ==> s[i].id != zero_id(),
        forall|x: EntryView| #[trigger] f.contains(x) <==> resynced(s, x),
    ensures
        seps_zero(f),
        forall|d: Timestamp| day_populated(f, d) <==> sep_at(f, d),
{
    assert forall|j: int| 0 <= j < f.len() && (#[trigger] f[j]).msg_type.spec_is_derived() implies f[j].id == zero_id() by {
        assert(f.contains(f[j]));
        if s.contains(f[j]) {
            let k = choose|k: int| 0 <= k < s.len() && s[k] == f[j];
        }
    }
    assert forall|d: Timestamp| day_populated(f, d) <==> sep_at(f, d) by {
        if day_populated(f, d) {
            let j = choose|j: int| 0 <= j < f.len() && !(#[trigger] f[j]).msg_type.spec_is_derived() && f[j].day == d;
            assert(f.contains(f[j]));
            assert(s.contains(f[j]));
            let k = choose|k: int| 0 <= k < s.len() && s[k] == f[j];
            assert(day_populated(s, d));
            if sep_at(s, d) {
                let m = choose|m: int| 0 <= m < s.len() && (#[trigger] s[m]).msg_type.spec_is_derived() && s[m].ts == d;
                assert(s.contains(s[m]));
                assert(resynced(s, s[m]));
                assert(f.contains(s[m]));
                let m2 = choose|m2: int| 0 <= m2 < f.len() && f[m2] == s[m];
            } else {
                let x = sep_entry(d);
                if has_key(s, key(x)) {
                    let m = choose|m: int| 0 <= m < s.len() && key(#[trigger] s[m]) == key(x);
                    assert(s[m].id == zero_id());
                    assert(s[m].msg_type.spec_is_derived());
                }
                assert(resynced(s, x));
                assert(f.contains(x));
                let m2 = choose|m2: int| 0 <= m2 < f.len() && f[m2] == x;
            }
        }
        if sep_at(f, d) {
            let j = choose|j: int| 0 <= j < f.len() && (#[trigger] f[j]).msg_type.spec_is_derived() && f[j].ts == d;
            assert(f.contains(f[j]));
            assert(resynced(s, f[j]));
            assert(day_populated(s, d));
            let k = choose|k: int| 0 <= k < s.len() && !(#[trigger] s[k]).msg_type.spec_is_derived() && s[k].day == d;
            assert(s.contains(s[k]));
            assert(resynced(s, s[k]));
            assert(f.contains(s[k]));
            let k2 = choose|k2: int| 0 <= k2 < f.len() && f[k2] == s[k];
        }
    }
}

/// The zero id sorts below every other id of its length.
proof fn lemma_zero_id_least(a: Seq<u8>)
    ensures
        seq_lt(Seq::new(a.len(), |i: int| 0u8), a) <==> a != Seq::new(a.len(), |i: int| 0u8),
    decreases a.len(),
{
    let z = Seq::new(a.len(), |i: int| 0u8);
    if a.len() > 0 {
        let rest = Seq::new((a.len() - 1) as nat, |i: int| 0u8);
        assert(z.drop_first() =~= rest);
        lemma_zero_id_least(a.drop_first());
        if a[0] == 0 && a.drop_first() == rest {
            assert forall|i: int| 0 <= i < a.len() implies a[i] == z[i] by {
                if i > 0 {
                    assert(a[i] == a.drop_first()[i - 1]);
                }
            }
            assert(a =~= z);
        }
        if a == z {
            assert(a.drop_first() =~= rest);
        }
    } else {
        assert(a =~= z);
    }
}

/// A day's separator lands at the boundary of the day's run: it sorts
/// after every message of an earlier day and before every message of
/// its own or a later day, as long as each message's day is the midnight
/// at or before its timestamp, messages of days before `d` were sent
/// before `d`, and messages never carry the zero id.
pub proof fn lemma_separator_boundary(d: Timestamp, m: EntryView)
    requires
        m.id.len() == 32,
        m.id != zero_id(),
        m.day <= m.ts,
        m.day < d ==> m.ts < d,
    ensures
        key_lt(key(m), key(sep_entry(d))) <==> m.day < d,
        key_lt(key(sep_entry(d)), key(m)) <==> m.day >= d,
{
    lemma_zero_id_least(m.id);
    lemma_seq_lt_irrefl(m.id);
    assert(zero_id() =~= Seq::new(m.id.len(), |i: int| 0u8));
    if m.ts == d {
        lemma_key_order(key(m), key(sep_entry(d)), key(m));
    }
}

/// Byte order of two concatenations whose front parts have equal lengths.
proof fn lemma_seq_lt_concat(a1: Seq<u8>, a2: Seq<u8>, b1: Seq<u8>, b2: Seq<u8>)
    requires
        a1.len() == b1.len(),
    ensures
        seq_lt(a1 + a2, b1 + b2) == if a1 == b1 {
            seq_lt(a2, b2)
        } else {
            seq_lt(a1, b1)
        },
    decreases a1.len(),
{
    if a1.len() == 0 {
        assert(a1 + a2 =~= a2);
        assert(b1 + b2 =~= b2);
        assert(a1 =~= b1);
    } else {
        assert((a1 + a2).drop_first() =~= a1.drop_first() + a2);
        assert((b1 + b2).drop_first() =~= b1.drop_first() + b2);
        lemma_seq_lt_concat(a1.drop_first(), a2, b1.drop_first(), b2);
        if a1[0] == b1[0] && a1.drop_first() == b1.drop_first() {
            assert(a1 =~= seq![a1[0]] + a1.drop_first());
            assert(b1 =~= seq![b1[0]] + b1.drop_first());
        }
        if a1 == b1 {
            assert(a1.drop_first() == b1.drop_first());
        }
    }
}

/// Big-endian bytes order like the numbers they encode.
proof fn lemma_be_bytes_order(x: u64, y: u64)
    ensures
        seq_lt(be_bytes(x), be_bytes(y)) <==> x < y,
        be_bytes(x) == be_bytes(y) <==> x == y,
{
    let bx = be_bytes(x);
    let by = be_bytes(y);
    assert((x & 0xff) < (y & 0xff) <==> (be_byte(x, 7) < be_byte(y, 7) || (be_byte(x, 7) == be_byte(y, 7)
        && (x & 0x0) < (y & 0x0)))) by (bit_vector);
    assert((x & 0xff) == (y & 0xff) <==> (be_byte(x, 7) == be_byte(y, 7) && (x & 0x0) == (y & 0x0))) by (bit_vector);
    assert((x & 0xffff) < (y & 0xffff) <==> (be_byte(x, 6) < be_byte(y, 6) || (be_byte(x, 6) == be_byte(y, 6)
        && (x & 0xff) < (y & 0xff)))) by (bit_vector);
    assert((x & 0xffff) == (y & 0xffff) <==> (be_byte(x, 6) == be_byte(y, 6) && (x & 0xff) == (y & 0xff))) by (bit_vector);
    assert((x & 0xff_ffff) < (y & 0xff_ffff) <==> (be_byte(x, 5) < be_byte(y, 5) || (be_byte(x, 5) == be_byte(y, 5)
        && (x & 0xffff) < (y & 0xffff)))) by (bit_vector);
    assert((x & 0xff_ffff) == (y & 0xff_ffff) <==> (be_byte(x, 5) == be_byte(y, 5) && (x & 0xffff) == (y & 0xffff))) by (bit_vector);
    assert((x & 0xffff_ffff) < (y & 0xffff_ffff) <==> (be_byte(x, 4) < be_byte(y, 4) || (be_byte(x, 4) == be_byte(y, 4)
        && (x & 0xff_ffff) < (y & 0xff_ffff)))) by (bit_vector);
    assert((x & 0xffff_ffff) == (y & 0xffff_ffff) <==> (be_byte(x, 4) == be_byte(y, 4) && (x & 0xff_ffff) == (y & 0xff_ffff))) by (bit_vector);
    assert((x & 0xff_ffff_ffff) < (y & 0xff_ffff_ffff) <==> (be_byte(x, 3) < be_byte(y, 3) || (be_byte(x, 3) == be_byte(y, 3)
        && (x & 0xffff_ffff) < (y & 0xffff_ffff)))) by (bit_vector);
    assert((x & 0xff_ffff_ffff) == (y & 0xff_ffff_ffff) <==> (be_byte(x, 3) == be_byte(y, 3) && (x & 0xffff_ffff) == (y & 0xffff_ffff))) by (bit_vector);
    assert((x & 0xffff_ffff_ffff) < (y & 0xffff_ffff_ffff) <==> (be_byte(x, 2) < be_byte(y, 2) || (be_byte(x, 2) == be_byte(y, 2)
        && (x & 0xff_ffff_ffff) < (y & 0xff_ffff_ffff)))) by (bit_vector);
    assert((x & 0xffff_ffff_ffff) == (y & 0xffff_ffff_ffff) <==> (be_byte(x, 2) == be_byte(y, 2) && (x & 0xff_ffff_ffff) == (y & 0xff_ffff_ffff))) by (bit_vector);
    assert((x & 0xff_ffff_ffff_ffff) < (y & 0xff_ffff_ffff_ffff) <==> (be_byte(x, 1) < be_byte(y, 1) || (be_byte(x, 1) == be_byte(y, 1)
        && (x & 0xffff_ffff_ffff) < (y & 0xffff_ffff_ffff)))) by (bit_vector);
    assert((x & 0xff_ffff_ffff_ffff) == (y & 0xff_ffff_ffff_ffff) <==> (be_byte(x, 1) == be_byte(y, 1) && (x & 0xffff_ffff_ffff) == (y & 0xffff_ffff_ffff))) by (bit_vector);
    assert((x & 0xffff_ffff_ffff_ffff) < (y & 0xffff_ffff_ffff_ffff) <==> (be_byte(x, 0) < be_byte(y, 0) || (be_byte(x, 0) == be_byte(y, 0)
        && (x & 0xff_ffff_ffff_ffff) < (y & 0xff_ffff_ffff_ffff)))) by (bit_vector);
    assert((x & 0xffff_ffff_ffff_ffff) == (y & 0xffff_ffff_ffff_ffff) <==> (be_byte(x, 0) == be_byte(y, 0) && (x & 0xff_ffff_ffff_ffff) == (y & 0xff_ffff_ffff_ffff))) by (bit_vector);
    assert((x & 0xffff_ffff_ffff_ffff) == x && (y & 0xffff_ffff_ffff_ffff) == y && (x & 0x0) == 0 && (y & 0x0) == 0)
        by (bit_vector);
    // Compare the byte suffixes from the last byte up.
    assert(!seq_lt(bx.skip(8), by.skip(8)));
    assert(bx.skip(8) =~= by.skip(8));
    assert forall|k: int| 0 <= k < 8 implies #[trigger] bx.skip(k) =~= seq![bx[k]] + bx.skip(k + 1) && by.skip(k)
        =~= seq![by[k]] + by.skip(k + 1) by {}
    assert forall|k: int| 0 <= k < 8 implies seq_lt(#[trigger] bx.skip(k), by.skip(k)) == (bx[k] < by[k] || (bx[k]
        == by[k] && seq_lt(bx.skip(k + 1), by.skip(k + 1)))) by {
        assert(bx.skip(k).drop_first() =~= bx.skip(k + 1));
        assert(by.skip(k).drop_first() =~= by.skip(k + 1));
        assert(bx.skip(k)[0] == bx[k] && by.skip(k)[0] == by[k]);
    }
    assert forall|k: int| 0 <= k < 8 implies (#[trigger] bx.skip(k) == by.skip(k)) == (bx[k] == by[k] && bx.skip(k + 1)
        == by.skip(k + 1)) by {
        if bx.skip(k) == by.skip(k) {
            assert(bx.skip(k)[0] == by.skip(k)[0]);
            assert(bx.skip(k).drop_first() =~= bx.skip(k + 1));
            assert(by.skip(k).drop_first() =~= by.skip(k + 1));
        }
    }
    assert(bx.skip(0) =~= bx && by.skip(0) =~= by);
    assert(seq_lt(bx.skip(7), by.skip(7)) == ((x & 0xff) < (y & 0xff)));
    assert((bx.skip(7) == by.skip(7)) == ((x & 0xff) == (y & 0xff)));
    assert(seq_lt(bx.skip(6), by.skip(6)) == ((x & 0xffff) < (y & 0xffff)));
    assert((bx.skip(6) == by.skip(6)) == ((x & 0xffff) == (y & 0xffff)));
    assert(seq_lt(bx.skip(5), by.skip(5)) == ((x & 0xff_ffff) < (y & 0xff_ffff)));
    assert((bx.skip(5) == by.skip(5)) == ((x & 0xff_ffff) == (y & 0xff_ffff)));
    assert(seq_lt(bx.skip(4), by.skip(4)) == ((x & 0xffff_ffff) < (y & 0xffff_ffff)));
    assert((bx.skip(4) == by.skip(4)) == ((x & 0xffff_ffff) == (y & 0xffff_ffff)));
    assert(seq_lt(bx.skip(3), by.skip(3)) == ((x & 0xff_ffff_ffff) < (y & 0xff_ffff_ffff)));
    assert((bx.skip(3) == by.skip(3)) == ((x & 0xff_ffff_ffff) == (y & 0xff_ffff_ffff)));
    assert(seq_lt(bx.skip(2), by.skip(2)) == ((x & 0xffff_ffff_ffff) < (y & 0xffff_ffff_ffff)));
    assert((bx.skip(2) == by.skip(2)) == ((x & 0xffff_ffff_ffff) == (y & 0xffff_ffff_ffff)));
    assert(seq_lt(bx.skip(1), by.skip(1)) == ((x & 0xff_ffff_ffff_ffff) < (y & 0xff_ffff_ffff_ffff)));
    assert((bx.skip(1) == by.skip(1)) == ((x & 0xff_ffff_ffff_ffff) == (y & 0xff_ffff_ffff_ffff)));
    assert(seq_lt(bx.skip(0), by.skip(0)) == ((x & 0xffff_ffff_ffff_ffff) < (y & 0xffff_ffff_ffff_ffff)));
    assert((bx.skip(0) == by.skip(0)) == ((x & 0xffff_ffff_ffff_ffff) == (y & 0xffff_ffff_ffff_ffff)));
}

/// The kv store's byte order of encoded keys is the composite key order:
/// walking the store by key visits records oldest to newest, as the
/// buffer keeps them.
pub proof fn lemma_key_bytes_order(t1: Timestamp, id1: MessageId, t2: Timestamp, id2: MessageId)
    ensures
        seq_lt(key_bytes(t1, id1), key_bytes(t2, id2)) <==> key_lt((t1, id1.0@), (t2, id2.0@)),
{
    lemma_key_parts_order(t1, id1.0@, t2, id2.0@);
}

/// [`lemma_key_bytes_order`] for a key written as its parts.
pub proof fn lemma_key_parts_order(t1: Timestamp, id1: Seq<u8>, t2: Timestamp, id2: Seq<u8>)
    requires
        id1.len() == id2.len(),
    ensures
        seq_lt(be_bytes(t1) + id1, be_bytes(t2) + id2) <==> key_lt((t1, id1), (t2, id2)),
{
    lemma_be_bytes_order(t1, t2);
    lemma_seq_lt_concat(be_bytes(t1), id1, be_bytes(t2), id2);
}

/// Exec-side key comparison: `(ts_a, id_a) < (ts_b, id_b)`.
fn key_less(ts_a: Timestamp, id_a: &MessageId, ts_b: Timestamp, id_b: &MessageId) -> (r: bool)
    ensures
        r == key_lt((ts_a, id_a.0@), (ts_b, id_b.0@)),
{
    if ts_a != ts_b {
        return ts_a < ts_b;
    }
    let ghost a = id_a.0@;
    let ghost b = id_b.0@;
    let mut i: usize = 0;
    assert(a.skip(0) =~= a && b.skip(0) =~= b);
    while i < 32
        invariant
            0 <= i <= 32,
            ts_a == ts_b,
            a.len() == 32,
            b.len() == 32,
            a == id_a.0@,
            b == id_b.0@,
            seq_lt(a, b) == seq_lt(a.skip(i as int), b.skip(i as int)),
        decreases 32 - i,
    {
        let x = id_a.0[i];
        let y = id_b.0[i];
        assert(a.skip(i as int)[0] == x && b.skip(i as int)[0] == y);
        if x != y {
            assert(a.skip(i as int).len() > 0 && b.skip(i as int).len() > 0);
            assert(seq_lt(a.skip(i as int), b.skip(i as int)) == (x < y));
            return x < y;
        }
        assert(a.skip(i as int).drop_first() =~= a.skip(i + 1));
        assert(b.skip(i as int).drop_first() =~= b.skip(i + 1));
        i = i + 1;
    }
    false
}

/// A local wall-clock time mapped back to instants, in unix ms.
#[derive(Debug, Clone, Copy, PartialEq, Eq, Structural)]
pub enum LocalMillis {
    Single(i64),
    /// A fold: `(earliest, latest)`.
    Ambiguous(i64, i64),
    /// A gap, or no mapping.
    Gap,
}

/// The midnight taken for a timestamp's day, given what the local-time
/// mapping gave: without a single local date for `ts`, the UTC day start;
/// otherwise the instant of local midnight, the earliest one where
/// midnight falls in a fold, and local midnight read as UTC where it
/// falls in a gap (`naive_utc`). Instants are read as `u64` the way
/// `as` does.
pub open spec fn spec_pick_midnight(ts: Timestamp, date_found: bool, local: LocalMillis, naive_utc: i64) -> Timestamp {
    if !date_found {
        (ts - ts % 86_400_000) as Timestamp
    } else {
        match local {
            LocalMillis::Single(t) => t as u64,
            LocalMillis::Ambiguous(earliest, _) => earliest as u64,
            LocalMillis::Gap => naive_utc as u64,
        }
    }
}

/// Whether the local date of `ts` (read as `ts as i64` unix ms) can be
/// taken without leaving chrono's date range: the instant is not on the
/// first or last representable UTC day, where a time zone offset could
/// push the local date out of range.
pub open spec fn local_date_defined(ts: Timestamp) -> bool {
    !(8_210_266_790_400_000 <= ts < 8_210_266_876_800_000) && !(0x1_0000_0000_0000_0000
        - 8_334_601_315_200_000 <= ts < 0x1_0000_0000_0000_0000 - 8_334_601_228_800_000)
}

/// One day in ms.
pub open spec fn day_ms() -> int {
    86_400_000
}

/// The start of the day holding the wall-clock time `w` (unix ms read as
/// UTC): the midnight of its date.
pub open spec fn day_floor(w: int) -> int {
    w - w % day_ms()
}

/// `x` and `y` are less than a day apart.
pub open spec fn within_day(x: int, y: int) -> bool {
    x - day_ms() < y < x + day_ms()
}

/// Every instant a wall-clock time `m` maps to lies within a day of `m`
/// read as UTC: time zone offsets are under a day either way.
pub open spec fn local_near(local: LocalMillis, m: int) -> bool {
    match local {
        LocalMillis::Single(t) => within_day(m, t as int),
        LocalMillis::Ambiguous(a, b) => within_day(m, a as int) && within_day(m, b as int),
        LocalMillis::Gap => true,
    }
}

/// Whether `r` is a local midnight [`MsgBuffer::midnight_of`] may give for
/// `ts`: the UTC day start when the instant has no single local time,
/// otherwise the pick from a local mapping of the start of the day of a
/// wall-clock reading less than a day from `ts`.
pub open spec fn is_local_midnight(ts: Timestamp, r: Timestamp) -> bool {
    ||| r == spec_pick_midnight(ts, false, LocalMillis::Gap, 0)
    ||| exists|w: i64, local: LocalMillis|
        {
            &&& within_day((ts as i64) as int, w as int)
            &&& local_near(local, day_floor(w as int))
            &&& r == #[trigger] spec_pick_midnight(ts, true, local, day_floor(w as int) as i64)
        }
}

/// The day a record is filed under: its local midnight when separators
/// are kept and it is a message, otherwise its own timestamp.
pub open spec fn filed_day(rec: MsgRecord, day: Timestamp, seps: bool) -> bool {
    if seps && !rec.msg_type.spec_is_derived() {
        is_local_midnight(rec.ts, day)
    } else {
        day == rec.ts
    }
}

/// The wall-clock time at the instant `ts` ms (as `i64`) in the local time
/// zone, read as UTC ms: `chrono::Local::timestamp_millis_opt`, then
/// `DateTime::naive_local`, `NaiveDateTime::and_utc` and `timestamp_millis`,
/// when the instant maps to a single local time. Which wall-clock time
/// comes back depends on the machine's time zone; chrono's offsets are
/// `FixedOffset`s, under a day either way (`FixedOffset::east_opt`), and
/// its date-times stay within the `NaiveDateTime` range, which is what
/// is stated.
#[verifier::external_body]
fn local_wallclock_millis(ts: Timestamp) -> (r: Option<i64>)
    requires
        local_date_defined(ts),
    ensures
        r matches Some(w) ==> within_day((ts as i64) as int, w as int) && -8_334_601_315_200_000 <= w
            < 8_210_266_876_800_000,
{
    match chrono::TimeZone::timestamp_millis_opt(&chrono::Local, ts as i64) {
        chrono::LocalResult::Single(dt) => Some(dt.naive_local().and_utc().timestamp_millis()),
        chrono::LocalResult::Ambiguous(_, _) => None,
        chrono::LocalResult::None => None,
    }
}

/// The instants the wall-clock time `m` (UTC ms, as made by
/// `DateTime::from_timestamp_millis` then `naive_utc`) maps to in the
/// local time zone, from `chrono::Local::from_local_datetime` with each
/// `DateTime` read by `timestamp_millis`; `None` when `m` is out of
/// chrono's range. Which instants come back depends on the machine's time
/// zone; each is the wall-clock time minus an offset under a day, which
/// is what is stated.
#[verifier::external_body]
fn local_from_wallclock(m: i64) -> (r: Option<LocalMillis>)
    ensures
        r matches Some(local) ==> local_near(local, m as int),
{
    let naive = match chrono::DateTime::from_timestamp_millis(m) {
        Some(dt) => dt.naive_utc(),
        None => return None,
    };
    match chrono::TimeZone::from_local_datetime(&chrono::Local, &naive) {
        chrono::LocalResult::Single(t) => Some(LocalMillis::Single(t.timestamp_millis())),
        chrono::LocalResult::Ambiguous(a, b) => Some(LocalMillis::Ambiguous(a.timestamp_millis(), b.timestamp_millis())),
        chrono::LocalResult::None => Some(LocalMillis::Gap),
    }
}

/// The chrono format of date separator labels, as `Mon 1 Jan 2024`.
pub open spec fn date_label_format() -> Seq<char> {
    seq!['%', 'a', ' ', '%', '-', 'd', ' ', '%', 'b', ' ', '%', 'Y']
}

/// The chrono format of message time labels, as `09:05`.
pub open spec fn clock_label_format() -> Seq<char> {
    seq!['%', 'H', ':', '%', 'M']
}

/// An ASCII decimal digit.
pub open spec fn is_digit(c: char) -> bool {
    '0' as u32 <= c as u32 <= '9' as u32
}

/// The value of a decimal digit.
pub open spec fn digit_value(c: char) -> int {
    c as u32 - '0' as u32
}

/// The value of two decimal digits.
pub open spec fn two_digits(a: char, b: char) -> int {
    10 * digit_value(a) + digit_value(b)
}

/// A `%H:%M` label: two-digit hour 00 to 23, a colon, two-digit minute
/// 00 to 59.
pub open spec fn is_clock_label(s: Seq<char>) -> bool {
    &&& s.len() == 5
    &&& is_digit(s[0]) && is_digit(s[1]) && s[2] == ':' && is_digit(s[3]) && is_digit(s[4])
    &&& two_digits(s[0], s[1]) <= 23
    &&& two_digits(s[3], s[4]) <= 59
}

/// An English weekday abbreviation, as `%a` writes it.
pub open spec fn is_weekday_abbr(w: Seq<char>) -> bool {
    w == seq!['S', 'u', 'n'] || w == seq!['M', 'o', 'n'] || w == seq!['T', 'u', 'e'] || w == seq!['W', 'e', 'd'] || w == seq!['T', 'h', 'u'] || w == seq!['F', 'r', 'i'] || w == seq!['S', 'a', 't']
}

/// An English month abbreviation, as `%b` writes it.
pub open spec fn is_month_abbr(m: Seq<char>) -> bool {
    m == seq!['J', 'a', 'n'] || m == seq!['F', 'e', 'b'] || m == seq!['M', 'a', 'r'] || m == seq!['A', 'p', 'r'] || m == seq!['M', 'a', 'y'] || m == seq!['J', 'u', 'n'] || m == seq!['J', 'u', 'l'] || m == seq!['A', 'u', 'g'] || m == seq!['S', 'e', 'p'] || m == seq!['O', 'c', 't'] || m == seq!['N', 'o', 'v'] || m == seq!['D', 'e', 'c']
}

/// A day of the month without padding, as `%-d` writes it: 1 to 31.
pub open spec fn is_day_number(d: Seq<char>) -> bool {
    ||| d.len() == 1 && is_digit(d[0]) && d[0] != '0'
    ||| d.len() == 2 && is_digit(d[0]) && is_digit(d[1]) && d[0] != '0' && two_digits(d[0], d[1]) <= 31
}

/// A year as `%Y` writes it: four digits for years 0 to 9999, otherwise
/// a sign and at least four digits.
pub open spec fn is_year_number(y: Seq<char>) -> bool {
    ||| y.len() == 4 && forall|i: int| 0 <= i < 4 ==> is_digit(#[trigger] y[i])
    ||| y.len() >= 5 && (y[0] == '+' || y[0] == '-') && forall|i: int| 1 <= i < y.len() ==> is_digit(#[trigger] y[i])
}

/// A `%a %-d %b %Y` label whose day number has `n` digits.
pub open spec fn is_date_label_with(s: Seq<char>, n: int) -> bool {
    &&& s.len() >= 9 + n
    &&& is_weekday_abbr(s.subrange(0, 3))
    &&& s[3] == ' '
    &&& is_day_number(s.subrange(4, 4 + n))
    &&& s[4 + n] == ' '
    &&& is_month_abbr(s.subrange(5 + n, 8 + n))
    &&& s[8 + n] == ' '
    &&& is_year_number(s.skip(9 + n))
}

/// A `%a %-d %b %Y` label, as `Mon 1 Jan 2024`: weekday, day, month and
/// year, separated by single spaces.
pub open spec fn is_date_label(s: Seq<char>) -> bool {
    is_date_label_with(s, 1) || is_date_label_with(s, 2)
}

/// The value of a run of decimal digits.
pub open spec fn digits_value(s: Seq<char>) -> int
    decreases s.len(),
{
    if s.len() == 0 {
        0
    } else {
        10 * digits_value(s.drop_last()) + digit_value(s.last())
    }
}

/// The year a `%Y` field names.
pub open spec fn year_value(y: Seq<char>) -> int {
    if y.len() > 0 && y[0] == '-' {
        -digits_value(y.skip(1))
    } else if y.len() > 0 && y[0] == '+' {
        digits_value(y.skip(1))
    } else {
        digits_value(y)
    }
}

/// The number (1 to 12) of an English month abbreviation.
pub open spec fn month_number(m: Seq<char>) -> int {
    if m == seq!['J', 'a', 'n'] {
        1
    } else if m == seq!['F', 'e', 'b'] {
        2
    } else if m == seq!['M', 'a', 'r'] {
        3
    } else if m == seq!['A', 'p', 'r'] {
        4
    } else if m == seq!['M', 'a', 'y'] {
        5
    } else if m == seq!['J', 'u', 'n'] {
        6
    } else if m == seq!['J', 'u', 'l'] {
        7
    } else if m == seq!['A', 'u', 'g'] {
        8
    } else if m == seq!['S', 'e', 'p'] {
        9
    } else if m == seq!['O', 'c', 't'] {
        10
    } else if m == seq!['N', 'o', 'v'] {
        11
    } else if m == seq!['D', 'e', 'c'] {
        12
    } else {
        0
    }
}

/// The day number, counted from 1970-01-01, of a proleptic Gregorian
/// date.
pub open spec fn days_from_civil(y: int, m: int, d: int) -> int {
    let y1 = if m <= 2 { y - 1 } else { y };
    let era = y1 / 400;
    let yoe = y1 - era * 400;
    let doy = (153 * (if m > 2 { m - 3 } else { m + 9 }) + 2) / 5 + d - 1;
    let doe = yoe * 365 + yoe / 4 - yoe / 100 + doy;
    era * 146097 + doe - 719468
}

/// The day number, counted from 1970-01-01, of the date a date label
/// names.
pub open spec fn label_day(s: Seq<char>) -> int {
    let n: int = if is_date_label_with(s, 1) { 1 } else { 2 };
    days_from_civil(
        year_value(s.skip(9 + n)),
        month_number(s.subrange(5 + n, 8 + n)),
        digits_value(s.subrange(4, 4 + n)),
    )
}

/// The UTC day number of the instant `ms`.
pub open spec fn utc_day(ms: int) -> int {
    ms / day_ms()
}

/// The local time of the instant `ms` written with the chrono format
/// `fmt`: `chrono::Local::timestamp_millis_opt`, then `DateTime::format`
/// and `to_string`, when the instant maps to a single local time. The
/// formats admitted are the two label formats, which chrono writes
/// without error. Which date or time comes out depends on the machine's
/// time zone; what is stated is the shape chrono's strftime
/// documentation gives each format (English names, the documented
/// padding, `%Y` signed outside 0 to 9999), and that the date is the
/// local date of `ms`: the UTC date moved by the zone offset, which is
/// under a day either way (`FixedOffset::east_opt`), so it is the UTC
/// date of `ms`, the day before or the day after.
#[verifier::external_body]
pub(crate) fn local_time_format(ms: i64, fmt: &str) -> (r: Option<String>)
    requires
        fmt@ == date_label_format() || fmt@ == clock_label_format(),
    ensures
        r matches Some(t) ==> (fmt@ == date_label_format() ==> is_date_label(t@)) && (fmt@
            == clock_label_format() ==> is_clock_label(t@)),
        r matches Some(t) ==> (fmt@ == date_label_format() ==> -1 <= label_day(t@) - utc_day(ms as int) <= 1),
{
    match chrono::TimeZone::timestamp_millis_opt(&chrono::Local, ms) {
        chrono::LocalResult::Single(dt) => Some(dt.format(fmt).to_string()),
        chrono::LocalResult::Ambiguous(_, _) => None,
        chrono::LocalResult::None => None,
    }
}

/// The label of a date separator: the local date of `midnight` as
/// `Mon 1 Jan 2024` (weekday, day without padding, month, year), or the
/// empty string when the instant has no single local time. The text
/// depends on the machine's time zone.
pub fn datestr(midnight: Timestamp) -> (r: String)
    ensures
        r@ == Seq::<char>::empty() || is_date_label(r@),
        r@ == Seq::<char>::empty() || -1 <= label_day(r@) - utc_day((midnight as i64) as int) <= 1,
{
    let ms = #[verifier::truncate] (midnight as i64);
    proof {
        reveal_strlit("%a %-d %b %Y");
        assert("%a %-d %b %Y"@ =~= date_label_format());
    }
    match local_time_format(ms, "%a %-d %b %Y") {
        Some(s) => {
            assert(date_label_format() != clock_label_format()) by {
                assert(date_label_format().len() != clock_label_format().len());
            }
            s
        },
        None => String::new(),
    }
}

/// The start of the day holding the wall-clock time `w`.
fn day_start(w: i64) -> (m: i64)
    requires
        -8_640_000_000_000_000 <= w <= 8_640_000_000_000_000,
    ensures
        m == day_floor(w as int),
{
    let k: i64 = 8_640_000_000_000_000;
    let u = (w + k) as u64;
    let f = u - u % 86_400_000;
    proof {
        vstd::arithmetic::div_mod::lemma_mod_multiples_vanish(100_000_000, w as int, 86_400_000);
        assert(u as int == 86_400_000 * 100_000_000 + w);
    }
    (f as i64) - k
}

/// Whether `v` holds `x`.
fn contains_ts(v: &Vec<Timestamp>, x: Timestamp) -> (r: bool)
    ensures
        r == v@.contains(x),
{
    let mut i: usize = 0;
    while i < v.len()
        invariant
            0 <= i <= v@.len(),
            forall|j: int| 0 <= j < i ==> v@[j] != x,
        decreases v@.len() - i,
    {
        if v[i] == x {
            assert(v@[i as int] == x);
            return true;
        }
        i = i + 1;
    }
    false
}

/// A stored record with its local day. `indexed` marks the message the
/// id index points at for its id: the one inserted last.
struct Entry {
    rec: MsgRecord,
    day: Timestamp,
    indexed: bool,
}

spec fn entry_view(e: Entry) -> EntryView {
    EntryView { ts: e.rec.ts, id: e.rec.id.0@, msg_type: e.rec.msg_type, payload: e.rec.payload@, day: e.day }
}

/// Whether entry `i` is the one indexed under `id`.
spec fn flagged(es: Seq<Entry>, i: int, id: Seq<u8>) -> bool {
    0 <= i < es.len() && es[i].indexed && es[i].rec.id.0@ == id
}

/// Only messages are indexed, at most one per id.
spec fn flags_wf(es: Seq<Entry>) -> bool {
    &&& forall|i: int| 0 <= i < es.len() && (#[trigger] es[i]).indexed ==> !es[i].rec.msg_type.spec_is_derived()
    &&& forall|i: int, j: int|
        0 <= i < j < es.len() && (#[trigger] es[i]).indexed && (#[trigger] es[j]).indexed ==> es[i].rec.id.0@
            != es[j].rec.id.0@
}

/// The id index: each indexed id with the key of its message.
spec fn index_of(es: Seq<Entry>) -> Map<Seq<u8>, (Timestamp, Seq<u8>)> {
    Map::new(
        |id: Seq<u8>| exists|i: int| flagged(es, i, id),
        |id: Seq<u8>| rec_key(es[choose|i: int| flagged(es, i, id)].rec),
    )
}

proof fn lemma_index_at(es: Seq<Entry>, i: int)
    requires
        flags_wf(es),
        0 <= i < es.len(),
        es[i].indexed,
    ensures
        index_of(es).contains_key(es[i].rec.id.0@),
        index_of(es)[es[i].rec.id.0@] == rec_key(es[i].rec),
{
    let id = es[i].rec.id.0@;
    assert(flagged(es, i, id));
    let j = choose|j: int| flagged(es, j, id);
    if j < i {
        assert(es[j].rec.id.0@ != es[i].rec.id.0@);
    } else if j > i {
        assert(es[i].rec.id.0@ != es[j].rec.id.0@);
    }
}

proof fn lemma_index_insert(es: Seq<Entry>, p: int, x: Entry)
    requires
        flags_wf(es),
        0 <= p <= es.len(),
        x.indexed ==> !x.rec.msg_type.spec_is_derived() && !index_of(es).contains_key(x.rec.id.0@),
    ensures
        flags_wf(es.insert(p, x)),
        index_of(es.insert(p, x)) == if x.indexed {
            index_of(es).insert(x.rec.id.0@, rec_key(x.rec))
        } else {
            index_of(es)
        },
{
    let t = es.insert(p, x);
    assert forall|a: int, b: int| 0 <= a < b < t.len() && (#[trigger] t[a]).indexed && (#[trigger] t[b]).indexed implies t[a].rec.id.0@
        != t[b].rec.id.0@ by {
        let a0 = if a < p { a } else { a - 1 };
        let b0 = if b < p { b } else { b - 1 };
        if a == p {
            assert(t[b] == es[b0]);
            lemma_index_at(es, b0);
        } else if b == p {
            assert(t[a] == es[a0]);
            lemma_index_at(es, a0);
        } else {
            assert(t[a] == es[a0] && t[b] == es[b0]);
        }
    }
    assert forall|a: int| 0 <= a < t.len() && (#[trigger] t[a]).indexed implies !t[a].rec.msg_type.spec_is_derived() by {
        if a < p {
            assert(t[a] == es[a]);
        } else if a > p {
            assert(t[a] == es[a - 1]);
        }
    }
    let want = if x.indexed { index_of(es).insert(x.rec.id.0@, rec_key(x.rec)) } else { index_of(es) };
    assert forall|id: Seq<u8>| #[trigger] index_of(t).contains_key(id) implies want.contains_key(id) && index_of(t)[id]
        == want[id] by {
        let j = choose|j: int| flagged(t, j, id);
        lemma_index_at(t, j);
        if j == p {
        } else {
            let j0 = if j < p { j } else { j - 1 };
            assert(t[j] == es[j0]);
            lemma_index_at(es, j0);
        }
    }
    assert forall|id: Seq<u8>| #[trigger] want.contains_key(id) implies index_of(t).contains_key(id) by {
        if x.indexed && id == x.rec.id.0@ {
            assert(flagged(t, p, id));
        } else {
            let k = choose|k: int| flagged(es, k, id);
            let k1 = if k < p { k } else { k + 1 };
            assert(t[k1] == es[k]);
            assert(flagged(t, k1, id));
        }
    }
    assert(index_of(t) =~= want);
}

proof fn lemma_index_remove(es: Seq<Entry>, p: int)
    requires
        flags_wf(es),
        0 <= p < es.len(),
    ensures
        flags_wf(es.remove(p)),
        index_of(es.remove(p)) == if es[p].indexed {
            index_of(es).remove(es[p].rec.id.0@)
        } else {
            index_of(es)
        },
{
    let t = es.remove(p);
    assert forall|a: int, b: int| 0 <= a < b < t.len() && (#[trigger] t[a]).indexed && (#[trigger] t[b]).indexed implies t[a].rec.id.0@
        != t[b].rec.id.0@ by {
        let a0 = if a < p { a } else { a + 1 };
        let b0 = if b < p { b } else { b + 1 };
        assert(t[a] == es[a0] && t[b] == es[b0]);
    }
    assert forall|a: int| 0 <= a < t.len() && (#[trigger] t[a]).indexed implies !t[a].rec.msg_type.spec_is_derived() by {
        let a0 = if a < p { a } else { a + 1 };
        assert(t[a] == es[a0]);
    }
    let want = if es[p].indexed { index_of(es).remove(es[p].rec.id.0@) } else { index_of(es) };
    assert forall|id: Seq<u8>| #[trigger] index_of(t).contains_key(id) implies want.contains_key(id) && index_of(t)[id]
        == want[id] by {
        let j = choose|j: int| flagged(t, j, id);
        lemma_index_at(t, j);
        let j0 = if j < p { j } else { j + 1 };
        assert(t[j] == es[j0]);
        lemma_index_at(es, j0);
        if es[p].indexed && id == es[p].rec.id.0@ {
            if j0 < p {
                assert(es[j0].rec.id.0@ != es[p].rec.id.0@);
            } else {
                assert(es[p].rec.id.0@ != es[j0].rec.id.0@);
            }
        }
    }
    assert forall|id: Seq<u8>| #[trigger] want.contains_key(id) implies index_of(t).contains_key(id) by {
        let k = choose|k: int| flagged(es, k, id);
        if k == p {
            lemma_index_at(es, p);
        } else {
            let k1 = if k < p { k } else { k - 1 };
            assert(t[k1] == es[k]);
            assert(flagged(t, k1, id));
        }
    }
    assert(index_of(t) =~= want);
}

/// In a sorted store, a key identifies the entry.
proof fn lemma_same_key_same_entry(s: Seq<EntryView>, x: EntryView, y: EntryView)
    requires
        sorted(s),
        ids_sized(s),
        s.contains(x),
        s.contains(y),
        key(x) == key(y),
    ensures
        x == y,
{
    let i = choose|i: int| 0 <= i < s.len() && s[i] == x;
    let j = choose|j: int| 0 <= j < s.len() && s[j] == y;
    lemma_key_order(key(x), key(x), key(x));
    if i < j {
        assert(key_lt(key(s[i]), key(s[j])));
    } else if j < i {
        assert(key_lt(key(s[j]), key(s[i])));
    }
}

/// In a sorted store, an entry is where its key goes.
proof fn lemma_pos_of_entry(s: Seq<EntryView>, i: int)
    requires
        sorted(s),
        ids_sized(s),
        0 <= i < s.len(),
    ensures
        insert_pos(s, key(s[i])) == i,
{
    lemma_insert_pos(s, key(s[i]));
    let q = insert_pos(s, key(s[i]));
    lemma_key_order(key(s[i]), key(s[i]), key(s[i]));
    if q < i {
        assert(key_lt(key(s[q]), key(s[i])));
    }
}

/// The record store. Stored ascending by `(ts, msg_id)`; display order
/// (newest first) is the reverse.
pub struct MsgBuffer {
    entries: Vec<Entry>,
    /// Whether date separators are maintained.
    separators: bool,
}

impl View for MsgBuffer {
    type V = Seq<EntryView>;

    closed spec fn view(&self) -> Seq<EntryView> {
        self.entries@.map_values(|e: Entry| entry_view(e))
    }
}

impl MsgBuffer {
    /// Whether date separators are maintained.
    pub closed spec fn keeps_separators(&self) -> bool {
        self.separators
    }

    /// The id index: each id with the key of the message it finds, the
    /// one with that id inserted last (derived records are not indexed).
    pub closed spec fn id_index(&self) -> Map<Seq<u8>, (Timestamp, Seq<u8>)> {
        index_of(self.entries@)
    }

    /// Only messages are indexed, at most one per id.
    pub closed spec fn flags_ok(&self) -> bool {
        flags_wf(self.entries@)
    }

    /// Sorted strictly by key, every id 32 bytes, and the id index points
    /// at stored messages.
    pub open spec fn wf(&self) -> bool {
        &&& sorted(self@)
        &&& ids_sized(self@)
        &&& self.flags_ok()
        &&& index_sound(self@, self.id_index())
    }

    /// The index fits the store when the flags are well formed.
    proof fn lemma_index_sound(&self)
        requires
            sorted(self@),
            self.flags_ok(),
        ensures
            index_sound(self@, self.id_index()),
    {
        self.lemma_view();
        let es = self.entries@;
        assert forall|id: Seq<u8>| #[trigger] self.id_index().contains_key(id) implies self.id_index()[id].1 == id
            && has_key(self@, self.id_index()[id]) && !self@[insert_pos(
            self@,
            self.id_index()[id],
        )].msg_type.spec_is_derived() by {
            let i = choose|i: int| flagged(es, i, id);
            lemma_index_at(es, i);
            assert(self@[i] == entry_view(es[i]));
            assert(key(self@[i]) == self.id_index()[id]);
            lemma_pos_of_entry(self@, i);
        }
    }

    proof fn lemma_view(&self)
        ensures
            self@.len() == self.entries@.len(),
            forall|i: int| 0 <= i < self@.len() ==> #[trigger] self@[i] == entry_view(self.entries@[i]),
            ids_sized(self@),
    {
        assert forall|i: int| 0 <= i < self@.len() implies (#[trigger] self@[i]).id.len() == 32 by {
            let r = self.entries@[i].rec;
            assert(r.id.0@.len() == 32);
        }
    }

    pub fn new() -> (r: Self)
        ensures
            r.wf(),
            r@ == Seq::<EntryView>::empty(),
            r.id_index() == Map::<Seq<u8>, (Timestamp, Seq<u8>)>::empty(),
            r.keeps_separators(),
    {
        let r = Self { entries: Vec::new(), separators: true };
        assert(r@ =~= Seq::<EntryView>::empty());
        assert(r.id_index() =~= Map::<Seq<u8>, (Timestamp, Seq<u8>)>::empty());
        r
    }

    /// Disable date separator maintenance.
    pub fn disable_separators(&mut self)
        ensures
            final(self)@ == old(self)@,
            final(self).id_index() == old(self).id_index(),
            old(self).wf() ==> final(self).wf(),
            !final(self).keeps_separators(),
    {
        self.separators = false;
    }

    /// Number of loaded records (separators included).
    pub fn len(&self) -> (n: usize)
        ensures
            n == self@.len(),
    {
        proof {
            self.lemma_view();
        }
        self.entries.len()
    }

    /// Whether no records are loaded.
    pub fn is_empty(&self) -> (r: bool)
        ensures
            r == (self@.len() == 0),
    {
        proof {
            self.lemma_view();
        }
        self.entries.len() == 0
    }

    /// The local-midnight timestamp of a timestamp's day. Falls back to
    /// the UTC day start when the local time is not a single instant,
    /// and to the naive UTC reading of local midnight where it is
    /// nonexistent (DST transitions at 00:00); an ambiguous midnight takes
    /// its earliest instant. Which local midnight it is depends on the
    /// machine's time zone: what is stated is how it is chosen from the
    /// local-time mapping of the day's start, and that it lies within
    /// three days before and two days after `ts`.
    pub fn midnight_of(ts: Timestamp) -> (r: Timestamp)
        requires
            local_date_defined(ts),
        ensures
            is_local_midnight(ts, r),
            3 * day_ms() <= ts <= i64::MAX ==> ts - 3 * day_ms() < r < ts + 2 * day_ms(),
    {
        let w = match local_wallclock_millis(ts) {
            Some(w) => w,
            None => {
                return Self::pick_midnight(ts, false, LocalMillis::Gap, 0);
            },
        };
        let m = day_start(w);
        let local = match local_from_wallclock(m) {
            Some(l) => l,
            None => {
                return Self::pick_midnight(ts, false, LocalMillis::Gap, 0);
            },
        };
        let r = Self::pick_midnight(ts, true, local, m);
        proof {
            assert(r == spec_pick_midnight(ts, true, local, day_floor(w as int) as i64));
            if 3 * day_ms() <= ts <= i64::MAX {
                assert((ts as i64) as int == ts as int);
            }
        }
        r
    }

    /// The midnight taken for `ts` from the local-time mapping's outcome
    /// (see [`spec_pick_midnight`]).
    pub fn pick_midnight(ts: Timestamp, date_found: bool, local: LocalMillis, naive_utc: i64) -> (r: Timestamp)
        ensures
            r == spec_pick_midnight(ts, date_found, local, naive_utc),
    {
        if !date_found {
            return ts.saturating_sub(ts % 86_400_000);
        }
        let ms = match local {
            LocalMillis::Single(t) => t,
            LocalMillis::Ambiguous(earliest, _) => earliest,
            LocalMillis::Gap => naive_utc,
        };
        #[verifier::truncate]
        (ms as u64)
    }

    /// The insertion position of a key.
    fn find_pos(&self, ts: Timestamp, id: &MessageId) -> (p: usize)
        requires
            self.wf(),
        ensures
            p == insert_pos(self@, (ts, id.0@)),
    {
        proof {
            self.lemma_view();
        }
        let ghost k = (ts, id.0@);
        let n = self.entries.len();
        let mut i: usize = 0;
        while i < n
            invariant
                n == self@.len(),
                0 <= i <= n,
                self.wf(),
                forall|j: int| 0 <= j < self@.len() ==> #[trigger] self@[j] == entry_view(self.entries@[j]),
                k == (ts, id.0@),
                pos_from(self@, k, 0) == pos_from(self@, k, i as int),
            decreases n - i,
        {
            let e = &self.entries[i];
            assert(self@[i as int] == entry_view(self.entries@[i as int]));
            if !key_less(e.rec.ts, &e.rec.id, ts, id) {
                return i;
            }
            i = i + 1;
        }
        i
    }

    /// Whether a record with this composite key is stored.
    fn has_key_exec(&self, ts: Timestamp, id: &MessageId) -> (r: bool)
        requires
            self.wf(),
        ensures
            r == has_key(self@, (ts, id.0@)),
    {
        proof {
            self.lemma_view();
            lemma_insert_pos(self@, (ts, id.0@));
        }
        let p = self.find_pos(ts, id);
        if p < self.entries.len() {
            let e = &self.entries[p];
            let same = !key_less(e.rec.ts, &e.rec.id, ts, id) && !key_less(ts, id, e.rec.ts, &e.rec.id);
            proof {
                let k = key(self@[p as int]);
                lemma_key_order((ts, id.0@), k, (ts, id.0@));
                if same {
                    assert(k.1 =~= id.0@);
                }
            }
            same
        } else {
            false
        }
    }

    /// The ordering and dedup half of an insert: store the record at its
    /// key's place unless the key is already stored, and index a message
    /// under its id. Returns its position.
    fn insert_entry(&mut self, rec: MsgRecord, day: Timestamp) -> (r: Option<usize>)
        requires
            old(self).wf(),
        ensures
            final(self).wf(),
            final(self).keeps_separators() == old(self).keeps_separators(),
            has_key(old(self)@, rec_key(rec)) ==> r is None && final(self)@ == old(self)@ && final(self).id_index()
                == old(self).id_index(),
            !has_key(old(self)@, rec_key(rec)) ==> r is Some && r->0 == insert_pos(old(self)@, rec_key(rec))
                && final(self)@ == sorted_insert(old(self)@, entry_of(rec, day)) && final(self).id_index()
                == index_after_insert(old(self).id_index(), entry_of(rec, day)),
    {
        proof {
            self.lemma_view();
        }
        if self.has_key_exec(rec.ts, &rec.id) {
            return None;
        }
        let indexed = !rec.msg_type.is_derived();
        if indexed {
            match self.find_indexed(&rec.id) {
                Some(i) => {
                    let ghost es0 = self.entries@;
                    let mut e = self.entries.remove(i);
                    proof {
                        lemma_index_remove(es0, i as int);
                    }
                    let ghost es1 = self.entries@;
                    e.indexed = false;
                    let ghost ge = e;
                    self.entries.insert(i, e);
                    proof {
                        lemma_index_insert(es1, i as int, ge);
                        assert(self.entries@ =~= es0.update(i as int, ge));
                        assert(self@ =~= old(self)@);
                        self.lemma_index_sound();
                    }
                },
                None => {},
            }
        }
        let ghost mid_index = self.id_index();
        proof {
            assert(indexed ==> mid_index == old(self).id_index().remove(rec.id.0@));
            assert(indexed ==> !mid_index.contains_key(rec.id.0@));
        }
        let p = self.find_pos(rec.ts, &rec.id);
        proof {
            self.lemma_view();
            lemma_insert_pos(self@, rec_key(rec));
            assert(rec.id.0@.len() == 32);
            lemma_sorted_insert(self@, entry_of(rec, day));
        }
        let ghost es2 = self.entries@;
        let entry = Entry { rec, day, indexed };
        let ghost ge = entry;
        self.entries.insert(p, entry);
        proof {
            lemma_index_insert(es2, p as int, ge);
            assert(self@ =~= sorted_insert(old(self)@, entry_of(ge.rec, day)));
            self.lemma_index_sound();
            if indexed {
                assert(self.id_index() =~= old(self).id_index().insert(ge.rec.id.0@, rec_key(ge.rec)));
            }
        }
        Some(p)
    }

    /// Insert a record stored with its local day `day` at its
    /// `(ts, msg_id)` place. Returns false, leaving the buffer untouched,
    /// when a record with the same composite key is loaded (dedup). A
    /// message that starts a run of its day gets the day's separator,
    /// unless it is already loaded or separators are not kept.
    pub fn insert_dated(&mut self, rec: MsgRecord, day: Timestamp) -> (r: bool)
        requires
            old(self).wf(),
        ensures
            final(self).wf(),
            final(self).keeps_separators() == old(self).keeps_separators(),
            r == !has_key(old(self)@, rec_key(rec)),
            !r ==> final(self)@ == old(self)@,
            r ==> final(self)@ == after_insert(old(self)@, entry_of(rec, day), old(self).keeps_separators()),
            final(self).id_index() == if r {
                index_after_insert(old(self).id_index(), entry_of(rec, day))
            } else {
                old(self).id_index()
            },
            seps_zero(old(self)@) && (rec.msg_type.spec_is_derived() ==> rec.id.0@ == zero_id()) ==> seps_zero(
                final(self)@,
            ),
    {
        let derived = rec.msg_type.is_derived();
        let ghost e = entry_of(rec, day);
        proof {
            assert(rec.id.0@.len() == 32);
            lemma_insert_pos(self@, key(e));
        }
        let pos = match self.insert_entry(rec, day) {
            None => {
                return false;
            },
            Some(p) => p,
        };
        let ghost s1 = self@;
        proof {
            self.lemma_view();
        }
        if !derived && self.separators {
            let starts = if pos == 0 {
                true
            } else {
                let older = &self.entries[pos - 1];
                assert(self@[pos - 1] == entry_view(self.entries@[pos - 1]));
                !older.rec.msg_type.is_derived() && older.day != day
            };
            assert(starts == starts_run(s1, pos as int, day));
            let zero = MessageId([0u8; 32]);
            assert(zero.0@ =~= zero_id());
            if starts && !self.has_key_exec(day, &zero) {
                let sep = MsgRecord {
                    ts: day,
                    id: zero,
                    msg_type: MsgType::DateMsg,
                    payload: encode_datemsg_payload(day),
                };
                assert(entry_of(sep, day) =~= sep_entry(day));
                self.insert_entry(sep, day);
            }
        }
        assert(pos as int == insert_pos(old(self)@, key(e)));
        assert(self@ == with_separator(s1, pos as int, e, old(self).keeps_separators()));
        proof {
            if seps_zero(old(self)@) && (rec.msg_type.spec_is_derived() ==> rec.id.0@ == zero_id()) {
                lemma_seps_zero_after_insert(old(self)@, e, old(self).keeps_separators());
            }
        }
        true
    }

    /// Insert a record at its `(ts, msg_id)` place, with date separator
    /// maintenance (see [`MsgBuffer::insert_dated`]; the day is the local
    /// midnight of the record's timestamp). Returns false, leaving the
    /// buffer untouched, when a record with the same composite key is
    /// already loaded.
    pub fn insert(&mut self, rec: MsgRecord) -> (r: bool)
        requires
            old(self).wf(),
            old(self).keeps_separators() && !rec.msg_type.spec_is_derived() ==> local_date_defined(rec.ts),
        ensures
            final(self).wf(),
            final(self).keeps_separators() == old(self).keeps_separators(),
            r == !has_key(old(self)@, rec_key(rec)),
            !r ==> final(self)@ == old(self)@,
            r ==> exists|day: Timestamp|
                filed_day(rec, day, old(self).keeps_separators()) && final(self)@ == #[trigger] after_insert(
                    old(self)@,
                    entry_of(rec, day),
                    old(self).keeps_separators(),
                ),
            final(self).id_index() == if r && !rec.msg_type.spec_is_derived() {
                old(self).id_index().insert(rec.id.0@, rec_key(rec))
            } else {
                old(self).id_index()
            },
            seps_zero(old(self)@) && (rec.msg_type.spec_is_derived() ==> rec.id.0@ == zero_id()) ==> seps_zero(
                final(self)@,
            ),
    {
        let day = if self.separators && !rec.msg_type.is_derived() {
            Self::midnight_of(rec.ts)
        } else {
            rec.ts
        };
        let ghost e = entry_of(rec, day);
        let r = self.insert_dated(rec, day);
        assert(r ==> final(self)@ == after_insert(old(self)@, e, old(self).keeps_separators()));
        r
    }

    /// Where the message the id index finds for this id is stored.
    fn find_indexed(&self, id: &MessageId) -> (r: Option<usize>)
        requires
            self.wf(),
        ensures
            match r {
                Some(i) => flagged(self.entries@, i as int, id.0@) && self.id_index().contains_key(id.0@) && i
                    == insert_pos(self@, self.id_index()[id.0@]),
                None => !self.id_index().contains_key(id.0@),
            },
    {
        proof {
            self.lemma_view();
        }
        let n = self.entries.len();
        let mut i: usize = 0;
        while i < n
            invariant
                n == self.entries@.len(),
                self.wf(),
                0 <= i <= n,
                forall|j: int| 0 <= j < i ==> !flagged(self.entries@, j, id.0@),
            decreases n - i,
        {
            let e = &self.entries[i];
            if e.indexed && id_eq(&e.rec.id, id) {
                proof {
                    assert(flagged(self.entries@, i as int, id.0@));
                    lemma_index_at(self.entries@, i as int);
                    assert(self@[i as int] == entry_view(self.entries@[i as int]));
                    lemma_pos_of_entry(self@, i as int);
                }
                return Some(i);
            }
            proof {
                if flagged(self.entries@, i as int, id.0@) {
                    vstd::array::axiom_array_ext_equal(e.rec.id.0, id.0);
                }
            }
            i = i + 1;
        }
        None
    }

    /// Whether a message with this id is loaded.
    pub fn contains(&self, id: &MessageId) -> (r: bool)
        requires
            self.wf(),
        ensures
            r == self.id_index().contains_key(id.0@),
    {
        self.find_indexed(id).is_some()
    }

    /// The message with this id, if loaded.
    pub fn record(&self, id: &MessageId) -> (r: Option<&MsgRecord>)
        requires
            self.wf(),
        ensures
            self.id_index().contains_key(id.0@) ==> r is Some && views_rec(
                *r->0,
                self@[insert_pos(self@, self.id_index()[id.0@])],
            ),
            !self.id_index().contains_key(id.0@) ==> r is None,
    {
        proof {
            self.lemma_view();
        }
        match self.find_indexed(id) {
            Some(i) => Some(&self.entries[i].rec),
            None => None,
        }
    }

    /// Replace the payload of the message with this id. Returns false if
    /// no such message is loaded.
    pub fn set_payload(&mut self, id: &MessageId, payload: Vec<u8>) -> (r: bool)
        requires
            old(self).wf(),
        ensures
            final(self).wf(),
            final(self).keeps_separators() == old(self).keeps_separators(),
            final(self).id_index() == old(self).id_index(),
            r == old(self).id_index().contains_key(id.0@),
            r ==> final(self)@ == old(self)@.update(
                insert_pos(old(self)@, old(self).id_index()[id.0@]),
                EntryView { payload: payload@, ..old(self)@[insert_pos(old(self)@, old(self).id_index()[id.0@])] },
            ),
            !r ==> final(self)@ == old(self)@,
            seps_zero(old(self)@) ==> seps_zero(final(self)@),
    {
        proof {
            self.lemma_view();
        }
        let i = match self.find_indexed(id) {
            Some(i) => i,
            None => {
                return false;
            },
        };
        let ghost es0 = self.entries@;
        let mut e = self.entries.remove(i);
        proof {
            lemma_index_remove(es0, i as int);
        }
        let ghost es1 = self.entries@;
        e.rec.payload = payload;
        let ghost ge = e;
        self.entries.insert(i, e);
        proof {
            lemma_index_insert(es1, i as int, ge);
            assert(self.id_index() =~= old(self).id_index());
            let t = old(self)@.update(i as int, EntryView { payload: payload@, ..old(self)@[i as int] });
            assert(self@ =~= t);
            assert forall|a: int, b: int| 0 <= a < b < t.len() implies key_lt(key(#[trigger] t[a]), key(#[trigger] t[b])) by {
                assert(key(t[a]) == key(old(self)@[a]) && key(t[b]) == key(old(self)@[b]));
            }
            assert forall|j: int| 0 <= j < t.len() && (#[trigger] t[j]).msg_type.spec_is_derived() && seps_zero(
                old(self)@,
            ) implies t[j].id == zero_id() by {
                assert(t[j].id == old(self)@[j].id && t[j].msg_type == old(self)@[j].msg_type);
            }
            self.lemma_view();
            self.lemma_index_sound();
        }
        true
    }

    /// Remove the message the id finds, the one with that id inserted
    /// last (derived records are never removed by id); a day left without
    /// messages loses its separator. Returns false if the id finds none;
    /// afterwards it finds none.
    pub fn remove(&mut self, id: &MessageId) -> (r: bool)
        requires
            old(self).wf(),
        ensures
            final(self).wf(),
            final(self).keeps_separators() == old(self).keeps_separators(),
            r == old(self).id_index().contains_key(id.0@),
            r ==> final(self)@ == after_remove(
                old(self)@,
                insert_pos(old(self)@, old(self).id_index()[id.0@]),
                old(self).keeps_separators(),
            ) && final(self).id_index() == index_after_remove(
                old(self)@,
                old(self).id_index(),
                insert_pos(old(self)@, old(self).id_index()[id.0@]),
                old(self).keeps_separators(),
            ),
            r ==> !final(self).id_index().contains_key(id.0@),
            !r ==> final(self)@ == old(self)@ && final(self).id_index() == old(self).id_index(),
            seps_zero(old(self)@) ==> seps_zero(final(self)@),
    {
        proof {
            self.lemma_view();
        }
        let i = match self.find_indexed(id) {
            Some(i) => i,
            None => {
                return false;
            },
        };
        let ghost es0 = self.entries@;
        let ghost idx0 = old(self).id_index();
        let removed = self.entries.remove(i);
        let ghost s1 = old(self)@.remove(i as int);
        let ghost idx1 = idx0.remove(id.0@);
        proof {
            lemma_index_remove(es0, i as int);
            assert(self.id_index() == idx1);
            assert(self@ =~= s1);
            assert(old(self)@[i as int] == entry_view(es0[i as int]));
            lemma_sorted_remove(old(self)@, i as int);
            if seps_zero(old(self)@) {
                lemma_seps_zero_remove(old(self)@, i as int);
            }
            self.lemma_index_sound();
        }
        if self.separators && !removed.rec.msg_type.is_derived() {
            let day = removed.day;
            let n = self.entries.len();
            let mut populated = false;
            let mut j: usize = 0;
            while j < n
                invariant
                    n == self.entries@.len(),
                    self@ == s1,
                    0 <= j <= n,
                    forall|k: int| 0 <= k < self@.len() ==> #[trigger] self@[k] == entry_view(self.entries@[k]),
                    populated == exists|k: int|
                        0 <= k < j && !(#[trigger] s1[k]).msg_type.spec_is_derived() && s1[k].day == day,
                decreases n - j,
            {
                let e = &self.entries[j];
                assert(self@[j as int] == entry_view(self.entries@[j as int]));
                if !e.rec.msg_type.is_derived() && e.day == day {
                    populated = true;
                }
                j = j + 1;
            }
            let zero = MessageId([0u8; 32]);
            assert(zero.0@ =~= zero_id());
            if !populated && self.has_key_exec(day, &zero) {
                let p = self.find_pos(day, &zero);
                let ghost es1 = self.entries@;
                proof {
                    lemma_insert_pos(s1, key(sep_entry(day)));
                    self.lemma_view();
                    assert(s1[p as int] == entry_view(es1[p as int]));
                    let k = key(sep_entry(day));
                    if es1[p as int].indexed {
                        lemma_index_at(es1, p as int);
                    } else if idx1.contains_key(k.1) && idx1[k.1] == k {
                        let j2 = choose|j2: int| flagged(es1, j2, k.1);
                        lemma_index_at(es1, j2);
                        assert(s1[j2] == entry_view(es1[j2]));
                        lemma_pos_of_entry(s1, j2);
                    }
                }
                self.entries.remove(p);
                proof {
                    lemma_index_remove(es1, p as int);
                    assert(self@ =~= s1.remove(p as int));
                    lemma_sorted_remove(s1, p as int);
                    if seps_zero(s1) {
                        lemma_seps_zero_remove(s1, p as int);
                    }
                    self.lemma_index_sound();
                }
            }
        }
        true
    }

    /// The record at display position `idx` (0 = newest).
    pub fn record_at(&self, idx: usize) -> (r: Option<&MsgRecord>)
        ensures
            idx < self@.len() ==> r is Some && views_rec(*r->0, self@[self@.len() - 1 - idx]),
            idx >= self@.len() ==> r is None,
    {
        proof {
            self.lemma_view();
        }
        let n = self.entries.len();
        if idx >= n {
            return None;
        }
        Some(&self.entries[n - 1 - idx].rec)
    }

    /// The loaded records in display order (newest first).
    pub fn iter_display_order(&self) -> (r: Vec<&MsgRecord>)
        ensures
            r@.len() == self@.len(),
            forall|i: int| 0 <= i < r@.len() ==> views_rec(*#[trigger] r@[i], self@[self@.len() - 1 - i]),
    {
        proof {
            self.lemma_view();
        }
        let n = self.entries.len();
        let mut r: Vec<&MsgRecord> = Vec::new();
        let mut i: usize = 0;
        while i < n
            invariant
                n == self@.len(),
                0 <= i <= n,
                r@.len() == i,
                forall|k: int| 0 <= k < self@.len() ==> #[trigger] self@[k] == entry_view(self.entries@[k]),
                forall|k: int| 0 <= k < i ==> views_rec(*#[trigger] r@[k], self@[n - 1 - k]),
            decreases n - i,
        {
            assert(self@[n - 1 - i] == entry_view(self.entries@[n - 1 - i]));
            r.push(&self.entries[n - 1 - i].rec);
            i = i + 1;
        }
        r
    }

    /// The oldest loaded timestamp: where loading resumes. None when
    /// nothing is loaded.
    pub fn oldest_ts(&self) -> (r: Option<Timestamp>)
        ensures
            self@.len() > 0 ==> r == Some(self@[0].ts),
            self@.len() == 0 ==> r is None,
    {
        proof {
            self.lemma_view();
        }
        if self.entries.len() == 0 {
            None
        } else {
            Some(self.entries[0].rec.ts)
        }
    }

    /// Display position (0 = newest) of the message with this id.
    pub fn position_of(&self, id: &MessageId) -> (r: Option<usize>)
        requires
            self.wf(),
        ensures
            self.id_index().contains_key(id.0@) ==> r == Some(
                (self@.len() - 1 - insert_pos(self@, self.id_index()[id.0@])) as usize,
            ),
            !self.id_index().contains_key(id.0@) ==> r is None,
    {
        proof {
            self.lemma_view();
        }
        let n = self.entries.len();
        match self.find_indexed(id) {
            Some(i) => Some(n - 1 - i),
            None => None,
        }
    }

    /// Separator resync after structural batches: every day with
    /// messages gets exactly one separator, and the separators of days
    /// without messages are removed.
    fn resync_separators(&mut self)
        requires
            old(self).wf(),
            old(self).keeps_separators() ==> seps_zero(old(self)@),
        ensures
            final(self).wf(),
            final(self).keeps_separators() == old(self).keeps_separators(),
            old(self).keeps_separators() ==> forall|x: EntryView| #[trigger] final(self)@.contains(x) <==> resynced(old(self)@, x),
            !old(self).keeps_separators() ==> final(self)@ == old(self)@,
            final(self).id_index() == old(self).id_index(),
    {
        if !self.separators {
            return;
        }
        proof {
            self.lemma_view();
        }
        let ghost s0 = self@;
        let zero = MessageId([0u8; 32]);
        assert(zero.0@ =~= zero_id());
        // The days with messages, and the separators' timestamps (ascending).
        let n = self.entries.len();
        let mut days: Vec<Timestamp> = Vec::new();
        let mut seps: Vec<Timestamp> = Vec::new();
        let mut i: usize = 0;
        while i < n
            invariant
                n == s0.len(),
                self@ == s0,
                sorted(s0),
                ids_sized(s0),
                seps_zero(s0),
                zero.0@ == zero_id(),
                0 <= i <= n,
                forall|k: int| 0 <= k < s0.len() ==> #[trigger] s0[k] == entry_view(self.entries@[k]),
                forall|d: Timestamp| days@.contains(d) <==> exists|j: int|
                    0 <= j < i && !(#[trigger] s0[j]).msg_type.spec_is_derived() && s0[j].day == d,
                forall|t: Timestamp| seps@.contains(t) <==> exists|j: int|
                    0 <= j < i && (#[trigger] s0[j]).msg_type.spec_is_derived() && s0[j].ts == t,
                forall|a: int, b: int| 0 <= a < b < seps@.len() ==> seps@[a] < seps@[b],
                forall|a: int, j: int|
                    0 <= a < seps@.len() && i <= j < n && (#[trigger] s0[j]).msg_type.spec_is_derived()
                        ==> #[trigger] seps@[a] < s0[j].ts,
            decreases n - i,
        {
            let e = &self.entries[i];
            assert(s0[i as int] == entry_view(self.entries@[i as int]));
            let ghost d0 = days@;
            let ghost t0 = seps@;
            if e.rec.msg_type.is_derived() {
                let t = e.rec.ts;
                proof {
                    assert forall|j: int| i < j < n && (#[trigger] s0[j]).msg_type.spec_is_derived() implies t
                        < s0[j].ts by {
                        lemma_seq_lt_irrefl(zero_id());
                        assert(key_lt(key(s0[i as int]), key(s0[j])));
                    }
                }
                seps.push(t);
                proof {
                    lemma_push_contains(t0, t);
                    assert(s0[i as int].msg_type.spec_is_derived() && s0[i as int].ts == t);
                    assert forall|x: Timestamp| seps@.contains(x) <==> exists|j: int|
                        0 <= j < i + 1 && (#[trigger] s0[j]).msg_type.spec_is_derived() && s0[j].ts == x by {
                        assert(seps@ == t0.push(t));
                        assert(t0.push(t).contains(x) <==> t0.contains(x) || x == t);
                        if exists|j: int| 0 <= j < i + 1 && (#[trigger] s0[j]).msg_type.spec_is_derived() && s0[j].ts == x {
                            let j = choose|j: int| 0 <= j < i + 1 && (#[trigger] s0[j]).msg_type.spec_is_derived() && s0[j].ts == x;
                            if j < i {
                                assert(t0.contains(x));
                            }
                        }
                    }
                    assert forall|x: Timestamp| days@.contains(x) <==> exists|j: int|
                        0 <= j < i + 1 && !(#[trigger] s0[j]).msg_type.spec_is_derived() && s0[j].day == x by {
                        if exists|j: int| 0 <= j < i + 1 && !(#[trigger] s0[j]).msg_type.spec_is_derived() && s0[j].day == x {
                            let j = choose|j: int| 0 <= j < i + 1 && !(#[trigger] s0[j]).msg_type.spec_is_derived() && s0[j].day == x;
                            assert(j < i);
                        }
                    }
                }
            } else {
                let d = e.day;
                days.push(d);
                proof {
                    lemma_push_contains(d0, d);
                    assert(!s0[i as int].msg_type.spec_is_derived() && s0[i as int].day == d);
                    assert forall|x: Timestamp| days@.contains(x) <==> exists|j: int|
                        0 <= j < i + 1 && !(#[trigger] s0[j]).msg_type.spec_is_derived() && s0[j].day == x by {
                        assert(days@ == d0.push(d));
                        assert(d0.push(d).contains(x) <==> d0.contains(x) || x == d);
                        if exists|j: int| 0 <= j < i + 1 && !(#[trigger] s0[j]).msg_type.spec_is_derived() && s0[j].day == x {
                            let j = choose|j: int| 0 <= j < i + 1 && !(#[trigger] s0[j]).msg_type.spec_is_derived() && s0[j].day == x;
                            if j < i {
                                assert(d0.contains(x));
                            }
                        }
                    }
                    assert forall|x: Timestamp| seps@.contains(x) <==> exists|j: int|
                        0 <= j < i + 1 && (#[trigger] s0[j]).msg_type.spec_is_derived() && s0[j].ts == x by {
                        if exists|j: int| 0 <= j < i + 1 && (#[trigger] s0[j]).msg_type.spec_is_derived() && s0[j].ts == x {
                            let j = choose|j: int| 0 <= j < i + 1 && (#[trigger] s0[j]).msg_type.spec_is_derived() && s0[j].ts == x;
                            assert(j < i);
                        }
                    }
                }
            }
            i = i + 1;
        }
        let ghost c2 = self@;
        let ghost dv = days@;
        let ghost sv = seps@;
        // Every day with messages gets its separator.
        let nd = days.len();
        let mut k: usize = 0;
        while k < nd
            invariant
                nd == dv.len(),
                dv == days@,
                sv == seps@,
                sorted(self@),
                ids_sized(self@),
                self.wf(),
                self.id_index() == old(self).id_index(),
                self.separators,
                zero.0@ == zero_id(),
                0 <= k <= nd,
                forall|d: Timestamp| dv.contains(d) <==> day_populated(s0, d),
                forall|t: Timestamp| sv.contains(t) <==> sep_at(s0, t),
                forall|x: EntryView| #[trigger] self@.contains(x) <==> s0.contains(x) || sep_added(s0, dv, sv, k as int, x),
            decreases nd - k,
        {
            let d = days[k];
            let ghost before = self@;
            let ghost sepd = sep_entry(d);
            proof {
                lemma_sep_added_step(s0, dv, sv, k as int);
            }
            if !contains_ts(&seps, d) {
                let sep = MsgRecord {
                    ts: d,
                    id: zero,
                    msg_type: MsgType::DateMsg,
                    payload: encode_datemsg_payload(d),
                };
                assert(entry_of(sep, d) =~= sepd);
                proof {
                    lemma_insert_pos(before, key(sepd));
                    lemma_contains_insert(before, insert_pos(before, key(sepd)), sepd);
                    if has_key(s0, key(sepd)) {
                        let j = choose|j: int| 0 <= j < s0.len() && key(#[trigger] s0[j]) == key(sepd);
                        assert(s0.contains(s0[j]));
                        assert(before.contains(s0[j]));
                        let j2 = choose|j2: int| 0 <= j2 < before.len() && before[j2] == s0[j];
                        assert(key(before[j2]) == key(sepd));
                    }
                    if has_key(before, key(sepd)) && !has_key(s0, key(sepd)) {
                        let j = choose|j: int| 0 <= j < before.len() && key(#[trigger] before[j]) == key(sepd);
                        assert(before.contains(before[j]));
                        if s0.contains(before[j]) {
                            let j0 = choose|j0: int| 0 <= j0 < s0.len() && s0[j0] == before[j];
                            assert(key(s0[j0]) == key(sepd));
                        } else {
                            let m = choose|m: int|
                                0 <= m < k && before[j] == sep_entry(#[trigger] dv[m]) && !sv.contains(dv[m])
                                    && !has_key(s0, key(sep_entry(dv[m])));
                            assert(before[j] == sepd);
                        }
                    }
                }
                self.insert_entry(sep, d);
                proof {
                    assert(dv[k as int] == d);
                    assert forall|x: EntryView| #[trigger] self@.contains(x) <==> s0.contains(x) || sep_added(
                        s0,
                        dv,
                        sv,
                        k + 1,
                        x,
                    ) by {
                        if !has_key(before, key(sepd)) {
                            let ins = before.insert(insert_pos(before, key(sepd)), sepd);
                            assert(self@ == ins);
                            assert(ins.contains(x) <==> before.contains(x) || x == sepd);
                            assert(self@.contains(x) <==> before.contains(x) || x == sepd);
                            assert(!has_key(s0, key(sepd)));
                        } else {
                            assert(self@ == before);
                        }
                    }
                }
            } else {
                proof {
                    assert(dv[k as int] == d);
                    assert forall|x: EntryView| #[trigger] self@.contains(x) <==> s0.contains(x) || sep_added(
                        s0,
                        dv,
                        sv,
                        k + 1,
                        x,
                    ) by {
                        assert(sv.contains(d));
                    }
                }
            }
            k = k + 1;
        }
        // Separators of days without messages go.
        let ns = seps.len();
        let mut k: usize = 0;
        let ghost c3 = self@;
        proof {
            assert forall|m: int| 0 <= m < ns implies has_key(self@, (#[trigger] sv[m], zero_id())) by {
                assert(sv.contains(sv[m]));
                let j = choose|j: int| 0 <= j < s0.len() && (#[trigger] s0[j]).msg_type.spec_is_derived() && s0[j].ts == sv[m];
                assert(s0.contains(s0[j]));
                assert(self@.contains(s0[j]));
                let j2 = choose|j2: int| 0 <= j2 < self@.len() && self@[j2] == s0[j];
                assert(key(self@[j2]) == (sv[m], zero_id()));
            }
        }
        while k < ns
            invariant
                ns == sv.len(),
                dv == days@,
                sv == seps@,
                sorted(self@),
                ids_sized(self@),
                self.wf(),
                self.id_index() == old(self).id_index(),
                self.separators,
                zero.0@ == zero_id(),
                0 <= k <= ns,
                sorted(s0),
                ids_sized(s0),
                seps_zero(s0),
                forall|t: Timestamp| sv.contains(t) <==> sep_at(s0, t),
                forall|x: EntryView| #[trigger] c3.contains(x) <==> s0.contains(x) || sep_added(s0, dv, sv, nd as int, x),
                forall|a: int, b: int| 0 <= a < b < sv.len() ==> sv[a] < sv[b],
                forall|m: int| k <= m < ns ==> has_key(self@, (#[trigger] sv[m], zero_id())),
                forall|x: EntryView| #[trigger] self@.contains(x) <==> c3.contains(x) && !sep_dropped(dv, sv, k as int, x),
            decreases ns - k,
        {
            let t = seps[k];
            proof {
                lemma_sep_dropped_step(dv, sv, k as int);
            }
            if !contains_ts(&days, t) {
                let ghost before = self@;
                proof {
                    self.lemma_view();
                    lemma_insert_pos(before, (t, zero_id()));
                }
                let p = self.find_pos(t, &zero);
                let ghost es1 = self.entries@;
                proof {
                    // The entry going is the stored separator of `t`: derived,
                    // so the id index does not find it.
                    let x = before[p as int];
                    assert(key(x) == (t, zero_id()));
                    assert(before.contains(x));
                    assert(c3.contains(x));
                    assert(sv[k as int] == t);
                    if s0.contains(x) {
                        assert(sv.contains(t));
                        let j = choose|j: int| 0 <= j < s0.len() && (#[trigger] s0[j]).msg_type.spec_is_derived() && s0[j].ts == t;
                        assert(s0[j].id == zero_id());
                        assert(s0.contains(s0[j]));
                        lemma_same_key_same_entry(s0, x, s0[j]);
                    }
                    assert(x.msg_type.spec_is_derived());
                    assert(before[p as int] == entry_view(es1[p as int]));
                }
                self.entries.remove(p);
                proof {
                    lemma_index_remove(es1, p as int);
                    assert(self@ =~= before.remove(p as int));
                    assert(key(before[p as int]) == (t, zero_id()));
                    lemma_sorted_remove(before, p as int);
                    lemma_contains_remove_key(before, p as int);
                    self.lemma_index_sound();
                    assert forall|m: int| k + 1 <= m < ns implies has_key(self@, (#[trigger] sv[m], zero_id())) by {
                        let j = choose|j: int| 0 <= j < before.len() && key(#[trigger] before[j]) == (sv[m], zero_id());
                        assert(before.contains(before[j]));
                        assert(sv[k as int] < sv[m]);
                        assert(self@.contains(before[j]));
                        let j2 = choose|j2: int| 0 <= j2 < self@.len() && self@[j2] == before[j];
                        assert(key(self@[j2]) == (sv[m], zero_id()));
                    }
                    assert forall|x: EntryView| #[trigger] self@.contains(x) <==> c3.contains(x) && !sep_dropped(
                        dv,
                        sv,
                        k + 1,
                        x,
                    ) by {
                        assert(sv[k as int] == t);
                        assert(self@.contains(x) <==> before.contains(x) && key(x) != key(before[p as int]));
                    }
                }
            } else {
                proof {
                    assert forall|x: EntryView| #[trigger] self@.contains(x) <==> c3.contains(x) && !sep_dropped(
                        dv,
                        sv,
                        k + 1,
                        x,
                    ) by {
                        assert(sv[k as int] == t);
                        assert(dv.contains(t));
                    }
                }
            }
            k = k + 1;
        }
        proof {
            assert forall|x: EntryView| #[trigger] self@.contains(x) <==> resynced(s0, x) by {
                lemma_resync_membership(s0, dv, sv, c3, self@, x);
            }
        }
    }

    /// Batch insert of records with their local days: each is inserted
    /// at its place unless its key is already stored (duplicates in the
    /// batch or against loaded records are rejected), then the date
    /// separators are resynced once. Returns how many records were
    /// inserted.
    pub fn insert_batch_dated(&mut self, batch: Vec<(MsgRecord, Timestamp)>) -> (n: usize)
        requires
            old(self).wf(),
            old(self).keeps_separators() ==> seps_zero(old(self)@) && seps_zero(batch_view(batch@)),
        ensures
            final(self).wf(),
            final(self).keeps_separators() == old(self).keeps_separators(),
            n == batch_count(old(self)@, batch_view(batch@)),
            old(self).keeps_separators() ==> forall|x: EntryView| #[trigger] final(self)@.contains(x) <==> resynced(
                batch_fold(old(self)@, batch_view(batch@)),
                x,
            ),
            !old(self).keeps_separators() ==> final(self)@ == batch_fold(old(self)@, batch_view(batch@)),
            final(self).id_index() == index_fold(old(self).id_index(), old(self)@, batch_view(batch@)),
            old(self).keeps_separators() ==> seps_zero(final(self)@),
    {
        let ghost bv = batch_view(batch@);
        let ghost s0 = self@;
        // Reverse, so that popping yields the batch in order.
        let mut batch = batch;
        let mut rev: Vec<(MsgRecord, Timestamp)> = Vec::new();
        let ghost b0 = batch@;
        while batch.len() > 0
            invariant
                b0.len() == batch@.len() + rev@.len(),
                forall|j: int| 0 <= j < batch@.len() ==> #[trigger] batch@[j] == b0[j],
                forall|j: int| 0 <= j < rev@.len() ==> #[trigger] rev@[j] == b0[b0.len() - 1 - j],
            decreases batch@.len(),
        {
            let item = batch.pop().unwrap();
            rev.push(item);
        }
        let total = rev.len();
        let mut count: usize = 0;
        let mut i: usize = 0;
        assert(bv.take(0) =~= Seq::<EntryView>::empty());
        while rev.len() > 0
            invariant
                total == b0.len(),
                bv == batch_view(b0),
                rev@.len() + i == total,
                forall|j: int| 0 <= j < rev@.len() ==> #[trigger] rev@[j] == b0[b0.len() - 1 - j],
                self.wf(),
                self.separators == old(self).keeps_separators(),
                self.separators ==> seps_zero(self@) && seps_zero(bv),
                self@ == batch_fold(s0, bv.take(i as int)),
                self.id_index() == index_fold(old(self).id_index(), s0, bv.take(i as int)),
                count == batch_count(s0, bv.take(i as int)),
                count <= i,
            decreases rev@.len(),
        {
            let (rec, day) = rev.pop().unwrap();
            let ghost e = entry_of(rec, day);
            let ghost before = self@;
            proof {
                assert(e == bv[i as int]);
                assert(bv.take(i + 1).drop_last() =~= bv.take(i as int));
                assert(bv.take(i + 1).last() == e);
                assert(rec.id.0@.len() == 32);
                lemma_insert_pos(before, key(e));
                if self.separators {
                    assert(e.msg_type.spec_is_derived() ==> e.id == zero_id());
                    lemma_seps_zero_insert(before, insert_pos(before, key(e)), e);
                }
            }
            if self.insert_entry(rec, day).is_some() {
                count = count + 1;
            }
            i = i + 1;
        }
        assert(bv.take(total as int) =~= bv);
        let ghost bf = self@;
        self.resync_separators();
        proof {
            if self.separators {
                let f = self@;
                assert forall|j: int| 0 <= j < f.len() && (#[trigger] f[j]).msg_type.spec_is_derived() implies f[j].id
                    == zero_id() by {
                    assert(f.contains(f[j]));
                    assert(resynced(bf, f[j]));
                    if bf.contains(f[j]) {
                        let k = choose|k: int| 0 <= k < bf.len() && bf[k] == f[j];
                        assert(bf[k].msg_type.spec_is_derived());
                    }
                }
            }
        }
        count
    }

    /// Batch insert (see [`MsgBuffer::insert_batch_dated`]; each day is
    /// the local midnight of the record's timestamp). Returns how many
    /// records were inserted.
    pub fn insert_batch(&mut self, batch: Vec<MsgRecord>) -> (n: usize)
        requires
            old(self).wf(),
            old(self).keeps_separators() ==> seps_zero(old(self)@) && forall|j: int|
                0 <= j < batch@.len() ==> if (#[trigger] batch@[j]).msg_type.spec_is_derived() {
                    batch@[j].id.0@ == zero_id()
                } else {
                    local_date_defined(batch@[j].ts)
                },
        ensures
            final(self).wf(),
            final(self).keeps_separators() == old(self).keeps_separators(),
            exists|days: Seq<Timestamp>|
                {
                    &&& days.len() == batch@.len()
                    &&& forall|j: int| 0 <= j < days.len() ==> filed_day(#[trigger] batch@[j], days[j], old(self).keeps_separators())
                    &&& n == batch_count(old(self)@, #[trigger] dated_view(batch@, days))
                    &&& old(self).keeps_separators() ==> forall|x: EntryView| #[trigger] final(self)@.contains(x)
                        <==> resynced(batch_fold(old(self)@, dated_view(batch@, days)), x)
                    &&& !old(self).keeps_separators() ==> final(self)@ == batch_fold(old(self)@, dated_view(batch@, days))
                    &&& final(self).id_index() == index_fold(old(self).id_index(), old(self)@, dated_view(batch@, days))
                },
            old(self).keeps_separators() ==> seps_zero(final(self)@),
    {
        let seps = self.separators;
        let mut batch = batch;
        let ghost b0 = batch@;
        let mut rev: Vec<MsgRecord> = Vec::new();
        while batch.len() > 0
            invariant
                b0.len() == batch@.len() + rev@.len(),
                forall|j: int| 0 <= j < batch@.len() ==> #[trigger] batch@[j] == b0[j],
                forall|j: int| 0 <= j < rev@.len() ==> #[trigger] rev@[j] == b0[b0.len() - 1 - j],
            decreases batch@.len(),
        {
            let item = batch.pop().unwrap();
            rev.push(item);
        }
        let mut dated: Vec<(MsgRecord, Timestamp)> = Vec::new();
        let ghost mut days: Seq<Timestamp> = Seq::empty();
        while rev.len() > 0
            invariant
                b0.len() == rev@.len() + dated@.len(),
                forall|j: int| 0 <= j < rev@.len() ==> #[trigger] rev@[j] == b0[b0.len() - 1 - j],
                days.len() == dated@.len(),
                forall|j: int| 0 <= j < dated@.len() ==> (#[trigger] dated@[j]) == (b0[j], days[j]),
                forall|j: int| 0 <= j < days.len() ==> filed_day(#[trigger] b0[j], days[j], seps),
                seps == old(self).keeps_separators(),
                seps ==> forall|j: int|
                    0 <= j < b0.len() ==> if (#[trigger] b0[j]).msg_type.spec_is_derived() {
                        b0[j].id.0@ == zero_id()
                    } else {
                        local_date_defined(b0[j].ts)
                    },
            decreases rev@.len(),
        {
            let rec = rev.pop().unwrap();
            let ghost j = dated@.len() as int;
            assert(rec == b0[j]);
            let day = if seps && !rec.msg_type.is_derived() {
                Self::midnight_of(rec.ts)
            } else {
                rec.ts
            };
            dated.push((rec, day));
            proof {
                days = days.push(day);
            }
        }
        proof {
            let bv = batch_view(dated@);
            assert(bv =~= dated_view(b0, days));
            if seps {
                assert forall|j: int| 0 <= j < bv.len() && (#[trigger] bv[j]).msg_type.spec_is_derived() implies bv[j].id
                    == zero_id() by {
                    assert(dated@[j] == (b0[j], days[j]));
                }
            }
        }
        let n = self.insert_batch_dated(dated);
        proof {
            assert(dated_view(b0, days).len() == b0.len());
        }
        n
    }

    /// Drop every record.
    pub fn clear(&mut self)
        ensures
            final(self).wf(),
            final(self)@ == Seq::<EntryView>::empty(),
            final(self).id_index() == Map::<Seq<u8>, (Timestamp, Seq<u8>)>::empty(),
            final(self).keeps_separators() == old(self).keeps_separators(),
    {
        self.entries.clear();
        assert(self@ =~= Seq::<EntryView>::empty());
        assert(self.id_index() =~= Map::<Seq<u8>, (Timestamp, Seq<u8>)>::empty());
    }
}

} // verus!
