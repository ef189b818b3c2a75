//! The chat log storage wire format.
//!
//! kv key: `[u64 BE ts][32-byte msg id]`; kv value: `[u8 tag][payload]`.

use vstd::prelude::*;
use vstd::slice::{slice_subrange, slice_to_vec};

use crate::wire::{
    bool_wire, de_bool, de_bytes32, de_str, de_u64, lemma_bool_roundtrip, lemma_bytes32_roundtrip,
    lemma_str_roundtrip, lemma_u64_roundtrip, parse_bool, parse_bytes32, parse_str, parse_u64,
    ser_bool, ser_bytes32, ser_str, ser_u64, str_wire, u64_wire,
};
use crate::strs::join_strs;
use vstd::utf8::encode_utf8;

verus! {

/// Unix-millisecond message timestamps.
pub type Timestamp = u64;

/// Serialized kv key length: 8-byte timestamp + 32-byte msg id.
pub const KEY_LEN: usize = 40;

/// A message's unique identity (32 bytes of message hash).
#[derive(Debug, Clone, Copy, PartialEq, Eq)]
pub struct MessageId(pub [u8; 32]);

/// Whether two message ids are equal.
pub(crate) fn id_eq(a: &MessageId, b: &MessageId) -> (r: bool)
    ensures
        r == (a == b),
        r == (a.0@ == b.0@),
{
    broadcast use vstd::array::group_array_axioms;

    let mut i: usize = 0;
    while i < 32
        invariant
            0 <= i <= 32,
            forall|j: int| 0 <= j < i ==> a.0@[j] == b.0@[j],
        decreases 32 - i,
    {
        if a.0[i] != b.0[i] {
            return false;
        }
        i = i + 1;
    }
    assert(a.0@ =~= b.0@);
    assert(a.0 =~= b.0);
    true
}

/// Byte `i` (0 = most significant) of the big-endian form of `v`.
pub open spec fn be_byte(v: u64, i: int) -> u8 {
    ((v >> ((7 - i) * 8) as u64) & 0xff) as u8
}

/// The 8-byte big-endian form of `v`.
pub open spec fn be_bytes(v: u64) -> Seq<u8> {
    Seq::new(8, |i: int| be_byte(v, i))
}

/// The serialized kv key of `(ts, id)`.
pub open spec fn key_bytes(ts: u64, id: MessageId) -> Seq<u8> {
    be_bytes(ts) + id.0@
}

/// Encode an entry key: `[u64 BE ts][msg id]`.
pub fn encode_key(ts: Timestamp, id: &MessageId) -> (key: [u8; 40])
    ensures
        key@ == key_bytes(ts, *id),
{
    let mut key = [0u8; 40];
    let mut i: usize = 0;
    while i < 8
        invariant
            0 <= i <= 8,
            key@.len() == 40,
            forall|j: int| 0 <= j < i ==> key@[j] == be_byte(ts, j),
        decreases 8 - i,
    {
        let shift: u64 = ((7 - i) * 8) as u64;
        key[i] = ((ts >> shift) & 0xff) as u8;
        i += 1;
    }
    while i < 40
        invariant
            8 <= i <= 40,
            key@.len() == 40,
            forall|j: int| 0 <= j < 8 ==> key@[j] == be_byte(ts, j),
            forall|j: int| 8 <= j < i ==> key@[j] == id.0@[j - 8],
        decreases 40 - i,
    {
        key[i] = id.0[i - 8];
        i += 1;
    }
    assert(key@ =~= key_bytes(ts, *id));
    key
}

/// Every message type. The wire tag is the declaration order: 0, 1, 2.
#[derive(Debug, Clone, Copy, PartialEq, Eq, Hash, Structural)]
pub enum MsgType {
    PrivMsg,
    FileMsg,
    DateMsg,
}

/// The wire tag of a message type.
pub open spec fn tag_of(t: MsgType) -> u8 {
    match t {
        MsgType::PrivMsg => 0,
        MsgType::FileMsg => 1,
        MsgType::DateMsg => 2,
    }
}

/// The message type a wire tag stands for, if any.
pub open spec fn type_of_tag(tag: u8) -> Option<MsgType> {
    if tag == 0 {
        Some(MsgType::PrivMsg)
    } else if tag == 1 {
        Some(MsgType::FileMsg)
    } else if tag == 2 {
        Some(MsgType::DateMsg)
    } else {
        None
    }
}

impl MsgType {
    /// Whether records of this type are derived from other records rather
    /// than persisted (date separators). Derived records never enter the
    /// id index: their synthetic ids are not unique.
    pub open spec fn spec_is_derived(&self) -> bool {
        self is DateMsg
    }

    #[verifier::when_used_as_spec(spec_is_derived)]
    pub fn is_derived(&self) -> (r: bool)
        ensures
            r == self.spec_is_derived(),
    {
        match self {
            MsgType::DateMsg => true,
            _ => false,
        }
    }

    /// The wire tag of this type (its discriminant).
    pub fn wire_tag(&self) -> (r: u8)
        ensures
            r == tag_of(*self),
    {
        match self {
            MsgType::PrivMsg => 0,
            MsgType::FileMsg => 1,
            MsgType::DateMsg => 2,
        }
    }
}

/// Decode a wire tag. Unknown tags are corrupt data: callers check them
/// first, or use [`try_msg_type_from_u8`].
pub fn msg_type_from_u8(tag: u8) -> (t: MsgType)
    requires
        tag <= 2,
    ensures
        type_of_tag(tag) == Some(t),
        tag_of(t) == tag,
{
    if tag == 0 {
        MsgType::PrivMsg
    } else if tag == 1 {
        MsgType::FileMsg
    } else {
        MsgType::DateMsg
    }
}

/// Decode a wire tag, `None` for an unknown one.
pub fn try_msg_type_from_u8(tag: u8) -> (t: Option<MsgType>)
    ensures
        t == type_of_tag(tag),
{
    if tag <= 2 {
        Some(msg_type_from_u8(tag))
    } else {
        None
    }
}

/// Decode an entry key back into its `(ts, msg_id)` composite. The key
/// must be [`KEY_LEN`] bytes.
pub fn decode_key(key: &[u8]) -> (r: (Timestamp, MessageId))
    requires
        key@.len() == KEY_LEN,
    ensures
        key_bytes(r.0, r.1) == key@,
{
    let k0 = key[0] as u64;
    let k1 = key[1] as u64;
    let k2 = key[2] as u64;
    let k3 = key[3] as u64;
    let k4 = key[4] as u64;
    let k5 = key[5] as u64;
    let k6 = key[6] as u64;
    let k7 = key[7] as u64;
    let ts: u64 = (k0 << 56u64) | (k1 << 48u64) | (k2 << 40u64) | (k3 << 32u64) | (k4 << 24u64)
        | (k5 << 16u64) | (k6 << 8u64) | k7;
    assert(((ts >> 56u64) & 0xff) as u8 == k0 && ((ts >> 48u64) & 0xff) as u8 == k1 && ((ts
        >> 40u64) & 0xff) as u8 == k2 && ((ts >> 32u64) & 0xff) as u8 == k3 && ((ts >> 24u64)
        & 0xff) as u8 == k4 && ((ts >> 16u64) & 0xff) as u8 == k5 && ((ts >> 8u64) & 0xff) as u8
        == k6 && ((ts >> 0u64) & 0xff) as u8 == k7) by (bit_vector)
        requires
            k0 < 256 && k1 < 256 && k2 < 256 && k3 < 256 && k4 < 256 && k5 < 256 && k6 < 256 && k7
                < 256,
            ts == (k0 << 56u64) | (k1 << 48u64) | (k2 << 40u64) | (k3 << 32u64) | (k4 << 24u64)
                | (k5 << 16u64) | (k6 << 8u64) | k7,
    ;
    let mut id = [0u8; 32];
    let mut j: usize = 0;
    while j < 32
        invariant
            0 <= j <= 32,
            key@.len() == 40,
            id@.len() == 32,
            forall|k: int| 0 <= k < j ==> id@[k] == key@[k + 8],
        decreases 32 - j,
    {
        id[j] = key[j + 8];
        j += 1;
    }
    assert(key_bytes(ts, MessageId(id)) =~= key@);
    (ts, MessageId(id))
}

/// One loaded message as the store keeps it. Per-type state lives in
/// `payload`, owned by the message type.
#[derive(Debug, Clone)]
pub struct MsgRecord {
    /// Unix-millisecond send time; sorts messages into display order.
    pub ts: Timestamp,
    /// Unique identity; the zero id marks derived records.
    pub id: MessageId,
    /// The message's type; decides how `payload` is interpreted.
    pub msg_type: MsgType,
    /// Type-owned encoded state.
    pub payload: Vec<u8>,
}

impl MsgRecord {
    /// A record with no payload.
    pub fn new(ts: Timestamp, id: MessageId, msg_type: MsgType) -> (r: Self)
        ensures
            r.ts == ts,
            r.id == id,
            r.msg_type == msg_type,
            r.payload@ == Seq::<u8>::empty(),
    {
        MsgRecord { ts, id, msg_type, payload: Vec::new() }
    }
}

/// Why a stored entry could not be decoded.
#[derive(Debug, Clone, Copy, PartialEq, Eq, Structural)]
pub enum CorruptKind {
    /// The value has no tag byte.
    EmptyValue,
    /// The tag byte names no message type.
    UnknownTag(u8),
    /// File messages are derived and never stored.
    StoredFileMsg,
    BadPrivmsgNick,
    BadPrivmsgText,
    BadPrivmsgConfirmedFlag,
    BadDatemsgMidnight,
    BadFilemsgUrl,
}

/// A corrupt stored entry, identified by its key.
#[derive(Debug, Clone, Copy, PartialEq, Eq)]
pub struct CorruptEntry {
    pub ts: Timestamp,
    pub id: MessageId,
    pub kind: CorruptKind,
}

/// The serialized kv value: `[tag][payload]`.
pub open spec fn value_bytes(t: MsgType, payload: Seq<u8>) -> Seq<u8> {
    seq![tag_of(t)] + payload
}

/// Encode an entry value: `[tag][type-owned payload]`.
pub fn encode_value(msg_type: MsgType, payload: &[u8]) -> (val: Vec<u8>)
    ensures
        val@ == value_bytes(msg_type, payload@),
{
    let mut val: Vec<u8> = Vec::new();
    val.push(msg_type.wire_tag());
    val.extend_from_slice(payload);
    assert(val@ =~= value_bytes(msg_type, payload@));
    val
}

/// The privmsg payload: `[nick][text][confirmed]`.
pub open spec fn privmsg_wire(nick: Seq<char>, text: Seq<char>, confirmed: bool) -> Seq<u8> {
    str_wire(nick) + str_wire(text) + bool_wire(confirmed)
}

/// The fields a privmsg payload decodes to, if it does.
pub open spec fn privmsg_fields(b: Seq<u8>) -> Option<(Seq<char>, Seq<char>, bool)> {
    match parse_str(b) {
        None => None,
        Some((nick, k1)) => match parse_str(b.skip(k1 as int)) {
            None => None,
            Some((text, k2)) => match parse_bool(b.skip((k1 + k2) as int)) {
                None => None,
                Some((confirmed, _)) => Some((nick, text, confirmed)),
            },
        },
    }
}

/// Which privmsg field is the first one that does not decode.
pub open spec fn privmsg_failure(b: Seq<u8>) -> CorruptKind {
    match parse_str(b) {
        None => CorruptKind::BadPrivmsgNick,
        Some((_, k1)) => match parse_str(b.skip(k1 as int)) {
            None => CorruptKind::BadPrivmsgText,
            Some(_) => CorruptKind::BadPrivmsgConfirmedFlag,
        },
    }
}

/// Whether `k` reports a privmsg field that did not decode.
pub open spec fn is_privmsg_field_kind(k: CorruptKind) -> bool {
    k is BadPrivmsgNick || k is BadPrivmsgText || k is BadPrivmsgConfirmedFlag
}

/// Encode the privmsg payload: `[nick][text][confirmed]`.
pub fn encode_privmsg_payload(nick: &str, text: &str, confirmed: bool) -> (payload: Vec<u8>)
    ensures
        payload@ == privmsg_wire(nick@, text@, confirmed),
{
    let mut payload = ser_str(nick);
    let mut t = ser_str(text);
    let mut c = ser_bool(confirmed);
    payload.append(&mut t);
    payload.append(&mut c);
    payload
}

/// Decode the privmsg payload back into `(nick, text, confirmed)`. A
/// payload that does not decode (a truncated one among them) is never
/// misread: the error names the entry and the first field that failed,
/// and the caller decides what a corrupt entry means: the error stands
/// for the stop on corrupt data, which the chat view makes by panicking
/// with the error's description.
pub fn decode_privmsg_payload(payload: &[u8], ts: Timestamp, id: &MessageId) -> (r: Result<
    (String, String, bool),
    CorruptEntry,
>)
    ensures
        match privmsg_fields(payload@) {
            Some((n, t, c)) => r matches Ok((nick, text, confirmed)) && nick@ == n && text@ == t && confirmed == c,
            None => r == Err::<(String, String, bool), CorruptEntry>(corrupt(ts, *id, privmsg_failure(payload@))),
        },
{
    let (nick, k1) = match de_str(payload) {
        Some(v) => v,
        None => {
            return Err(CorruptEntry { ts, id: *id, kind: CorruptKind::BadPrivmsgNick });
        },
    };
    let rest = slice_subrange(payload, k1, payload.len());
    assert(rest@ =~= payload@.skip(k1 as int));
    let (text, k2) = match de_str(rest) {
        Some(v) => v,
        None => {
            return Err(CorruptEntry { ts, id: *id, kind: CorruptKind::BadPrivmsgText });
        },
    };
    let rest2 = slice_subrange(rest, k2, rest.len());
    assert(rest2@ =~= payload@.skip(k1 + k2));
    match de_bool(rest2) {
        Some((confirmed, _)) => Ok((nick, text, confirmed)),
        None => Err(CorruptEntry { ts, id: *id, kind: CorruptKind::BadPrivmsgConfirmedFlag }),
    }
}

/// Encode the datemsg payload: the separator day's local-midnight ts.
pub fn encode_datemsg_payload(midnight: Timestamp) -> (payload: Vec<u8>)
    ensures
        payload@ == u64_wire(midnight),
{
    ser_u64(midnight)
}

/// Decode the datemsg payload back into its midnight timestamp.
pub fn decode_datemsg_payload(payload: &[u8], ts: Timestamp, id: &MessageId) -> (r: Result<
    Timestamp,
    CorruptEntry,
>)
    ensures
        match parse_u64(payload@) {
            Some((m, _)) => r is Ok && r->Ok_0 == m,
            None => r is Err && r->Err_0 == corrupt(ts, *id, CorruptKind::BadDatemsgMidnight),
        },
{
    match de_u64(payload) {
        Some((m, _)) => Ok(m),
        None => Err(CorruptEntry { ts, id: *id, kind: CorruptKind::BadDatemsgMidnight }),
    }
}

/// How a stored value decodes: the record's type and payload, or why it
/// is corrupt.
pub open spec fn value_outcome(val: Seq<u8>) -> Result<(MsgType, Seq<u8>), CorruptKind> {
    if val.len() == 0 {
        Err(CorruptKind::EmptyValue)
    } else {
        let payload = val.skip(1);
        match type_of_tag(val[0]) {
            None => Err(CorruptKind::UnknownTag(val[0])),
            Some(MsgType::FileMsg) => Err(CorruptKind::StoredFileMsg),
            Some(MsgType::PrivMsg) => if privmsg_fields(payload) is Some {
                Ok((MsgType::PrivMsg, payload))
            } else {
                Err(privmsg_failure(payload))
            },
            Some(MsgType::DateMsg) => if parse_u64(payload) is Some {
                Ok((MsgType::DateMsg, payload))
            } else {
                Err(CorruptKind::BadDatemsgMidnight)
            },
        }
    }
}

/// The error value for a corrupt entry.
pub open spec fn corrupt(ts: Timestamp, id: MessageId, kind: CorruptKind) -> CorruptEntry {
    CorruptEntry { ts, id, kind }
}

/// What [`decode_value`] gives for `val` under key `(ts, id)`: the record,
/// or the entry's corruption.
pub open spec fn decoded_value(
    r: Result<MsgRecord, CorruptEntry>,
    val: Seq<u8>,
    ts: Timestamp,
    id: MessageId,
) -> bool {
    match value_outcome(val) {
        Ok((t, payload)) => r matches Ok(rec) && rec.ts == ts && rec.id == id && rec.msg_type == t
            && rec.payload@ == payload,
        Err(kind) => r == Err::<MsgRecord, CorruptEntry>(corrupt(ts, id, kind)),
    }
}

/// Decode an entry value into a record. Corrupt data is never skipped
/// or misread: an empty value, an unknown tag, a stored file message or
/// a payload that does not decode comes back as an error identifying the
/// entry and the failure, for every input. The error stands for the stop
/// on corrupt data: the chat view makes it by panicking with the error's
/// description, so the inputs that give an error are exactly those the
/// chat view stops on.
pub fn decode_value(val: &[u8], ts: Timestamp, id: &MessageId) -> (r: Result<MsgRecord, CorruptEntry>)
    ensures
        decoded_value(r, val@, ts, *id),
{
    if val.len() == 0 {
        return Err(CorruptEntry { ts, id: *id, kind: CorruptKind::EmptyValue });
    }
    let tag = val[0];
    let payload = slice_subrange(val, 1, val.len());
    assert(payload@ =~= val@.skip(1));
    let msg_type = match try_msg_type_from_u8(tag) {
        Some(t) => t,
        None => {
            return Err(CorruptEntry { ts, id: *id, kind: CorruptKind::UnknownTag(tag) });
        },
    };
    match msg_type {
        MsgType::PrivMsg => {
            match decode_privmsg_payload(payload, ts, id) {
                Ok(_) => {},
                Err(e) => {
                    return Err(e);
                },
            }
        },
        MsgType::DateMsg => {
            match decode_datemsg_payload(payload, ts, id) {
                Ok(_) => {},
                Err(e) => {
                    return Err(e);
                },
            }
        },
        MsgType::FileMsg => {
            return Err(CorruptEntry { ts, id: *id, kind: CorruptKind::StoredFileMsg });
        },
    }
    Ok(MsgRecord { ts, id: *id, msg_type, payload: slice_to_vec(payload) })
}

/// Encoded `(ts, id, nick, text)` method-call data.
pub open spec fn insert_data_wire(ts: u64, id: Seq<u8>, nick: Seq<char>, text: Seq<char>) -> Seq<
    u8,
> {
    u64_wire(ts) + id + str_wire(nick) + str_wire(text)
}

/// The fields insert data decodes to, if it does.
pub open spec fn insert_data_fields(b: Seq<u8>) -> Option<(u64, Seq<u8>, Seq<char>, Seq<char>)> {
    match parse_u64(b) {
        None => None,
        Some((ts, k1)) => match parse_bytes32(b.skip(k1 as int)) {
            None => None,
            Some((id, k2)) => match parse_str(b.skip((k1 + k2) as int)) {
                None => None,
                Some((nick, k3)) => match parse_str(b.skip((k1 + k2 + k3) as int)) {
                    None => None,
                    Some((text, _)) => Some((ts, id, nick, text)),
                },
            },
        },
    }
}

/// Encode `(ts, id, nick, text)` for method-call data.
pub fn encode_insert_data(ts: Timestamp, id: &MessageId, nick: &str, text: &str) -> (data: Vec<
    u8,
>)
    ensures
        data@ == insert_data_wire(ts, id.0@, nick@, text@),
{
    let mut data = ser_u64(ts);
    let mut i = ser_bytes32(&id.0);
    let mut n = ser_str(nick);
    let mut t = ser_str(text);
    data.append(&mut i);
    data.append(&mut n);
    data.append(&mut t);
    data
}

/// Decode `(ts, id, nick, text)` method-call data.
pub fn decode_insert_data(data: &[u8]) -> (r: Option<(Timestamp, MessageId, String, String)>)
    ensures
        match insert_data_fields(data@) {
            Some((t, i, n, x)) => r matches Some((ts, id, nick, text)) && ts == t && id.0@ == i && nick@ == n
                && text@ == x,
            None => r is None,
        },
{
    let (ts, k1) = match de_u64(data) {
        Some(v) => v,
        None => {
            return None;
        },
    };
    let rest = slice_subrange(data, k1, data.len());
    assert(rest@ =~= data@.skip(k1 as int));
    let (id, k2) = match de_bytes32(rest) {
        Some(v) => v,
        None => {
            return None;
        },
    };
    let rest2 = slice_subrange(rest, k2, rest.len());
    assert(rest2@ =~= data@.skip(k1 + k2));
    let (nick, k3) = match de_str(rest2) {
        Some(v) => v,
        None => {
            return None;
        },
    };
    let rest3 = slice_subrange(rest2, k3, rest2.len());
    assert(rest3@ =~= data@.skip(k1 + k2 + k3));
    let (text, _) = match de_str(rest3) {
        Some(v) => v,
        None => {
            return None;
        },
    };
    Some((ts, MessageId(id), nick, text))
}

/// Keys decode back to what they encode: the key bytes determine the
/// timestamp and the id.
#[verifier::spinoff_prover]
pub proof fn lemma_key_bytes_injective(ts1: Timestamp, id1: MessageId, ts2: Timestamp, id2: MessageId)
    requires
        key_bytes(ts1, id1) == key_bytes(ts2, id2),
    ensures
        ts1 == ts2,
        id1 == id2,
{
    let k1 = key_bytes(ts1, id1);
    let k2 = key_bytes(ts2, id2);
    assert forall|i: int| 0 <= i < 8 implies be_byte(ts1, i) == be_byte(ts2, i) by {
        assert(k1[i] == k2[i]);
    }
    assert(id1.0@ =~= id2.0@) by {
        assert forall|i: int| 0 <= i < 32 implies id1.0@[i] == id2.0@[i] by {
            assert(k1[i + 8] == k2[i + 8]);
        }
    }
    let a0 = be_byte(ts1, 0);
    let a1 = be_byte(ts1, 1);
    let a2 = be_byte(ts1, 2);
    let a3 = be_byte(ts1, 3);
    let a4 = be_byte(ts1, 4);
    let a5 = be_byte(ts1, 5);
    let a6 = be_byte(ts1, 6);
    let a7 = be_byte(ts1, 7);
    assert(ts1 == ts2) by (bit_vector)
        requires
            a0 == ((ts1 >> 56u64) & 0xff) as u8 && a0 == ((ts2 >> 56u64) & 0xff) as u8,
            a1 == ((ts1 >> 48u64) & 0xff) as u8 && a1 == ((ts2 >> 48u64) & 0xff) as u8,
            a2 == ((ts1 >> 40u64) & 0xff) as u8 && a2 == ((ts2 >> 40u64) & 0xff) as u8,
            a3 == ((ts1 >> 32u64) & 0xff) as u8 && a3 == ((ts2 >> 32u64) & 0xff) as u8,
            a4 == ((ts1 >> 24u64) & 0xff) as u8 && a4 == ((ts2 >> 24u64) & 0xff) as u8,
            a5 == ((ts1 >> 16u64) & 0xff) as u8 && a5 == ((ts2 >> 16u64) & 0xff) as u8,
            a6 == ((ts1 >> 8u64) & 0xff) as u8 && a6 == ((ts2 >> 8u64) & 0xff) as u8,
            a7 == ((ts1 >> 0u64) & 0xff) as u8 && a7 == ((ts2 >> 0u64) & 0xff) as u8,
    ;
    vstd::array::axiom_array_ext_equal(id1.0, id2.0);
}

/// A privmsg payload decodes back to the fields it was encoded from, and
/// a value holding it decodes to a privmsg record carrying it.
pub proof fn lemma_privmsg_roundtrip(nick: Seq<char>, text: Seq<char>, confirmed: bool)
    requires
        encode_utf8(nick).len() <= u64::MAX,
        encode_utf8(text).len() <= u64::MAX,
    ensures
        privmsg_fields(privmsg_wire(nick, text, confirmed)) == Some((nick, text, confirmed)),
        value_outcome(value_bytes(MsgType::PrivMsg, privmsg_wire(nick, text, confirmed))) == Ok::<
            (MsgType, Seq<u8>),
            CorruptKind,
        >((MsgType::PrivMsg, privmsg_wire(nick, text, confirmed))),
{
    let b = privmsg_wire(nick, text, confirmed);
    let tail = str_wire(text) + bool_wire(confirmed);
    assert(b =~= str_wire(nick) + tail);
    lemma_str_roundtrip(nick, tail);
    let k1 = str_wire(nick).len();
    assert(b.skip(k1 as int) =~= str_wire(text) + bool_wire(confirmed));
    lemma_str_roundtrip(text, bool_wire(confirmed));
    let k2 = str_wire(text).len();
    assert(b.skip((k1 + k2) as int) =~= bool_wire(confirmed) + Seq::<u8>::empty());
    lemma_bool_roundtrip(confirmed, Seq::<u8>::empty());
    assert(value_bytes(MsgType::PrivMsg, b).skip(1) =~= b);
}

/// A datemsg payload decodes back to its midnight, and a value holding it
/// decodes to a datemsg record carrying it.
pub proof fn lemma_datemsg_roundtrip(midnight: Timestamp)
    ensures
        parse_u64(u64_wire(midnight)) == Some((midnight, 8nat)),
        value_outcome(value_bytes(MsgType::DateMsg, u64_wire(midnight))) == Ok::<
            (MsgType, Seq<u8>),
            CorruptKind,
        >((MsgType::DateMsg, u64_wire(midnight))),
{
    assert(u64_wire(midnight) =~= u64_wire(midnight) + Seq::<u8>::empty());
    lemma_u64_roundtrip(midnight, Seq::<u8>::empty());
    assert(value_bytes(MsgType::DateMsg, u64_wire(midnight)).skip(1) =~= u64_wire(midnight));
}

/// Insert data decodes back to the fields it was encoded from.
pub proof fn lemma_insert_data_roundtrip(ts: Timestamp, id: MessageId, nick: Seq<char>, text: Seq<char>)
    requires
        encode_utf8(nick).len() <= u64::MAX,
        encode_utf8(text).len() <= u64::MAX,
    ensures
        insert_data_fields(insert_data_wire(ts, id.0@, nick, text)) == Some((ts, id.0@, nick, text)),
{
    let b = insert_data_wire(ts, id.0@, nick, text);
    assert(b =~= u64_wire(ts) + (id.0@ + str_wire(nick) + str_wire(text)));
    lemma_u64_roundtrip(ts, id.0@ + str_wire(nick) + str_wire(text));
    assert(b.skip(8) =~= id.0@ + (str_wire(nick) + str_wire(text)));
    lemma_bytes32_roundtrip(id.0@, str_wire(nick) + str_wire(text));
    assert(b.skip(40) =~= str_wire(nick) + str_wire(text));
    lemma_str_roundtrip(nick, str_wire(text));
    let k3 = str_wire(nick).len();
    assert(b.skip((40 + k3) as int) =~= str_wire(text) + Seq::<u8>::empty());
    lemma_str_roundtrip(text, Seq::<u8>::empty());
}

/// The kv tree holding a channel's log: `{channel}__chat_tree_v2`. The
/// name carries the format's version, so a reader never opens a tree
/// written in an older format.
pub fn tree_name(channel: &str) -> (r: String)
    ensures
        r@ == channel@ + "__chat_tree_v2"@,
{
    join_strs(channel, "__chat_tree_v2")
}

} // verus!
