//! File messages: derived from privmsgs that carry a fud URL, stored
//! under a synthetic id that sorts right below the source line.

use vstd::prelude::*;
use vstd::utf8::{encode_utf8, is_char_boundary};

use crate::codec::{CorruptEntry, CorruptKind, MessageId, MsgRecord, MsgType, corrupt};
use crate::privmsg::{run_starts_at, url_parse_parts, url_parts, white_space_from};
use crate::strs::{substr_bytes, utf8_len};
use crate::wire::{de_str, parse_str, ser_str, str_wire};

verus! {

/// The scheme prefix of a fud URL.
pub open spec fn fud_prefix() -> Seq<char> {
    seq!['f', 'u', 'd', ':', '/', '/']
}

/// Whether a match of the regex `fud://[^\s]+` starts at character `i`:
/// `fud://` followed by at least one character that is not whitespace.
pub open spec fn fud_starts_at(t: Seq<char>, i: int) -> bool {
    run_starts_at(t, i, fud_prefix())
}

/// The first character index at or after `i` where a match starts.
pub open spec fn fud_start_from(t: Seq<char>, i: int) -> Option<int>
    decreases t.len() - i,
{
    if i < 0 || i + 7 > t.len() {
        None
    } else if fud_starts_at(t, i) {
        Some(i)
    } else {
        fud_start_from(t, i + 1)
    }
}

/// The byte span of the first match of the regex `fud://[^\s]+` in a
/// text: the leftmost start, and the greedy run of non-whitespace after
/// `fud://` up to the next whitespace or the end.
pub open spec fn fud_match_span(t: Seq<char>) -> Option<(usize, usize)> {
    match fud_start_from(t, 0) {
        None => None,
        Some(i) => Some(
            (utf8_len(t.take(i)) as usize, utf8_len(t.take(white_space_from(t, i + 6))) as usize),
        ),
    }
}

/// The first match of the regex `fud://[^\s]+` in `text`, found with
/// `regex::Regex::find`, as `(start, end)` byte offsets. The regex crate
/// matches leftmost-first, `\s` being Unicode `White_Space`, and `+` is
/// greedy, which is [`fud_match_span`]; per its documentation the offsets
/// lie on character boundaries within the text.
#[verifier::external_body]
fn first_fud_match(text: &str) -> (r: Option<(usize, usize)>)
    ensures
        r == fud_match_span(text@),
        r matches Some((a, b)) ==> a <= b <= utf8_len(text@) && is_char_boundary(encode_utf8(text@), a as int)
            && is_char_boundary(encode_utf8(text@), b as int),
{
    let re = regex::Regex::new(r"fud://[^\s]+").unwrap();
    re.find(text).map(|m| (m.start(), m.end()))
}

/// The 32-byte blake3 digest of some bytes.
pub uninterp spec fn blake3_digest(data: Seq<u8>) -> Seq<u8>;

/// Hashes `data` with `blake3::hash`, returning the digest bytes.
#[verifier::external_body]
fn blake3_hash(data: &[u8; 32]) -> (r: [u8; 32])
    ensures
        r@ == blake3_digest(data@),
{
    *blake3::hash(data).as_bytes()
}

/// The characters of the text between two byte offsets.
pub open spec fn text_between(text: Seq<char>, a: int, b: int) -> Seq<char> {
    vstd::utf8::decode_utf8(encode_utf8(text).subrange(a, b))
}

/// The URL a privmsg body links a file with: its first fud URL match,
/// when it parses; the URL is given by its serialization.
pub open spec fn file_url_of(text: Seq<char>) -> Option<Seq<char>> {
    match fud_match_span(text) {
        None => None,
        Some((a, b)) => match url_parts(text_between(text, a as int, b as int)) {
            None => None,
            Some((_, serialized)) => Some(serialized),
        },
    }
}

/// Extract the first fud URL from a privmsg body, if any.
pub fn get_file_url(text: &str) -> (r: Option<String>)
    ensures
        match file_url_of(text@) {
            None => r is None,
            Some(u) => r is Some && r->0@ == u,
        },
{
    let (a, b) = match first_fud_match(text) {
        Some(span) => span,
        None => {
            return None;
        },
    };
    let m = substr_bytes(text, a, b);
    match url_parse_parts(m) {
        Some((_, serialized)) => Some(serialized),
        None => None,
    }
}

/// The synthetic id of a file message derived from a privmsg id: the
/// first eight digest bytes with the top byte forced to `0xff`, then zeros.
pub open spec fn derived_id_bytes(source: Seq<u8>) -> Seq<u8> {
    Seq::new(32, |i: int| if i == 0 { 0xffu8 } else if i < 8 { blake3_digest(source)[i] } else { 0u8 })
}

/// The synthetic id of a file message derived from its privmsg: a
/// hash of the source id with the top byte forced high, so the box
/// sorts directly below its source line.
pub fn derived_file_id(source: &MessageId) -> (id: MessageId)
    ensures
        id.0@ == derived_id_bytes(source.0@),
{
    let hash = blake3_hash(&source.0);
    let mut id = [0u8; 32];
    id[0] = 0xff;
    let mut i: usize = 1;
    while i < 8
        invariant
            1 <= i <= 8,
            id@.len() == 32,
            hash@ == blake3_digest(source.0@),
            id@[0] == 0xff,
            forall|j: int| 1 <= j < i ==> id@[j] == hash@[j],
            forall|j: int| 8 <= j < 32 ==> id@[j] == 0,
        decreases 8 - i,
    {
        id[i] = hash[i];
        i = i + 1;
    }
    assert(id@ =~= derived_id_bytes(source.0@));
    MessageId(id)
}

/// `a` sorts before `b` byte by byte.
pub open spec fn bytes_lt(a: Seq<u8>, b: Seq<u8>) -> bool {
    exists|k: int| 0 <= k < a.len() && k < b.len() && a.take(k) == b.take(k) && a[k] < b[k]
}

/// A derived file id sorts after its source id whenever the source's top
/// byte is not `0xff` (never for message hashes' ids in practice).
pub proof fn lemma_derived_id_sorts_after(source: Seq<u8>)
    requires
        source.len() == 32,
        source[0] < 0xff,
    ensures
        bytes_lt(source, derived_id_bytes(source)),
{
    let d = derived_id_bytes(source);
    assert(source.take(0) =~= d.take(0));
    assert(source.take(0) == d.take(0) && source[0] < d[0]);
}

/// Encode a file message payload: the fud URL.
pub fn encode_filemsg_payload(url: &str) -> (payload: Vec<u8>)
    ensures
        payload@ == str_wire(url@),
{
    ser_str(url)
}

/// Decode a file message payload back into its URL, which must parse.
pub fn decode_filemsg_payload(payload: &[u8], ts: u64, id: &MessageId) -> (r: Result<String, CorruptEntry>)
    ensures
        match parse_str(payload@) {
            Some((s, _)) => match url_parts(s) {
                Some((_, serialized)) => r matches Ok(u) && u@ == serialized,
                None => r == Err::<String, CorruptEntry>(corrupt(ts, *id, CorruptKind::BadFilemsgUrl)),
            },
            None => r == Err::<String, CorruptEntry>(corrupt(ts, *id, CorruptKind::BadFilemsgUrl)),
        },
{
    let (url, _) = match de_str(payload) {
        Some(v) => v,
        None => {
            return Err(CorruptEntry { ts, id: *id, kind: CorruptKind::BadFilemsgUrl });
        },
    };
    match url_parse_parts(url.as_str()) {
        Some((_, serialized)) => Ok(serialized),
        None => Err(CorruptEntry { ts, id: *id, kind: CorruptKind::BadFilemsgUrl }),
    }
}

/// Build the derived filemsg record for a privmsg record, if its text
/// carries a fud URL: same timestamp, derived id, the URL as payload.
pub fn derive_filemsg(privmsg: &MsgRecord, text: &str) -> (r: Option<MsgRecord>)
    ensures
        match file_url_of(text@) {
            None => r is None,
            Some(u) => r matches Some(rec) && rec.ts == privmsg.ts && rec.id.0@ == derived_id_bytes(
                privmsg.id.0@,
            ) && rec.msg_type == MsgType::FileMsg && rec.payload@ == str_wire(u),
        },
{
    let url = match get_file_url(text) {
        Some(u) => u,
        None => {
            return None;
        },
    };
    Some(MsgRecord {
        ts: privmsg.ts,
        id: derived_file_id(&privmsg.id),
        msg_type: MsgType::FileMsg,
        payload: encode_filemsg_payload(url.as_str()),
    })
}

} // verus!
