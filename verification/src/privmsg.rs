//! Private message text rules: CTCP ACTION framing, the rendered line
//! text and where its body starts, nick colors, URL runs and URL
//! sanitization.

use std::collections::hash_map::DefaultHasher;
use std::hash::Hasher;
use std::ops::Range;

use vstd::prelude::*;
use vstd::std_specs::hash::DefaultHasherAdditionalSpecFns;
use vstd::utf8::{encode_utf8, is_char_boundary};

use crate::codec::{
    corrupt, decode_privmsg_payload, privmsg_failure, privmsg_fields, CorruptEntry, MessageId, MsgRecord,
    Timestamp,
};
use crate::strs::{join_strs, lemma_encode_concat, owned, split_at_char, str_byte_len, utf8_len};

verus! {

/// The IRC CTCP ACTION framing prefix, `\x01ACTION `.
pub open spec fn ctcp_prefix() -> Seq<char> {
    seq!['\u{1}', 'A', 'C', 'T', 'I', 'O', 'N', ' ']
}

/// The action text of a CTCP ACTION-framed body: the text after the
/// prefix, with one trailing `\x01` removed when present.
pub open spec fn ctcp_action(t: Seq<char>) -> Option<Seq<char>> {
    if t.len() >= 8 && t.take(8) == ctcp_prefix() {
        let body = t.skip(8);
        if body.len() > 0 && body.last() == '\u{1}' {
            Some(body.drop_last())
        } else {
            Some(body)
        }
    } else {
        None
    }
}

/// The number of characters of `s`.
pub fn char_count(s: &str) -> (n: usize)
    ensures
        n == s@.len(),
{
    let total = str_byte_len(s);
    let mut n: usize = 0;
    for c in it: s.chars()
        invariant
            n == it.index@,
            it.index@ <= it.seq().len(),
            it.seq() == s@,
            total == utf8_len(s@),
    {
        proof {
            crate::strs::lemma_char_count_le_bytes(s@);
        }
        n = n + 1;
    }
    n
}

/// Whether the first characters of `s` are exactly `p`.
fn starts_with_chars(s: &str, p: &[char]) -> (r: bool)
    ensures
        r == (s@.len() >= p@.len() && s@.take(p@.len() as int) == p@),
{
    let mut i: usize = 0;
    let plen = p.len();
    let mut ok = true;
    for c in it: s.chars()
        invariant
            it.seq() == s@,
            plen == p@.len(),
            i == if it.index@ < plen { it.index@ as int } else { plen as int },
            ok == (forall|j: int| 0 <= j < i ==> s@[j] == p@[j]),
    {
        if i < plen {
            if c != p[i] {
                ok = false;
            }
            i = i + 1;
        }
    }
    proof {
        if ok && i == plen {
            assert(s@.take(plen as int) =~= p@);
        }
        if s@.len() >= plen && s@.take(plen as int) == p@ {
            assert forall|j: int| 0 <= j < plen implies s@[j] == p@[j] by {
                assert(s@.take(plen as int)[j] == s@[j]);
            }
        }
    }
    ok && i == plen
}

/// If `text` is a CTCP ACTION-framed message body, the stripped action
/// text. A single trailing `\x01` is stripped when present but is not
/// required, since bodies truncated by length limits may lose it.
pub fn parse_ctcp_action(text: &str) -> (r: Option<&str>)
    ensures
        match ctcp_action(text@) {
            Some(a) => r is Some && r->0@ == a,
            None => r is None,
        },
{
    let prefix = ['\u{1}', 'A', 'C', 'T', 'I', 'O', 'N', ' '];
    assert(prefix@ =~= ctcp_prefix());
    if !starts_with_chars(text, prefix.as_slice()) {
        return None;
    }
    let (_, body) = split_at_char(text, 8);
    let n = char_count(body);
    let delim = ['\u{1}'];
    assert(delim@ =~= seq!['\u{1}']);
    if n > 0 {
        let (init, last) = split_at_char(body, n - 1);
        if starts_with_chars(last, delim.as_slice()) {
            proof {
                assert(last@.take(1)[0] == last@[0]);
                assert(body@.last() == last@[0]);
            }
            return Some(init);
        }
        proof {
            assert(body@.last() == last@[0]);
            assert(last@.take(1) =~= seq![last@[0]]);
        }
    }
    Some(body)
}

/// The nick that marks a server notice.
pub open spec fn notice_nick() -> Seq<char> {
    seq!['N', 'O', 'T', 'I', 'C', 'E']
}

/// Whether `nick` is the server notice pseudo-nick.
pub fn is_notice(nick: &str) -> (r: bool)
    ensures
        r == (nick@ == notice_nick()),
{
    let notice = ['N', 'O', 'T', 'I', 'C', 'E'];
    assert(notice@ =~= notice_nick());
    let n = char_count(nick);
    if n != 6 {
        return false;
    }
    let r = starts_with_chars(nick, notice.as_slice());
    assert(nick@.take(6) =~= nick@);
    r
}

/// A decoded private message, as a message instance renders it.
pub struct PrivData {
    pub ts: Timestamp,
    pub id: MessageId,
    pub nick: String,
    pub text: String,
    pub confirmed: bool,
    /// IRC-style CTCP ACTION (`/me`); `text` holds the stripped body.
    pub is_action: bool,
    pub is_notice: bool,
    pub expanded: bool,
}

/// The rendered line text: a notice is its body alone, an action is
/// `* <nick> <body>`, anything else `<nick> <body>`.
pub open spec fn line_text_of(nick: Seq<char>, text: Seq<char>, is_action: bool, is_notice: bool) -> Seq<char> {
    if is_notice {
        text
    } else if is_action {
        seq!['*', ' '] + nick + seq![' '] + text
    } else {
        nick + seq![' '] + text
    }
}

/// The byte offset of the body within the rendered line text.
pub open spec fn body_offset_of(nick: Seq<char>, is_action: bool, is_notice: bool) -> int {
    if is_notice {
        0
    } else if is_action {
        utf8_len(nick) + 3int
    } else {
        utf8_len(nick) + 1int
    }
}

impl PrivData {
    pub open spec fn spec_line_text(&self) -> Seq<char> {
        line_text_of(self.nick@, self.text@, self.is_action, self.is_notice)
    }

    pub open spec fn spec_body_offset(&self) -> int {
        body_offset_of(self.nick@, self.is_action, self.is_notice)
    }

    /// The full rendered line text: NOTICE renders the body alone,
    /// normal messages render "<nick> <body>", actions
    /// "* <nick> <body>".
    pub fn line_text(&self) -> (r: String)
        ensures
            r@ == self.spec_line_text(),
    {
        if self.is_notice {
            return owned(self.text.as_str());
        }
        if self.is_action {
            let a = join_strs("* ", self.nick.as_str());
            let b = join_strs(a.as_str(), " ");
            let r = join_strs(b.as_str(), self.text.as_str());
            proof {
                reveal_strlit("* ");
                reveal_strlit(" ");
                assert(r@ =~= self.spec_line_text());
            }
            return r;
        }
        let b = join_strs(self.nick.as_str(), " ");
        let r = join_strs(b.as_str(), self.text.as_str());
        proof {
            reveal_strlit(" ");
            assert(r@ =~= self.spec_line_text());
        }
        r
    }

    /// Byte offset of the body within the rendered line text. This is
    /// also the end of the nick-colored prefix.
    pub fn body_offset(&self) -> (r: usize)
        requires
            utf8_len(self.nick@) + 3 <= usize::MAX,
        ensures
            r == self.spec_body_offset(),
    {
        if self.is_notice {
            return 0;
        }
        let n = str_byte_len(self.nick.as_str());
        if self.is_action {
            // "* " + nick + " "
            return n + 3;
        }
        n + 1
    }

    /// The instance data of a stored privmsg record: the decoded payload,
    /// with a CTCP ACTION body unwrapped and notices recognised. New
    /// instances start expanded.
    pub fn from_record(rec: &MsgRecord) -> (r: Result<PrivData, CorruptEntry>)
        ensures
            match privmsg_fields(rec.payload@) {
                Some((nick, text, confirmed)) => r matches Ok(d) && {
                    &&& d.ts == rec.ts
                    &&& d.id == rec.id
                    &&& d.expanded
                    &&& d.nick@ == nick
                    &&& d.confirmed == confirmed
                    &&& d.is_notice == (nick == notice_nick())
                    &&& d.is_action == ctcp_action(text) is Some
                    &&& d.text@ == match ctcp_action(text) {
                        Some(a) => a,
                        None => text,
                    }
                },
                None => r == Err::<PrivData, CorruptEntry>(
                    corrupt(rec.ts, rec.id, privmsg_failure(rec.payload@)),
                ),
            },
    {
        let (nick, text, confirmed) = match decode_privmsg_payload(rec.payload.as_slice(), rec.ts, &rec.id) {
            Ok(v) => v,
            Err(e) => {
                return Err(e);
            },
        };
        let (is_action, text) = match parse_ctcp_action(text.as_str()) {
            Some(action) => (true, owned(action)),
            None => (false, text),
        };
        let is_notice = is_notice(nick.as_str());
        Ok(PrivData { ts: rec.ts, id: rec.id, nick, text, confirmed, is_action, is_notice, expanded: true })
    }
}

/// The body sits at `body_offset` bytes into the rendered line text, after
/// a prefix that is empty for notices and otherwise ends with a space.
pub proof fn lemma_body_offset_locates_body(nick: Seq<char>, text: Seq<char>, is_action: bool, is_notice: bool)
    ensures
        ({
            let line = line_text_of(nick, text, is_action, is_notice);
            let prefix = line.take(line.len() - text.len());
            &&& line == prefix + text
            &&& utf8_len(prefix) == body_offset_of(nick, is_action, is_notice)
            &&& utf8_len(line) == body_offset_of(nick, is_action, is_notice) + utf8_len(text)
            &&& encode_utf8(line).skip(body_offset_of(nick, is_action, is_notice)) == encode_utf8(text)
            &&& is_notice ==> prefix == Seq::<char>::empty()
            &&& !is_notice && is_action ==> prefix == seq!['*', ' '] + nick + seq![' ']
            &&& !is_notice && !is_action ==> prefix == nick + seq![' ']
        }),
{
    let line = line_text_of(nick, text, is_action, is_notice);
    let prefix = line.take(line.len() - text.len());
    lemma_body_offset_prefix(nick, text, is_action, is_notice);
    lemma_encode_concat(prefix, text);
    assert(encode_utf8(line).skip(utf8_len(prefix) as int) =~= encode_utf8(text));
}

proof fn lemma_body_offset_prefix(nick: Seq<char>, text: Seq<char>, is_action: bool, is_notice: bool)
    ensures
        ({
            let line = line_text_of(nick, text, is_action, is_notice);
            let prefix = line.take(line.len() - text.len());
            &&& line == prefix + text
            &&& utf8_len(prefix) == body_offset_of(nick, is_action, is_notice)
            &&& is_notice ==> prefix == Seq::<char>::empty()
            &&& !is_notice && is_action ==> prefix == seq!['*', ' '] + nick + seq![' ']
            &&& !is_notice && !is_action ==> prefix == nick + seq![' ']
        }),
{
    let line = line_text_of(nick, text, is_action, is_notice);
    let prefix = line.take(line.len() - text.len());
    if is_notice {
        assert(prefix =~= Seq::<char>::empty());
        assert(line =~= prefix + text);
        assert(encode_utf8(prefix) =~= Seq::<u8>::empty());
    } else if is_action {
        assert(prefix =~= seq!['*', ' '] + nick + seq![' ']);
        assert(line =~= prefix + text);
        lemma_encode_concat(seq!['*', ' '] + nick, seq![' ']);
        lemma_encode_concat(seq!['*', ' '], nick);
        lemma_utf8_len_ascii2('*', ' ');
        lemma_utf8_len_ascii1(' ');
    } else {
        assert(prefix =~= nick + seq![' ']);
        assert(line =~= prefix + text);
        lemma_encode_concat(nick, seq![' ']);
        lemma_utf8_len_ascii1(' ');
    }
}

proof fn lemma_utf8_len_ascii1(a: char)
    requires
        (a as u32) < 0x80,
    ensures
        utf8_len(seq![a]) == 1,
{
    assert(encode_utf8(seq![a]) =~= vstd::utf8::encode_scalar(a as u32) + encode_utf8(seq![a].drop_first()));
}

proof fn lemma_utf8_len_ascii2(a: char, b: char)
    requires
        (a as u32) < 0x80,
        (b as u32) < 0x80,
    ensures
        utf8_len(seq![a, b]) == 2,
{
    lemma_utf8_len_ascii1(a);
    lemma_utf8_len_ascii1(b);
    assert(seq![a, b] =~= seq![a] + seq![b]);
    lemma_encode_concat(seq![a], seq![b]);
}

/// The palette colors in a flat property list of components: at every
/// fourth index past the first, the color being filled is taken, so
/// each color is the component at that index followed by the three
/// before it, and a last incomplete color is dropped.
pub open spec fn nick_palette<T>(values: Seq<T>) -> Seq<[T; 4]> {
    Seq::new(
        if values.len() == 0 { 0 } else { ((values.len() - 1) / 4) as nat },
        |k: int| [values[4 * k + 4], values[4 * k + 1], values[4 * k + 2], values[4 * k + 3]],
    )
}

/// Group the nick color property's flat component list into colors.
/// `zero` fills a color before its components are read.
pub fn read_nick_colors<T: Copy>(values: &[T], zero: T) -> (colors: Vec<[T; 4]>)
    ensures
        colors@ == nick_palette(values@),
{
    let mut colors: Vec<[T; 4]> = Vec::new();
    let mut color: [T; 4] = [zero, zero, zero, zero];
    let n = values.len();
    let mut i: usize = 0;
    while i < n
        invariant
            n == values@.len(),
            0 <= i <= n,
            colors@.len() == if i == 0 { 0 } else { ((i - 1) / 4) as nat },
            forall|k: int| 0 <= k < colors@.len() ==> #[trigger] colors@[k] == [values@[4 * k + 4], values@[4 * k + 1], values@[4 * k + 2], values@[4 * k + 3]],
            forall|j: int| 1 <= j < 4 && i > 0 && (i - 1) - (i - 1) % 4 + j < i ==> color@[j] == values@[(i - 1) - (i - 1) % 4 + j],
        decreases n - i,
    {
        color[i % 4] = values[i];
        if i > 0 && i % 4 == 0 {
            colors.push(color);
            color = [zero, zero, zero, zero];
        }
        i = i + 1;
    }
    assert(colors@ =~= nick_palette(values@));
    colors
}

/// What hashing a string writes into a hasher: `Hash::hash` for `str`.
pub uninterp spec fn str_hash_writes(s: Seq<char>) -> Seq<Seq<u8>>;

/// Feeds `s` to `h` with std's `Hash` impl for `str`. The writes are
/// named, not spelled out: they depend on `s` alone.
#[verifier::external_body]
fn hash_str_into(s: &str, h: &mut DefaultHasher)
    ensures
        final(h)@ == old(h)@ + str_hash_writes(s@),
{
    std::hash::Hash::hash(s, h)
}

/// The palette index of a nick: its hash modulo the palette size.
pub open spec fn nick_color_index(nick: Seq<char>, n: nat) -> int {
    (DefaultHasher::spec_finish(str_hash_writes(nick)) as usize) as int % n as int
}

/// Stable per-nick color: hash the nick, index into the palette. An
/// empty palette falls back to `white`.
pub fn select_nick_color<C: Copy>(nick: &str, nick_colors: &[C], white: C) -> (c: C)
    ensures
        nick_colors@.len() == 0 ==> c == white,
        nick_colors@.len() > 0 ==> c == nick_colors@[nick_color_index(nick@, nick_colors@.len())],
{
    if nick_colors.len() == 0 {
        return white;
    }
    let mut hasher = DefaultHasher::new();
    hash_str_into(nick, &mut hasher);
    proof {
        assert(hasher@ =~= str_hash_writes(nick@));
    }
    let i = #[verifier::truncate] (hasher.finish() as usize);
    nick_colors[i % nick_colors.len()]
}

/// The characters `\s` matches in the regex crate's Unicode mode: the
/// Unicode `White_Space` property.
pub open spec fn is_white_space(c: char) -> bool {
    let u = c as u32;
    ||| 0x09 <= u <= 0x0d
    ||| u == 0x20
    ||| u == 0x85
    ||| u == 0xa0
    ||| u == 0x1680
    ||| 0x2000 <= u <= 0x200a
    ||| u == 0x2028
    ||| u == 0x2029
    ||| u == 0x202f
    ||| u == 0x205f
    ||| u == 0x3000
}

/// The first whitespace character at or after `j`, or the end.
pub open spec fn white_space_from(t: Seq<char>, j: int) -> int
    decreases t.len() - j,
{
    if j < 0 || j >= t.len() {
        t.len() as int
    } else if is_white_space(t[j]) {
        j
    } else {
        white_space_from(t, j + 1)
    }
}

/// Whether the regex `p[^\s]+`, for a literal `p`, matches at character
/// `i`: `p` is there, followed by a character that is not whitespace.
pub open spec fn run_starts_at(t: Seq<char>, i: int, p: Seq<char>) -> bool {
    0 <= i && i + p.len() < t.len() && t.subrange(i, i + p.len()) == p && !is_white_space(t[i + p.len()])
}

/// Whether a match of the URL regex `https?://[^\s]+|fud://[^\s]+|www\.[^\s]+`
/// starts at character `i`.
pub open spec fn url_starts_at(t: Seq<char>, i: int) -> bool {
    ||| run_starts_at(t, i, seq!['h', 't', 't', 'p', ':', '/', '/'])
    ||| run_starts_at(t, i, seq!['h', 't', 't', 'p', 's', ':', '/', '/'])
    ||| run_starts_at(t, i, seq!['f', 'u', 'd', ':', '/', '/'])
    ||| run_starts_at(t, i, seq!['w', 'w', 'w', '.'])
}

/// The first character index at or after `i` where a URL match starts.
pub open spec fn url_start_from(t: Seq<char>, i: int) -> Option<int>
    decreases t.len() - i,
{
    if i < 0 || i >= t.len() {
        None
    } else if url_starts_at(t, i) {
        Some(i)
    } else {
        url_start_from(t, i + 1)
    }
}

/// A URL match start is found at or after where the search began.
pub proof fn lemma_url_start_from(t: Seq<char>, i: int)
    ensures
        url_start_from(t, i) matches Some(k) ==> i <= k < t.len() && url_starts_at(t, k),
    decreases t.len() - i,
{
    if 0 <= i < t.len() && !url_starts_at(t, i) {
        lemma_url_start_from(t, i + 1);
    }
}

/// The next whitespace is past a character that is not whitespace.
pub proof fn lemma_white_space_after(t: Seq<char>, j: int)
    requires
        0 <= j < t.len(),
        !is_white_space(t[j]),
    ensures
        j < white_space_from(t, j) <= t.len(),
    decreases t.len() - j,
{
    reveal_with_fuel(white_space_from, 2);
    if j + 1 < t.len() && !is_white_space(t[j + 1]) {
        lemma_white_space_after(t, j + 1);
    }
}

/// The character spans of the URL regex's successive matches from
/// character `pos` on, as `find_iter` gives them: the leftmost start at
/// or after `pos`; the run up to the next whitespace or the end (every
/// alternative ends there); then the search goes on from the run's end.
pub open spec fn url_char_spans_from(t: Seq<char>, pos: int) -> Seq<(int, int)>
    decreases t.len() - pos,
{
    match url_start_from(t, pos) {
        None => Seq::empty(),
        Some(i) => {
            proof {
                lemma_url_start_from(t, pos);
                lemma_white_space_after(t, i);
            }
            if pos < white_space_from(t, i) <= t.len() {
                seq![(i, white_space_from(t, i))] + url_char_spans_from(t, white_space_from(t, i))
            } else {
                Seq::empty()
            }
        },
    }
}

/// The byte spans of the matches of the URL regex
/// `https?://[^\s]+|fud://[^\s]+|www\.[^\s]+` in a text, in order.
pub open spec fn url_match_spans(text: Seq<char>) -> Seq<(usize, usize)> {
    url_char_spans_from(text, 0).map_values(
        |p: (int, int)| (utf8_len(text.take(p.0)) as usize, utf8_len(text.take(p.1)) as usize),
    )
}

/// The URL regex's matches in `text`, found with `regex::Regex::find_iter`
/// and taken as `(start, end)` byte offsets. The regex crate matches
/// leftmost-first, `\s` being Unicode `White_Space`, `+` is greedy, and
/// `find_iter` resumes at the end of each match, which is
/// [`url_match_spans`]; as its documentation says, the matches come in
/// order, do not overlap, and start and end on character boundaries
/// within the text.
#[verifier::external_body]
fn url_matches(text: &str) -> (r: Vec<(usize, usize)>)
    ensures
        r@ == url_match_spans(text@),
        forall|i: int| 0 <= i < r@.len() ==> (#[trigger] r@[i]).0 <= r@[i].1 <= utf8_len(text@),
        forall|i: int| 0 <= i < r@.len() ==> is_char_boundary(encode_utf8(text@), (#[trigger] r@[i]).0 as int)
            && is_char_boundary(encode_utf8(text@), r@[i].1 as int),
        forall|i: int| 0 <= i < r@.len() - 1 ==> (#[trigger] r@[i]).1 <= r@[i + 1].0,
{
    let re = regex::Regex::new(r"https?://[^\s]+|fud://[^\s]+|www\.[^\s]+").unwrap();
    re.find_iter(text).map(|m| (m.start(), m.end())).collect()
}

/// URL byte ranges within `text`, shifted by `offset`.
pub open spec fn shifted_spans(spans: Seq<(usize, usize)>, offset: int) -> Seq<Range<usize>> {
    Seq::new(spans.len(), |i: int| Range { start: (spans[i].0 + offset) as usize, end: (spans[i].1 + offset) as usize })
}

/// URL byte ranges within `text`, shifted by `offset`, each with `color`
/// (so backgrounds and hit rects can find them by brush).
pub fn url_color_ranges<C: Copy>(text: &str, offset: usize, color: C) -> (r: Vec<(Range<usize>, C)>)
    requires
        offset + utf8_len(text@) <= usize::MAX,
    ensures
        r@.len() == url_match_spans(text@).len(),
        forall|i: int| 0 <= i < r@.len() ==> (#[trigger] r@[i]).0 == shifted_spans(url_match_spans(text@), offset as int)[i]
            && r@[i].1 == color,
        forall|i: int| 0 <= i < r@.len() ==> (#[trigger] r@[i]).0.start <= r@[i].0.end,
{
    let spans = url_matches(text);
    let mut ranges: Vec<(Range<usize>, C)> = Vec::new();
    let mut i: usize = 0;
    while i < spans.len()
        invariant
            0 <= i <= spans@.len(),
            offset + utf8_len(text@) <= usize::MAX,
            spans@ == url_match_spans(text@),
            forall|k: int| 0 <= k < spans@.len() ==> (#[trigger] spans@[k]).0 <= spans@[k].1 <= utf8_len(text@),
            ranges@.len() == i,
            forall|k: int| 0 <= k < i ==> (#[trigger] ranges@[k]).0 == shifted_spans(spans@, offset as int)[k]
                && ranges@[k].1 == color,
        decreases spans@.len() - i,
    {
        let (a, b) = spans[i];
        ranges.push((Range { start: a + offset, end: b + offset }, color));
        i = i + 1;
    }
    ranges
}

/// URL byte ranges within the rendered line text: the URL runs of the
/// body, shifted past the nick prefix.
pub fn url_ranges_of(data: &PrivData) -> (r: Vec<Range<usize>>)
    requires
        utf8_len(data.nick@) + 3 + utf8_len(data.text@) <= usize::MAX,
    ensures
        r@ == shifted_spans(url_match_spans(data.text@), data.spec_body_offset()),
        forall|i: int| 0 <= i < r@.len() ==> (#[trigger] r@[i]).start <= r@[i].end,
{
    let offset = data.body_offset();
    let colored = url_color_ranges(data.text.as_str(), offset, ());
    let mut ranges: Vec<Range<usize>> = Vec::new();
    let mut i: usize = 0;
    while i < colored.len()
        invariant
            0 <= i <= colored@.len(),
            colored@.len() == url_match_spans(data.text@).len(),
            forall|k: int| 0 <= k < colored@.len() ==> (#[trigger] colored@[k]).0 == shifted_spans(
                url_match_spans(data.text@),
                data.spec_body_offset(),
            )[k],
            forall|k: int| 0 <= k < colored@.len() ==> (#[trigger] colored@[k]).0.start <= colored@[k].0.end,
            ranges@ =~= shifted_spans(url_match_spans(data.text@), data.spec_body_offset()).take(i as int),
        decreases colored@.len() - i,
    {
        let range = &colored[i].0;
        ranges.push(Range { start: range.start, end: range.end });
        i = i + 1;
    }
    assert(shifted_spans(url_match_spans(data.text@), data.spec_body_offset()).take(colored@.len() as int)
        =~= shifted_spans(url_match_spans(data.text@), data.spec_body_offset()));
    assert forall|i: int| 0 <= i < ranges@.len() implies (#[trigger] ranges@[i]).start <= ranges@[i].end by {
        assert(ranges@[i] == colored@[i].0);
    }
    ranges
}

/// Trailing punctuation that never ends a URL.
pub open spec fn is_url_punct(c: char) -> bool {
    c == '.' || c == ',' || c == '!' || c == '?' || c == ')' || c == ']' || c == '}' || c == '\''
        || c == '"' || c == ';' || c == ':'
}

/// Unicode control codes (general category Cc): C0, DEL and C1.
pub open spec fn is_control(c: char) -> bool {
    (c as u32) <= 0x1f || (0x7f <= (c as u32) && (c as u32) <= 0x9f)
}

/// `s` without its trailing URL punctuation.
pub open spec fn trim_punct(s: Seq<char>) -> Seq<char>
    decreases s.len(),
{
    if s.len() > 0 && is_url_punct(s.last()) {
        trim_punct(s.drop_last())
    } else {
        s
    }
}

/// `s` without its trailing control characters.
pub open spec fn trim_control(s: Seq<char>) -> Seq<char>
    decreases s.len(),
{
    if s.len() > 0 && is_control(s.last()) {
        trim_control(s.drop_last())
    } else {
        s
    }
}

/// The scheme and serialization of the URL that `url::Url::parse` makes
/// of a string, when it parses.
pub uninterp spec fn url_parts(s: Seq<char>) -> Option<(Seq<char>, Seq<char>)>;

/// Parses `s` with `url::Url::parse`, returning the URL's scheme and its
/// serialization (`Display`).
#[verifier::external_body]
pub(crate) fn url_parse_parts(s: &str) -> (r: Option<(String, String)>)
    ensures
        match url_parts(s@) {
            None => r is None,
            Some((scheme, serialized)) => r is Some && r.unwrap().0@ == scheme && r.unwrap().1@ == serialized,
        },
{
    match url::Url::parse(s) {
        Ok(u) => Some((u.scheme().to_string(), u.to_string())),
        Err(_) => None,
    }
}

/// What a parsed URL candidate gives: its serialization when its scheme
/// is http, https or fud; nothing otherwise, or when it did not parse.
pub open spec fn accepted_url(parsed: Option<(Seq<char>, Seq<char>)>) -> Option<Seq<char>> {
    match parsed {
        None => None,
        Some((scheme, serialized)) => if scheme == seq!['h', 't', 't', 'p'] || scheme == seq![
            'h',
            't',
            't',
            'p',
            's',
        ] || scheme == seq!['f', 'u', 'd'] {
            Some(serialized)
        } else {
            None
        },
    }
}

/// What a sanitized URL match becomes.
pub open spec fn sanitized_url(raw: Seq<char>) -> Option<Seq<char>> {
    let trimmed = trim_control(trim_punct(raw));
    if exists|i: int| 0 <= i < trimmed.len() && is_control(#[trigger] trimmed[i]) {
        None
    } else {
        let www = seq!['w', 'w', 'w', '.'];
        let candidate = if trimmed.len() >= 4 && trimmed.take(4) == www {
            seq!['h', 't', 't', 'p', 's', ':', '/', '/'] + trimmed
        } else {
            trimmed
        };
        accepted_url(url_parts(candidate))
    }
}

/// The character count that trimming trailing punctuation keeps.
fn trim_punct_len(s: &str) -> (k: usize)
    ensures
        k <= s@.len(),
        trim_punct(s@) == s@.take(k as int),
{
    let mut k: usize = 0;
    let mut i: usize = 0;
    let total = str_byte_len(s);
    assert(s@.take(0) =~= Seq::<char>::empty());
    for c in it: s.chars()
        invariant
            it.seq() == s@,
            i == it.index@,
            i <= s@.len(),
            k <= i,
            total == utf8_len(s@),
            trim_punct(s@.take(i as int)) == s@.take(k as int),
    {
        proof {
            assert(s@.take(i + 1).drop_last() =~= s@.take(i as int));
            assert(s@.take(i + 1).last() == c);
            crate::strs::lemma_char_count_le_bytes(s@);
        }
        i = i + 1;
        if !(c == '.' || c == ',' || c == '!' || c == '?' || c == ')' || c == ']' || c == '}' || c
            == '\'' || c == '"' || c == ';' || c == ':') {
            k = i;
        }
    }
    assert(s@.take(s@.len() as int) =~= s@);
    k
}

/// The character count that trimming trailing control characters keeps.
fn trim_control_len(s: &str) -> (k: usize)
    ensures
        k <= s@.len(),
        trim_control(s@) == s@.take(k as int),
{
    let mut k: usize = 0;
    let mut i: usize = 0;
    let total = str_byte_len(s);
    assert(s@.take(0) =~= Seq::<char>::empty());
    for c in it: s.chars()
        invariant
            it.seq() == s@,
            i == it.index@,
            i <= s@.len(),
            k <= i,
            total == utf8_len(s@),
            trim_control(s@.take(i as int)) == s@.take(k as int),
    {
        proof {
            assert(s@.take(i + 1).drop_last() =~= s@.take(i as int));
            assert(s@.take(i + 1).last() == c);
            crate::strs::lemma_char_count_le_bytes(s@);
        }
        i = i + 1;
        let v = c as u32;
        if !(v <= 0x1f || (0x7f <= v && v <= 0x9f)) {
            k = i;
        }
    }
    assert(s@.take(s@.len() as int) =~= s@);
    k
}

/// Whether `s` holds a control character.
fn has_control(s: &str) -> (r: bool)
    ensures
        r == exists|i: int| 0 <= i < s@.len() && is_control(#[trigger] s@[i]),
{
    let mut found = false;
    for c in it: s.chars()
        invariant
            it.seq() == s@,
            found == exists|j: int| 0 <= j < it.index@ && is_control(#[trigger] s@[j]),
    {
        let v = c as u32;
        if v <= 0x1f || (0x7f <= v && v <= 0x9f) {
            found = true;
        }
    }
    found
}

/// Whether `s` is exactly `p`.
fn eq_chars(s: &str, p: &[char]) -> (r: bool)
    ensures
        r == (s@ == p@),
{
    if char_count(s) != p.len() {
        return false;
    }
    let r = starts_with_chars(s, p);
    assert(s@.take(p@.len() as int) =~= s@);
    r
}

/// Sanitize an extracted URL match for opening or copying: strip
/// trailing punctuation and control characters, reject interior control
/// characters, resolve schemeless `www.` hosts to https, and keep only
/// what parses to an http, https or fud URL.
pub fn sanitize_url(raw: &str) -> (r: Option<String>)
    ensures
        match sanitized_url(raw@) {
            None => r is None,
            Some(u) => r is Some && r->0@ == u,
        },
{
    let k1 = trim_punct_len(raw);
    let (t1, _) = split_at_char(raw, k1);
    let k2 = trim_control_len(t1);
    let (trimmed, _) = split_at_char(t1, k2);
    if has_control(trimmed) {
        return None;
    }
    let www = ['w', 'w', 'w', '.'];
    assert(www@ =~= seq!['w', 'w', 'w', '.']);
    let ghost spec_candidate = if trimmed@.len() >= 4 && trimmed@.take(4) == seq!['w', 'w', 'w', '.'] {
        seq!['h', 't', 't', 'p', 's', ':', '/', '/'] + trimmed@
    } else {
        trimmed@
    };
    let candidate = if starts_with_chars(trimmed, www.as_slice()) {
        let c = join_strs("https://", trimmed);
        proof {
            reveal_strlit("https://");
            assert("https://"@ =~= seq!['h', 't', 't', 'p', 's', ':', '/', '/']);
            assert(c@ =~= spec_candidate);
        }
        c
    } else {
        owned(trimmed)
    };
    assert(candidate@ == spec_candidate);
    assert(trimmed@ == trim_control(trim_punct(raw@)));
    accept_parsed_url(url_parse_parts(candidate.as_str()))
}

/// What a URL candidate's parse gives (see [`accepted_url`]): the
/// serialization of an http, https or fud URL, nothing for another
/// scheme or a candidate that did not parse. `parsed` holds the scheme
/// and the serialization.
pub fn accept_parsed_url(parsed: Option<(String, String)>) -> (r: Option<String>)
    ensures
        match accepted_url(
            match parsed {
                Some((a, b)) => Some((a@, b@)),
                None => None,
            },
        ) {
            None => r is None,
            Some(u) => r is Some && r->0@ == u,
        },
{
    let (scheme, serialized) = match parsed {
        Some(v) => v,
        None => {
            return None;
        },
    };
    let http = ['h', 't', 't', 'p'];
    let https = ['h', 't', 't', 'p', 's'];
    let fud = ['f', 'u', 'd'];
    assert(http@ =~= seq!['h', 't', 't', 'p']);
    assert(https@ =~= seq!['h', 't', 't', 'p', 's']);
    assert(fud@ =~= seq!['f', 'u', 'd']);
    if eq_chars(scheme.as_str(), http.as_slice()) || eq_chars(scheme.as_str(), https.as_slice())
        || eq_chars(scheme.as_str(), fud.as_slice()) {
        Some(serialized)
    } else {
        None
    }
}

/// The time label of a message: the local time of `timestamp` as `09:05`
/// (hours and minutes), or the empty string when the instant has no
/// single local time. The text depends on the machine's time zone.
pub fn gen_timestr(timestamp: Timestamp) -> (r: String)
    ensures
        r@ == Seq::<char>::empty() || crate::buffer::is_clock_label(r@),
{
    let ms = #[verifier::truncate] (timestamp as i64);
    proof {
        reveal_strlit("%H:%M");
        assert("%H:%M"@ =~= crate::buffer::clock_label_format());
    }
    match crate::buffer::local_time_format(ms, "%H:%M") {
        Some(s) => {
            assert(crate::buffer::date_label_format() != crate::buffer::clock_label_format()) by {
                assert(crate::buffer::date_label_format().len() != crate::buffer::clock_label_format().len());
            }
            s
        },
        None => String::new(),
    }
}

} // verus!
