//! Conversions between UTF-16 indexes (as Java and Android count) and
//! UTF-8 byte indexes.

use vstd::prelude::*;
use vstd::utf8::{
    decode_utf8, decode_utf8_encode_utf8, decode_utf8_split, encode_utf8, encode_utf8_decode_utf8,
    encode_utf8_valid_utf8, is_char_boundary, valid_utf8_split,
};

use crate::strs::{char_len_utf8, lemma_encode_concat, str_byte_len, utf8_len};

verus! {

/// UTF-16 code units of one character.
pub open spec fn utf16_width(c: char) -> nat {
    if c as u32 >= 0x10000 {
        2
    } else {
        1
    }
}

/// UTF-16 code units of a character sequence.
pub open spec fn utf16_len(s: Seq<char>) -> nat
    decreases s.len(),
{
    if s.len() == 0 {
        0
    } else {
        utf16_len(s.drop_last()) + utf16_width(s.last())
    }
}

/// The UTF-8 byte length of the text made of the first `n` UTF-16 units
/// of `s`, or `None` when unit `n` would split a surrogate pair.
pub open spec fn utf16_prefix_bytes(s: Seq<char>, n: int) -> Option<nat>
    decreases s.len(),
{
    if s.len() == 0 || n <= 0 {
        Some(0)
    } else if n < utf16_width(s[0]) {
        None
    } else {
        match utf16_prefix_bytes(s.drop_first(), n - utf16_width(s[0])) {
            Some(b) => Some(b + utf8_len(seq![s[0]])),
            None => None,
        }
    }
}

/// A character takes at least as many UTF-8 bytes as UTF-16 units.
proof fn lemma_char_widths(c: char)
    ensures
        utf16_width(c) <= utf8_len(seq![c]),
{
    vstd::utf8::char_is_scalar(c);
    assert(encode_utf8(seq![c]) =~= vstd::utf8::encode_scalar(c as u32) + encode_utf8(seq![c].drop_first()));
}

/// The UTF-16 width of one character.
fn char_len_utf16(c: char) -> (n: usize)
    ensures
        n == utf16_width(c),
{
    if (c as u32) >= 0x10000 {
        2
    } else {
        1
    }
}

proof fn lemma_prefix_bytes_step(s: Seq<char>, i: int, u: int, n: int)
    requires
        0 <= i < s.len(),
        0 <= u,
        u + utf16_width(s[i]) <= n,
    ensures
        utf16_prefix_bytes(s.skip(i), n - u) == match utf16_prefix_bytes(
            s.skip(i + 1),
            n - u - utf16_width(s[i]),
        ) {
            Some(b) => Some(b + utf8_len(seq![s[i]])),
            None => None,
        },
{
    assert(s.skip(i).drop_first() =~= s.skip(i + 1));
    assert(s.skip(i)[0] == s[i]);
}

proof fn lemma_utf8_len_step(s: Seq<char>, i: int)
    requires
        0 <= i < s.len(),
    ensures
        utf8_len(s.take(i + 1)) == utf8_len(s.take(i)) + utf8_len(seq![s[i]]),
{
    assert(s.take(i + 1) =~= s.take(i) + seq![s[i]]);
    lemma_encode_concat(s.take(i), seq![s[i]]);
}

proof fn lemma_utf8_len_take_bound(s: Seq<char>, i: int)
    requires
        0 <= i <= s.len(),
    ensures
        utf8_len(s.take(i)) <= utf8_len(s),
{
    assert(s =~= s.take(i) + s.skip(i));
    lemma_encode_concat(s.take(i), s.skip(i));
}

/// UTF-16 units of a character followed by more text.
proof fn lemma_utf16_len_cons(c: char, t: Seq<char>)
    ensures
        utf16_len(seq![c] + t) == utf16_width(c) + utf16_len(t),
    decreases t.len(),
{
    if t.len() > 0 {
        lemma_utf16_len_cons(c, t.drop_last());
        assert((seq![c] + t).drop_last() =~= seq![c] + t.drop_last());
        assert((seq![c] + t).last() == t.last());
        assert(utf16_len(seq![c] + t) == utf16_len((seq![c] + t).drop_last()) + utf16_width((seq![c] + t).last()));
    } else {
        assert(seq![c] + t =~= seq![c]);
        assert(seq![c].drop_last() =~= Seq::<char>::empty());
        assert(utf16_len(seq![c]) == utf16_len(seq![c].drop_last()) + utf16_width(c));
    }
}

/// UTF-16 and UTF-8 indices convert into each other without loss at
/// every character boundary: the first `k` characters of `s` take
/// `utf8_len(s.take(k))` bytes, which [`byte_to_char16_index`] turns into
/// their `utf16_len(s.take(k))` units, which [`char16_to_byte_index`]
/// turns back into those bytes.
pub proof fn lemma_utf16_roundtrip(s: Seq<char>, k: int)
    requires
        0 <= k <= s.len(),
    ensures
        decode_utf8(encode_utf8(s).subrange(0, utf8_len(s.take(k)) as int)) == s.take(k),
        utf16_prefix_bytes(s, utf16_len(s.take(k)) as int) == Some(utf8_len(s.take(k))),
    decreases k,
{
    assert(s =~= s.take(k) + s.skip(k));
    lemma_encode_concat(s.take(k), s.skip(k));
    assert(encode_utf8(s).subrange(0, utf8_len(s.take(k)) as int) =~= encode_utf8(s.take(k)));
    encode_utf8_decode_utf8(s.take(k));
    if k > 0 {
        let t = s.drop_first();
        lemma_utf16_roundtrip(t, k - 1);
        assert(s.take(k) =~= seq![s[0]] + t.take(k - 1));
        lemma_utf16_len_cons(s[0], t.take(k - 1));
        lemma_encode_concat(seq![s[0]], t.take(k - 1));
        assert(utf16_prefix_bytes(s, utf16_len(s.take(k)) as int) == match utf16_prefix_bytes(
            t,
            utf16_len(t.take(k - 1)) as int,
        ) {
            Some(b) => Some(b + utf8_len(seq![s[0]])),
            None => None,
        });
    } else {
        assert(s.take(0) =~= Seq::<char>::empty());
        assert(encode_utf8(Seq::<char>::empty()) =~= Seq::<u8>::empty());
    }
}

/// At every character boundary `b` of the UTF-8 bytes, the UTF-16 index
/// that [`byte_to_char16_index`] gives for `b` is turned back into `b` by
/// [`char16_to_byte_index`].
pub proof fn lemma_utf16_byte_roundtrip(s: Seq<char>, b: int)
    requires
        0 <= b <= utf8_len(s),
        is_char_boundary(encode_utf8(s), b),
    ensures
        utf16_prefix_bytes(s, utf16_len(decode_utf8(encode_utf8(s).subrange(0, b))) as int) == Some(b as nat),
{
    let bytes = encode_utf8(s);
    encode_utf8_valid_utf8(s);
    encode_utf8_decode_utf8(s);
    valid_utf8_split(bytes, b);
    decode_utf8_split(bytes, b);
    let p = decode_utf8(bytes.subrange(0, b));
    let k = p.len() as int;
    assert(s == p + decode_utf8(bytes.subrange(b, bytes.len() as int)));
    assert(s.take(k) =~= p);
    decode_utf8_encode_utf8(bytes.subrange(0, b));
    assert(utf8_len(s.take(k)) == b);
    lemma_utf16_roundtrip(s, k);
}

/// The byte index of UTF-16 index `char_idx` in `s`: the bytes of the
/// first `char_idx` code units, all of `s` when it has fewer, and `None`
/// when the index falls inside a surrogate pair.
pub fn char16_to_byte_index(s: &str, char_idx: usize) -> (r: Option<usize>)
    ensures
        r == match utf16_prefix_bytes(s@, char_idx as int) {
            Some(b) => Some(b as usize),
            None => None::<usize>,
        },
{
    let total = str_byte_len(s);
    let ghost full = s@;
    let mut units: usize = 0;
    let mut bytes: usize = 0;
    let mut cut = false;
    let mut done = false;
    assert(full.skip(0) =~= full);
    for c in it: s.chars()
        invariant
            it.seq() == full,
            0 <= it.index@ <= full.len(),
            total == utf8_len(full),
            units <= char_idx,
            !done ==> !cut,
            !done ==> bytes == utf8_len(full.take(it.index@)),
            !done ==> utf16_prefix_bytes(full, char_idx as int) == match utf16_prefix_bytes(
                full.skip(it.index@),
                char_idx - units,
            ) {
                Some(b) => Some((b + bytes) as nat),
                None => None::<nat>,
            },
            done && !cut ==> utf16_prefix_bytes(full, char_idx as int) == Some(bytes as nat),
            done && cut ==> utf16_prefix_bytes(full, char_idx as int) is None,
    {
        if !done {
            let w = char_len_utf16(c);
            let ghost i = it.index@;
            if units >= char_idx {
                done = true;
                proof {
                    assert(full.skip(i).len() > 0);
                }
            } else if char_idx - units < w {
                cut = true;
                done = true;
                proof {
                    assert(full.skip(i)[0] == full[i]);
                }
            } else {
                proof {
                    lemma_prefix_bytes_step(full, i, units as int, char_idx as int);
                    lemma_utf8_len_step(full, i);
                    lemma_utf8_len_take_bound(full, i + 1);
                }
                units = units + w;
                bytes = bytes + char_len_utf8(c);
            }
        }
    }
    proof {
        if !done {
            assert(full.skip(full.len() as int) =~= Seq::<char>::empty());
        }
    }
    if cut {
        None
    } else {
        Some(bytes)
    }
}

/// The UTF-16 index of byte index `byte_idx` in `s`, or `None` when it is
/// past the end or not at a character boundary.
pub fn byte_to_char16_index(s: &str, byte_idx: usize) -> (r: Option<usize>)
    ensures
        r is Some <==> byte_idx <= utf8_len(s@) && is_char_boundary(encode_utf8(s@), byte_idx as int),
        r matches Some(n) ==> n == utf16_len(decode_utf8(encode_utf8(s@).subrange(0, byte_idx as int))),
{
    let len = str_byte_len(s);
    if byte_idx > len || !s.is_char_boundary(byte_idx) {
        return None;
    }
    proof {
        encode_utf8_valid_utf8(s@);
    }
    let (prefix, _) = s.split_at(byte_idx);
    proof {
        encode_utf8_decode_utf8(prefix@);
        assert(encode_utf8(prefix@) =~= encode_utf8(s@).subrange(0, byte_idx as int));
    }
    let ghost p = prefix@;
    let mut n: usize = 0;
    let plen = str_byte_len(prefix);
    for c in it: prefix.chars()
        invariant
            it.seq() == p,
            0 <= it.index@ <= p.len(),
            plen == utf8_len(p),
            n == utf16_len(p.take(it.index@)),
            n <= utf8_len(p.take(it.index@)),
    {
        proof {
            let i = it.index@;
            assert(p.take(i + 1).drop_last() =~= p.take(i));
            lemma_utf8_len_step(p, i);
            lemma_utf8_len_take_bound(p, i + 1);
            lemma_char_widths(p[i]);
        }
        n = n + char_len_utf16(c);
    }
    proof {
        assert(p.take(p.len() as int) =~= p);
    }
    Some(n)
}

} // verus!
