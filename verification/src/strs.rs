//! UTF-8 facts that tie a string's characters to its byte offsets.

use vstd::prelude::*;
use vstd::string::StringExecFns;
use vstd::utf8::*;

verus! {

/// The UTF-8 byte length of a character sequence.
pub open spec fn utf8_len(s: Seq<char>) -> nat {
    encode_utf8(s).len()
}

/// Encoding distributes over concatenation.
pub proof fn lemma_encode_concat(a: Seq<char>, b: Seq<char>)
    ensures
        encode_utf8(a + b) == encode_utf8(a) + encode_utf8(b),
    decreases a.len(),
{
    if a.len() == 0 {
        assert(a + b =~= b);
        assert(encode_utf8(a) + encode_utf8(b) =~= encode_utf8(b));
    } else {
        lemma_encode_concat(a.drop_first(), b);
        assert((a + b).drop_first() =~= a.drop_first() + b);
        assert((a + b)[0] == a[0]);
        assert(encode_utf8(a + b) =~= encode_scalar(a[0] as u32) + encode_utf8(a.drop_first() + b));
    }
}

/// Equal encodings come from equal characters.
pub proof fn lemma_encode_injective(a: Seq<char>, b: Seq<char>)
    requires
        encode_utf8(a) == encode_utf8(b),
    ensures
        a == b,
{
    encode_utf8_decode_utf8(a);
    encode_utf8_decode_utf8(b);
}

/// The end of a character prefix is a character boundary of the whole.
pub proof fn lemma_boundary_concat(a: Seq<char>, b: Seq<char>)
    ensures
        is_char_boundary(encode_utf8(a + b), encode_utf8(a).len() as int),
    decreases a.len(),
{
    let e = encode_utf8(a + b);
    encode_utf8_valid_utf8(a + b);
    if a.len() == 0 {
    } else {
        lemma_boundary_concat(a.drop_first(), b);
        assert((a + b).drop_first() =~= a.drop_first() + b);
        assert((a + b)[0] == a[0]);
        encode_utf8_first_scalar(a + b);
        let w = encode_scalar(a[0] as u32).len();
        assert(e =~= encode_scalar(a[0] as u32) + encode_utf8(a.drop_first() + b));
        assert(pop_first_scalar(e) =~= encode_utf8(a.drop_first() + b));
        assert(encode_utf8(a) =~= encode_scalar(a[0] as u32) + encode_utf8(a.drop_first()));
        reveal_with_fuel(is_char_boundary, 2);
    }
}

/// The UTF-8 byte length of one character.
pub fn char_len_utf8(c: char) -> (n: usize)
    ensures
        n == encode_scalar(c as u32).len(),
        n == utf8_len(seq![c]),
        1 <= n <= 4,
{
    proof {
        char_is_scalar(c);
        assert(encode_utf8(seq![c]) =~= encode_scalar(c as u32) + encode_utf8(seq![c].drop_first()));
    }
    let v = c as u32;
    if v <= 0x7f {
        1
    } else if v <= 0x7ff {
        2
    } else if v <= 0xffff {
        3
    } else {
        4
    }
}

/// The UTF-8 byte length of `s`.
pub fn str_byte_len(s: &str) -> (n: usize)
    ensures
        n == utf8_len(s@),
{
    let b = s.as_bytes();
    b.len()
}

/// The byte offset of character `k` of `s`.
pub fn byte_offset_of(s: &str, k: usize) -> (off: usize)
    requires
        k <= s@.len(),
    ensures
        off == utf8_len(s@.take(k as int)),
{
    let total = str_byte_len(s);
    let mut off: usize = 0;
    let mut i: usize = 0;
    let ghost full = s@;
    for c in it: s.chars()
        invariant
            it.seq() == full,
            i == if it.index@ < k { it.index@ as int } else { k as int },
            k <= full.len(),
            total == utf8_len(full),
            off == utf8_len(full.take(i as int)),
    {
        if i < k {
            proof {
                assert(full.take(i + 1) =~= full.take(i as int) + seq![c]);
                lemma_encode_concat(full.take(i as int), seq![c]);
                assert(full =~= full.take(i + 1) + full.skip(i + 1));
                lemma_encode_concat(full.take(i + 1), full.skip(i + 1));
            }
            let n = char_len_utf8(c);
            off = off + n;
            i = i + 1;
        }
    }
    off
}

/// Split `s` before its character `k`.
pub fn split_at_char<'a>(s: &'a str, k: usize) -> (r: (&'a str, &'a str))
    requires
        k <= s@.len(),
    ensures
        r.0@ == s@.take(k as int),
        r.1@ == s@.skip(k as int),
{
    let off = byte_offset_of(s, k);
    let ghost a = s@.take(k as int);
    let ghost b = s@.skip(k as int);
    proof {
        assert(s@ =~= a + b);
        lemma_encode_concat(a, b);
        lemma_boundary_concat(a, b);
    }
    let (x, y) = s.split_at(off);
    proof {
        assert(encode_utf8(x@) =~= encode_utf8(a));
        assert(encode_utf8(y@) =~= encode_utf8(b));
        lemma_encode_injective(x@, a);
        lemma_encode_injective(y@, b);
    }
    (x, y)
}

/// An owned copy of `s`.
pub fn owned(s: &str) -> (r: String)
    ensures
        r@ == s@,
{
    s.to_owned()
}

/// The concatenation of `a` and `b`.
pub fn join_strs(a: &str, b: &str) -> (r: String)
    ensures
        r@ == a@ + b@,
{
    let mut r = a.to_owned();
    r.append(b);
    r
}

/// A string has at most as many characters as UTF-8 bytes.
pub proof fn lemma_char_count_le_bytes(s: Seq<char>)
    ensures
        s.len() <= utf8_len(s),
    decreases s.len(),
{
    if s.len() > 0 {
        lemma_char_count_le_bytes(s.drop_first());
        assert(encode_utf8(s) =~= encode_scalar(s[0] as u32) + encode_utf8(s.drop_first()));
    }
}

/// Split `s` at byte `idx`, which must be a character boundary.
pub fn split_at_byte(s: &str, idx: usize) -> (r: (String, String))
    requires
        is_char_boundary(encode_utf8(s@), idx as int),
    ensures
        r.0@ + r.1@ == s@,
        utf8_len(r.0@) == idx,
{
    proof {
        encode_utf8_valid_utf8(s@);
    }
    let (x, y) = s.split_at(idx);
    proof {
        let e = encode_utf8(s@);
        assert(encode_utf8(x@) =~= e.subrange(0, idx as int));
        assert(encode_utf8(y@) =~= e.subrange(idx as int, e.len() as int));
        lemma_encode_concat(x@, y@);
        assert(encode_utf8(x@ + y@) =~= e);
        lemma_encode_injective(x@ + y@, s@);
    }
    (x.to_owned(), y.to_owned())
}

/// The end of the first part of a concatenation is a character boundary.
pub proof fn lemma_boundary_at_prefix(s: Seq<char>, a: Seq<char>, b: Seq<char>)
    requires
        s == a + b,
    ensures
        is_char_boundary(encode_utf8(s), utf8_len(a) as int),
{
    lemma_boundary_concat(a, b);
}

/// The part of `s` between bytes `a` and `b`, both character boundaries.
pub fn substr_bytes<'a>(s: &'a str, a: usize, b: usize) -> (r: &'a str)
    requires
        a <= b <= utf8_len(s@),
        is_char_boundary(encode_utf8(s@), a as int),
        is_char_boundary(encode_utf8(s@), b as int),
    ensures
        r@ == decode_utf8(encode_utf8(s@).subrange(a as int, b as int)),
{
    let ghost e = encode_utf8(s@);
    proof {
        encode_utf8_valid_utf8(s@);
    }
    let (x, _) = s.split_at(b);
    proof {
        let ex = e.subrange(0, b as int);
        assert(encode_utf8(x@) =~= ex);
        valid_utf8_split(e, b as int);
        if a < b {
            is_char_boundary_iff_not_is_continuation_byte(e, a as int);
            is_char_boundary_iff_not_is_continuation_byte(ex, a as int);
            assert(ex[a as int] == e[a as int]);
        } else {
            is_char_boundary_start_end_of_seq(ex);
        }
    }
    let (_, y) = x.split_at(a);
    proof {
        assert(encode_utf8(y@) =~= e.subrange(a as int, b as int));
        encode_utf8_decode_utf8(y@);
    }
    y
}

} // verus!
