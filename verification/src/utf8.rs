//! UTF-8 encoding of characters, stated against vstd's `encode_utf8`.

use vstd::prelude::*;
use vstd::utf8::*;

verus! {

broadcast use vstd::utf8::char_is_scalar;

/// The number of bytes of the UTF-8 encoding of `s`.
pub open spec fn byte_len(s: Seq<char>) -> int {
    encode_utf8(s).len() as int
}

/// Encoding a concatenation encodes each part.
pub proof fn lemma_encode_concat(a: Seq<char>, b: Seq<char>)
    ensures
        encode_utf8(a + b) == encode_utf8(a) + encode_utf8(b),
    decreases a.len(),
{
    if a.len() == 0 {
        assert(a + b == b);
    } else {
        lemma_encode_concat(a.drop_first(), b);
        assert((a + b).drop_first() == a.drop_first() + b);
        assert((a + b)[0] == a[0]);
    }
}

/// The encoding of a single character.
pub proof fn lemma_encode_single(c: char)
    ensures
        encode_utf8(seq![c]) == encode_scalar(c as u32),
{
    assert(seq![c].drop_first() == Seq::<char>::empty());
    assert(encode_utf8(Seq::<char>::empty()) == Seq::<u8>::empty());
    assert(encode_scalar(c as u32) + Seq::<u8>::empty() == encode_scalar(c as u32));
}

/// Encoding one more character appends its encoding.
pub proof fn lemma_encode_push(s: Seq<char>, c: char)
    ensures
        encode_utf8(s.push(c)) == encode_utf8(s) + encode_scalar(c as u32),
{
    lemma_encode_concat(s, seq![c]);
    lemma_encode_single(c);
    assert(s.push(c) == s + seq![c]);
}

/// Every character takes at least one byte, and an ASCII character exactly one.
pub proof fn lemma_scalar_width(c: char)
    ensures
        1 <= encode_scalar(c as u32).len() <= 4,
        (c as u32) < 0x80 ==> encode_scalar(c as u32).len() == 1,
{
}

/// A sequence takes at least as many bytes as it has characters, and
/// exactly as many when all of them are ASCII.
pub proof fn lemma_byte_len_bounds(s: Seq<char>)
    ensures
        byte_len(s) >= s.len(),
        (forall|k: int| 0 <= k < s.len() ==> (s[k] as u32) < 0x80) ==> byte_len(s) == s.len(),
    decreases s.len(),
{
    if s.len() > 0 {
        lemma_byte_len_bounds(s.drop_first());
        lemma_scalar_width(s[0]);
        if forall|k: int| 0 <= k < s.len() ==> (s[k] as u32) < 0x80 {
            assert forall|k: int| 0 <= k < s.drop_first().len() implies (s.drop_first()[k] as u32) < 0x80 by {
                assert(s.drop_first()[k] == s[k + 1]);
            }
        }
    }
}

/// The character with the code `u`, for a code below 256.
pub fn ascii_char(u: u32) -> (c: char)
    requires
        u < 256,
    ensures
        c == u as char,
        c as u32 == u,
{
    let b: u8 = u as u8;
    let c = b as char;
    assert(c as u32 == u);
    c
}

/// The character with the code `v`, if `v` is a Unicode scalar value.
///
/// Wraps `char::from_u32`, which the standard library documents as returning
/// `None` exactly when the input is not a valid `char` (a surrogate, or above
/// `0x10FFFF`).
#[verifier::external_body]
pub(crate) fn char_from_u32(v: u32) -> (c: Option<char>)
    ensures
        c is Some <==> is_scalar(v),
        c matches Some(ch) ==> ch == v as char && ch as u32 == v,
{
    char::from_u32(v)
}

/// Whether `v` is a Unicode scalar value.
pub fn scalar(v: u32) -> (b: bool)
    ensures
        b == is_scalar(v),
{
    v <= 0x7F || (0x80 <= v && v <= 0x7FF) || (0x800 <= v && v <= 0xFFFF && !(0xD800 <= v && v <= 0xDFFF))
        || (0x10000 <= v && v <= 0x10FFFF)
}

/// Encoding a prefix takes no more bytes than encoding the whole.
pub proof fn lemma_byte_len_take(s: Seq<char>, i: int)
    requires
        0 <= i <= s.len(),
    ensures
        byte_len(s.take(i)) <= byte_len(s),
        byte_len(s) == byte_len(s.take(i)) + byte_len(s.skip(i)),
{
    lemma_encode_concat(s.take(i), s.skip(i));
    assert(s == s.take(i) + s.skip(i));
}

/// The number of bytes of the UTF-8 encoding of `c`.
pub fn char_width(c: char) -> (w: usize)
    ensures
        w == encode_scalar(c as u32).len(),
        1 <= w <= 4,
{
    let v = c as u32;
    if v <= 0x7F {
        1
    } else if v <= 0x7FF {
        2
    } else if v <= 0xFFFF {
        3
    } else {
        4
    }
}

/// Appends the UTF-8 encoding of `c` to `out`.
pub fn encode_char(out: &mut Vec<u8>, c: char)
    ensures
        final(out)@ == old(out)@ + encode_scalar(c as u32),
{
    let v = c as u32;
    if v <= 0x7F {
        let b0: u8 = (v & 0x7F) as u8;
        out.push(b0);
        assert(out@ =~= old(out)@ + seq![leading_byte_width_1(v)]);
    } else if v <= 0x7FF {
        let b0: u8 = 0xC0 | ((v >> 6) & 0x1F) as u8;
        let b1: u8 = 0x80 | (v & 0x3F) as u8;
        out.push(b0);
        out.push(b1);
        assert(out@ =~= old(out)@ + seq![leading_byte_width_2(v), last_continuation_byte(v)]);
    } else if v <= 0xFFFF {
        let b0: u8 = 0xE0 | ((v >> 12) & 0x0F) as u8;
        let b1: u8 = 0x80 | ((v >> 6) & 0x3F) as u8;
        let b2: u8 = 0x80 | (v & 0x3F) as u8;
        out.push(b0);
        out.push(b1);
        out.push(b2);
        assert(out@ =~= old(out)@ + seq![
            leading_byte_width_3(v),
            second_last_continuation_byte(v),
            last_continuation_byte(v),
        ]);
    } else {
        let b0: u8 = 0xF0 | ((v >> 18) & 0x7) as u8;
        let b1: u8 = 0x80 | ((v >> 12) & 0x3F) as u8;
        let b2: u8 = 0x80 | ((v >> 6) & 0x3F) as u8;
        let b3: u8 = 0x80 | (v & 0x3F) as u8;
        out.push(b0);
        out.push(b1);
        out.push(b2);
        out.push(b3);
        assert(out@ =~= old(out)@ + seq![
            leading_byte_width_4(v),
            third_last_continuation_byte(v),
            second_last_continuation_byte(v),
            last_continuation_byte(v),
        ]);
    }
}

/// The number of bytes of the UTF-8 encoding of `chars[0..to]`.
pub fn byte_len_of(chars: &[char], to: usize) -> (n: usize)
    requires
        to <= chars@.len(),
        byte_len(chars@.take(to as int)) <= usize::MAX,
    ensures
        n == byte_len(chars@.take(to as int)),
{
    let mut n: usize = 0;
    let mut i: usize = 0;
    assert(chars@.take(0) == Seq::<char>::empty());
    while i < to
        invariant
            i <= to <= chars@.len(),
            n == byte_len(chars@.take(i as int)),
            byte_len(chars@.take(to as int)) <= usize::MAX,
        decreases to - i,
    {
        proof {
            lemma_encode_push(chars@.take(i as int), chars@[i as int]);
            assert(chars@.take(i + 1) == chars@.take(i as int).push(chars@[i as int]));
            lemma_encode_concat(chars@.take(i + 1), chars@.subrange(i + 1, to as int));
            assert(chars@.take(to as int) == chars@.take(i + 1) + chars@.subrange(i + 1, to as int));
        }
        n = n + char_width(chars[i]);
        i += 1;
    }
    n
}

} // verus!
