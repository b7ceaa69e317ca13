//! Naming helpers for registered functions.

use vstd::prelude::*;
use crate::text::push_char;

verus! {

/// `c` with an ASCII lowercase letter turned into its uppercase form.
pub open spec fn ascii_upper(c: char) -> char {
    if 'a' <= c && c <= 'z' {
        ((c as u32) - 32) as char
    } else {
        c
    }
}

/// Converts a character to ASCII uppercase, leaving any other character as it is.
pub fn to_ascii_uppercase(c: char) -> (r: char)
    ensures
        r == ascii_upper(c),
{
    if 'a' <= c && c <= 'z' {
        let u: u32 = (c as u32) - 32;
        assert(u < 256);
        char_from_ascii(u)
    } else {
        c
    }
}

fn char_from_ascii(u: u32) -> (c: char)
    requires
        u < 256,
    ensures
        c == u as char,
{
    let b: u8 = ascii_byte(u);
    let c = b as char;
    assert(c as u32 == u);
    c
}

fn ascii_byte(u: u32) -> (b: u8)
    requires
        u < 256,
    ensures
        b as u32 == u,
{
    u as u8
}

/// The camel-case conversion of `snake`, together with whether the next
/// character is to be uppercased: an underscore asks for it (unless nothing
/// has been written yet), any other character is written (uppercased when
/// asked for) and clears it.
pub open spec fn camel(snake: Seq<char>) -> (Seq<char>, bool)
    decreases snake.len(),
{
    if snake.len() == 0 {
        (seq![], false)
    } else {
        let (out, upper_next) = camel(snake.drop_last());
        let c = snake.last();
        if c == '_' {
            (out, out.len() > 0)
        } else if upper_next {
            (out.push(ascii_upper(c)), false)
        } else {
            (out.push(c), false)
        }
    }
}

/// Converts a Rust `snake_case` identifier to CEL `camelCase`: leading and
/// trailing underscores are dropped, a run of underscores inside the name
/// uppercases the letter after it, and other characters are left as they are.
pub fn to_camel_case(snake: &str) -> (out: String)
    ensures
        out@ == camel(snake@).0,
{
    let cs = crate::text::chars_of(snake);
    let mut out = String::new();
    let mut upper_next = false;
    let mut i: usize = 0;
    while i < cs.len()
        invariant
            i <= cs@.len(),
            cs@ == snake@,
            (out@, upper_next) == camel(cs@.take(i as int)),
        decreases cs@.len() - i,
    {
        let c = cs[i];
        assert(cs@.take(i + 1).drop_last() == cs@.take(i as int));
        assert(cs@.take(i + 1).last() == c);
        if c == '_' {
            upper_next = out.as_str().unicode_len() > 0;
        } else if upper_next {
            push_char(&mut out, to_ascii_uppercase(c));
            upper_next = false;
        } else {
            push_char(&mut out, c);
        }
        i += 1;
    }
    assert(cs@.take(cs@.len() as int) == cs@);
    out
}

/// The camel-case form holds no underscore, and has one character for each
/// character of the snake-case form that is not an underscore.
pub proof fn lemma_camel_drops_underscores(snake: Seq<char>)
    ensures
        !camel(snake).0.contains('_'),
        camel(snake).0.len() == snake.filter(|c: char| c != '_').len(),
    decreases snake.len(),
{
    reveal_with_fuel(Seq::filter, 1);
    if snake.len() > 0 {
        lemma_camel_drops_underscores(snake.drop_last());
        let (out, u) = camel(snake.drop_last());
        let c = snake.last();
        if c != '_' {
            assert(ascii_upper(c) != '_');
            let o2 = camel(snake).0;
            assert forall|k: int| 0 <= k < o2.len() implies o2[k] != '_' by {
                if k < out.len() {
                    assert(o2[k] == out[k]);
                    assert(!out.contains('_'));
                    if out[k] == '_' { assert(out.contains('_')); }
                }
            }
        }
    }
}

/// Leading underscores are dropped: a name read after an underscore that
/// starts it converts as the name alone.
pub proof fn law_camel_leading_underscore(snake: Seq<char>)
    ensures
        camel(seq!['_'] + snake) == camel(snake),
    decreases snake.len(),
{
    if snake.len() == 0 {
        assert(seq!['_'] + snake =~= seq!['_']);
        assert(seq!['_'].drop_last() =~= Seq::<char>::empty());
        assert(camel(Seq::<char>::empty()) == (Seq::<char>::empty(), false));
        assert(camel(seq!['_']) == (Seq::<char>::empty(), false));
    } else {
        law_camel_leading_underscore(snake.drop_last());
        assert((seq!['_'] + snake).drop_last() =~= seq!['_'] + snake.drop_last());
        assert((seq!['_'] + snake).last() == snake.last());
    }
}

/// Trailing underscores are dropped: an underscore at the end adds nothing.
pub proof fn law_camel_trailing_underscore(snake: Seq<char>)
    ensures
        camel(snake.push('_')).0 == camel(snake).0,
{
    assert(snake.push('_').drop_last() =~= snake);
}

} // verus!
