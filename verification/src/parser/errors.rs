//! The errors a parse reports.

use vstd::prelude::*;
use crate::text::{chars_of, decimal, push_char, push_chars, push_decimal, push_str};

verus! {

/// A syntax error: the 1-based line and column it was found at, and what
/// went wrong. A limit that stops the parse is reported at `(0, 0)`.
#[derive(Debug, PartialEq)]
pub struct ParseError {
    pub pos: (isize, isize),
    pub msg: String,
    pub expr_id: u64,
}

/// All the errors of a failed parse, ordered by position, and the source
/// they were found in.
#[derive(Debug, PartialEq)]
pub struct ParseErrors {
    pub errors: Vec<ParseError>,
    pub source: String,
}

/// Position `a` comes no later than position `b`: by line, then column.
pub open spec fn pos_le(a: (isize, isize), b: (isize, isize)) -> bool {
    a.0 < b.0 || (a.0 == b.0 && a.1 <= b.1)
}

/// The errors are ordered by position.
pub open spec fn sorted_by_pos(errors: Seq<ParseError>) -> bool {
    forall|i: int, j: int| 0 <= i < j < errors.len() ==> pos_le(#[trigger] errors[i].pos, #[trigger] errors[j].pos)
}

fn pos_le_exec(a: (isize, isize), b: (isize, isize)) -> (r: bool)
    ensures
        r == pos_le(a, b),
{
    a.0 < b.0 || (a.0 == b.0 && a.1 <= b.1)
}

/// Inserts `e` into the ordered `errors` after every error at or before its
/// position, so that errors at one position keep the order they came in.
pub fn insert_by_pos(errors: &mut Vec<ParseError>, e: ParseError)
    requires
        sorted_by_pos(old(errors)@),
    ensures
        sorted_by_pos(final(errors)@),
        exists|k: int| 0 <= k <= old(errors)@.len() && final(errors)@ == old(errors)@.insert(k, e),
{
    let mut k: usize = 0;
    while k < errors.len() && pos_le_exec(errors[k].pos, e.pos)
        invariant
            k <= errors@.len(),
            errors@ == old(errors)@,
            sorted_by_pos(errors@),
            forall|i: int| 0 <= i < k ==> pos_le(#[trigger] errors@[i].pos, e.pos),
        decreases errors@.len() - k,
    {
        k += 1;
    }
    let ghost before = errors@;
    errors.insert(k, e);
    proof {
        assert(errors@ == before.insert(k as int, e));
        assert forall|i: int, j: int| 0 <= i < j < errors@.len() implies pos_le(#[trigger] errors@[i].pos, #[trigger] errors@[j].pos) by {
            if j < k {
            } else if j == k {
                assert(errors@[i] == before[i]);
            } else if i < k {
                assert(errors@[j] == before[j - 1]);
                assert(pos_le(before[i].pos, before[j - 1].pos));
            } else if i == k {
                assert(errors@[j] == before[j - 1]);
                assert(!pos_le(before[k as int].pos, e.pos));
                assert(k as int <= j - 1);
                if k as int == j - 1 {
                } else {
                    assert(pos_le(before[k as int].pos, before[j - 1].pos));
                }
            } else {
                assert(errors@[i] == before[i - 1]);
                assert(errors@[j] == before[j - 1]);
            }
        }
    }
}

/// The length of the first line of `s`: the characters before its first
/// newline, or all of them.
pub open spec fn line_len(s: Seq<char>) -> nat
    decreases s.len(),
{
    if s.len() == 0 || s[0] == '\n' {
        0
    } else {
        1 + line_len(s.drop_first())
    }
}

/// Line `l` of `s`, counted from 1, without its newline; `None` when `s`
/// has fewer lines.
pub open spec fn nth_line(s: Seq<char>, l: int) -> Option<Seq<char>>
    decreases s.len(),
{
    if l < 1 {
        None
    } else if l == 1 {
        Some(s.take(line_len(s) as int))
    } else if line_len(s) < s.len() {
        nth_line(s.skip(line_len(s) as int + 1), l - 1)
    } else {
        None
    }
}

/// The decimal notation of `n`, with a minus sign if it is negative.
pub open spec fn decimal_signed(n: int) -> Seq<char> {
    if n < 0 { seq!['-'] + decimal((-n) as nat) } else { decimal(n as nat) }
}

/// `n` dots.
pub open spec fn dots(n: int) -> Seq<char> {
    Seq::new(if n < 0 { 0nat } else { n as nat }, |i: int| '.')
}

/// One error as it is shown: `ERROR: <input>:line:column: message`, then,
/// when `source` has that line, the line and a caret under the column.
pub open spec fn error_text(e: ParseError, source: Seq<char>) -> Seq<char> {
    "ERROR: <input>:"@ + decimal_signed(e.pos.0 as int) + seq![':'] + decimal_signed(e.pos.1 as int) + ": "@ + e.msg@
        + match nth_line(source, e.pos.0 as int) {
            Some(line) => "\n| "@ + line + "\n| "@ + dots(e.pos.1 - 1) + seq!['^'],
            None => seq![],
        }
}

/// All errors as they are shown, separated by newlines.
pub open spec fn errors_text(errors: Seq<ParseError>, source: Seq<char>) -> Seq<char>
    decreases errors.len(),
{
    if errors.len() == 0 {
        seq![]
    } else if errors.len() == 1 {
        error_text(errors[0], source)
    } else {
        errors_text(errors.drop_last(), source) + seq!['\n'] + error_text(errors.last(), source)
    }
}

fn push_signed(s: &mut String, n: isize)
    ensures
        final(s)@ == old(s)@ + decimal_signed(n as int),
{
    if n < 0 {
        push_char(s, '-');
        let m: u64 = if n == isize::MIN { (isize::MAX as u64) + 1 } else { (-n) as u64 };
        push_decimal(s, m);
        assert(s@ =~= old(s)@ + decimal_signed(n as int));
    } else {
        push_decimal(s, n as u64);
    }
}

/// The end of the line that starts at `from`: the position of the next
/// newline, or the end of `s`.
fn line_end(s: &[char], from: usize) -> (k: usize)
    requires
        from <= s@.len(),
    ensures
        from <= k <= s@.len(),
        k - from == line_len(s@.skip(from as int)),
{
    let mut k = from;
    while k < s.len() && s[k] != '\n'
        invariant
            from <= k <= s@.len(),
            line_len(s@.skip(from as int)) == (k - from) + line_len(s@.skip(k as int)),
        decreases s@.len() - k,
    {
        assert(s@.skip(k as int).drop_first() =~= s@.skip(k + 1));
        k += 1;
    }
    proof {
        if k < s@.len() {
            assert(s@.skip(k as int)[0] == '\n');
        }
    }
    k
}

/// The span of line `l` of `s`, counted from 1, if `s` has it.
fn find_line(s: &[char], l: isize) -> (r: Option<(usize, usize)>)
    ensures
        match nth_line(s@, l as int) {
            Some(line) => r matches Some((a, b)) && a <= b <= s@.len() && line == s@.subrange(a as int, b as int),
            None => r is None,
        },
{
    if l < 1 {
        return None;
    }
    let mut i: usize = 0;
    let mut rest: isize = l;
    assert(s@.skip(0) =~= s@);
    while rest > 1
        invariant
            i <= s@.len(),
            1 <= rest <= l,
            nth_line(s@, l as int) == nth_line(s@.skip(i as int), rest as int),
        decreases rest,
    {
        let k = line_end(s, i);
        if k == s.len() {
            return None;
        }
        assert(s@.skip(i as int).skip(k - i + 1) =~= s@.skip(k + 1));
        i = k + 1;
        rest = rest - 1;
    }
    let k = line_end(s, i);
    assert(s@.skip(i as int).take(k - i) =~= s@.subrange(i as int, k as int));
    Some((i, k))
}

/// Appends one error as it is shown.
fn push_error_text(s: &mut String, e: &ParseError, src: &[char])
    ensures
        final(s)@ == old(s)@ + error_text(*e, src@),
{
    push_str(s, "ERROR: <input>:");
    push_signed(s, e.pos.0);
    push_char(s, ':');
    push_signed(s, e.pos.1);
    push_str(s, ": ");
    push_str(s, e.msg.as_str());
    let ghost head = s@;
    match find_line(src, e.pos.0) {
        Some((a, b)) => {
            push_str(s, "\n| ");
            push_chars(s, src, a, b);
            push_str(s, "\n| ");
            let mut n: isize = 1;
            let ghost mid = s@;
            while n < e.pos.1
                invariant
                    1 <= n,
                    n <= e.pos.1 || n == 1,
                    s@ == mid + dots(n - 1),
                decreases e.pos.1 - n,
            {
                push_char(s, '.');
                assert(s@ =~= mid + dots(n as int));
                n = n + 1;
            }
            assert(dots(n - 1) =~= dots(e.pos.1 - 1));
            push_char(s, '^');
        },
        None => {},
    }
    assert(s@ =~= old(s)@ + error_text(*e, src@));
}

impl ParseErrors {
    /// The errors as they are shown, one after the other: each its
    /// position, its message, and the line of the source it is on with a
    /// caret under it.
    pub fn to_string(&self) -> (s: String)
        ensures
            s@ == errors_text(self.errors@, self.source@),
    {
        let src = chars_of(self.source.as_str());
        let mut s = String::new();
        let mut i: usize = 0;
        while i < self.errors.len()
            invariant
                i <= self.errors@.len(),
                src@ == self.source@,
                s@ == errors_text(self.errors@.take(i as int), self.source@),
            decreases self.errors@.len() - i,
        {
            let ghost before = s@;
            if i > 0 {
                push_char(&mut s, '\n');
            }
            push_error_text(&mut s, &self.errors[i], src.as_slice());
            proof {
                let t = self.errors@.take(i + 1);
                assert(t.drop_last() =~= self.errors@.take(i as int));
                assert(t.last() == self.errors@[i as int]);
                if i == 0 {
                    assert(s@ =~= error_text(self.errors@[0], self.source@));
                } else {
                    assert(s@ =~= before + seq!['\n'] + error_text(self.errors@[i as int], self.source@));
                }
            }
            i += 1;
        }
        assert(self.errors@.take(self.errors@.len() as int) =~= self.errors@);
        s
    }
}

} // verus!
