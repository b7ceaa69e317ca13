//! Resolution of qualified identifiers against a container, the way C++
//! resolves a name inside nested namespaces: the name is tried inside the
//! container, then inside each enclosing container, then on its own.

use vstd::prelude::*;
use crate::text::{push_char, push_chars, string_from, string_of, views};

verus! {

/// Whether `name` is an absolute reference, one that starts with a dot.
pub open spec fn is_absolute(name: Seq<char>) -> bool {
    name.len() > 0 && name[0] == '.'
}

/// Whether position `j` of `container` ends one of its dot-separated
/// prefixes: the end of the container, or a dot.
pub open spec fn ends_prefix(container: Seq<char>, j: int) -> bool {
    j == container.len() || (0 <= j < container.len() && container[j] == '.')
}

/// The candidates `prefix + "." + name` for every prefix of `container` that
/// ends at or before position `j`, longest prefix first.
pub open spec fn qualified_candidates(container: Seq<char>, name: Seq<char>, j: int) -> Seq<Seq<char>>
    decreases j + 1,
{
    if j < 0 {
        seq![]
    } else {
        let rest = qualified_candidates(container, name, j - 1);
        if ends_prefix(container, j) {
            seq![container.take(j) + seq!['.'] + name] + rest
        } else {
            rest
        }
    }
}

/// The names under which `name` is looked up inside `container`, most
/// qualified first: an absolute name only as itself (without its dot);
/// otherwise the name inside the container and inside each enclosing
/// container, then the bare name.
pub open spec fn candidate_names(container: Option<Seq<char>>, name: Seq<char>) -> Seq<Seq<char>> {
    if is_absolute(name) {
        seq![name.drop_first()]
    } else {
        match container {
            Some(c) if c.len() > 0 => qualified_candidates(c, name, c.len() as int) + seq![name],
            _ => seq![name],
        }
    }
}

pub open spec fn opt_view(container: Option<&str>) -> Option<Seq<char>> {
    match container {
        Some(c) => Some(c@),
        None => None,
    }
}

/// Resolves the candidate names for a qualified identifier, in resolution
/// order: with container `a.b.c` and name `R.s`, these are `a.b.c.R.s`,
/// `a.b.R.s`, `a.R.s` and `R.s`; an absolute name `.R.s` yields `R.s` only.
pub fn resolve_candidate_names(container: Option<&str>, name: &str) -> (candidates: Vec<String>)
    ensures
        views(candidates@) == candidate_names(opt_view(container), name@),
{
    let name_chars = crate::text::chars_of(name);
    let mut candidates: Vec<String> = Vec::new();
    if name_chars.len() > 0 && name_chars[0] == '.' {
        candidates.push(string_from(name_chars.as_slice(), 1, name_chars.len()));
        assert(views(candidates@) =~= seq![name@.drop_first()]);
        return candidates;
    }
    if let Some(c) = container {
        let cs = crate::text::chars_of(c);
        if cs.len() > 0 {
            let mut j: usize = cs.len();
            let mut first = string_of(cs.as_slice());
            push_char(&mut first, '.');
            push_chars(&mut first, name_chars.as_slice(), 0, name_chars.len());
            assert(name_chars@.subrange(0, name_chars@.len() as int) == name_chars@);
            assert(first@ =~= cs@.take(j as int) + seq!['.'] + name@);
            candidates.push(first);
            assert(views(candidates@) =~= seq![cs@.take(j as int) + seq!['.'] + name@]);
            while j > 0
                invariant
                    j <= cs@.len(),
                    cs@ == c@,
                    name_chars@ == name@,
                    views(candidates@) + qualified_candidates(cs@, name@, j - 1)
                        == qualified_candidates(cs@, name@, cs@.len() as int),
                decreases j,
            {
                j -= 1;
                let ghost before = views(candidates@);
                if cs[j] == '.' {
                    let mut cand = string_from(cs.as_slice(), 0, j);
                    push_char(&mut cand, '.');
                    push_chars(&mut cand, name_chars.as_slice(), 0, name_chars.len());
                    assert(name_chars@.subrange(0, name_chars@.len() as int) == name_chars@);
                    assert(cand@ =~= cs@.take(j as int) + seq!['.'] + name@);
                    candidates.push(cand);
                    assert(views(candidates@) =~= before.push(cs@.take(j as int) + seq!['.'] + name@));
                    assert(before + qualified_candidates(cs@, name@, j as int) =~= views(candidates@) + qualified_candidates(cs@, name@, j - 1));
                } else {
                    assert(views(candidates@) == before);
                }
            }
            assert(qualified_candidates(cs@, name@, -1) == Seq::<Seq<char>>::empty());
            assert(views(candidates@) =~= qualified_candidates(cs@, name@, cs@.len() as int));
        }
    }
    let ghost before = views(candidates@);
    candidates.push(string_of(name_chars.as_slice()));
    assert(views(candidates@) =~= before.push(name@));
    candidates
}

} // verus!
