//! The types an environment knows, by name.

use vstd::prelude::*;
use crate::common::types::Type;
use crate::parser::lexer::{ident_byte, is_ident_char, is_letter, letter_byte};
use crate::text::{chars_of, str_eq};
use crate::DeclarationError;

verus! {

/// Whether `c` may start an identifier.
pub open spec fn starts_ident(c: char) -> bool {
    is_letter(c) || c == '_'
}

/// Whether the character of `name` at `i` may stand there in a qualified
/// identifier: a dot only before the start of another identifier.
pub open spec fn qualified_char(name: Seq<char>, i: int) -> bool {
    if name[i] == '.' {
        i + 1 < name.len() && starts_ident(name[i + 1])
    } else {
        is_ident_char(name[i])
    }
}

/// Whether `name` is an identifier, or several separated by dots: each
/// starts with a letter or `_` and goes on with letters, digits and `_`.
pub open spec fn qualified_ident(name: Seq<char>) -> bool {
    &&& name.len() > 0
    &&& starts_ident(name[0])
    &&& forall|i: int| 0 <= i < name.len() ==> #[trigger] qualified_char(name, i)
}

/// The types of `s` by name, a later one replacing an earlier one.
pub open spec fn registered(s: Seq<Type>) -> Map<Seq<char>, Type>
    decreases s.len(),
{
    if s.len() == 0 {
        Map::empty()
    } else {
        registered(s.drop_last()).insert(s.last().name_spec(), s.last())
    }
}

/// No two types of `s` have the same name.
pub open spec fn names_unique(s: Seq<Type>) -> bool {
    forall|i: int, j: int| 0 <= i < j < s.len() ==> (#[trigger] s[i]).name_spec() != (#[trigger] s[j]).name_spec()
}

/// Where the names of `s` are unique, a name is registered if and only if a
/// type of `s` has it, and then to that type.
proof fn lemma_registered(s: Seq<Type>)
    requires
        names_unique(s),
    ensures
        forall|n: Seq<char>| registered(s).contains_key(n) <==> exists|i: int| 0 <= i < s.len() && (#[trigger] s[i]).name_spec() == n,
        forall|i: int| 0 <= i < s.len() ==> registered(s)[(#[trigger] s[i]).name_spec()] == s[i],
    decreases s.len(),
{
    if s.len() > 0 {
        let p = s.drop_last();
        assert(names_unique(p)) by {
            assert forall|i: int, j: int| 0 <= i < j < p.len() implies (#[trigger] p[i]).name_spec() != (#[trigger] p[j]).name_spec() by {
                assert(p[i] == s[i] && p[j] == s[j]);
            }
        }
        lemma_registered(p);
        assert(registered(s) == registered(p).insert(s.last().name_spec(), s.last()));
        assert forall|n: Seq<char>| registered(s).contains_key(n) implies exists|i: int| 0 <= i < s.len() && (#[trigger] s[i]).name_spec() == n by {
            if n != s.last().name_spec() {
                assert(registered(p).contains_key(n));
                let i = choose|i: int| 0 <= i < p.len() && (#[trigger] p[i]).name_spec() == n;
                assert(s[i] == p[i]);
            } else {
                assert(s[s.len() - 1].name_spec() == n);
            }
        }
        assert forall|n: Seq<char>| (exists|i: int| 0 <= i < s.len() && (#[trigger] s[i]).name_spec() == n) implies registered(s).contains_key(n) by {
            let i = choose|i: int| 0 <= i < s.len() && (#[trigger] s[i]).name_spec() == n;
            if i < s.len() - 1 {
                assert(p[i] == s[i]);
            }
        }
        assert forall|i: int| 0 <= i < s.len() implies registered(s)[(#[trigger] s[i]).name_spec()] == s[i] by {
            if i < s.len() - 1 {
                assert(p[i] == s[i]);
                assert(s[i].name_spec() != s[s.len() - 1].name_spec());
            }
        }
    }
}

/// Whether `name` is an identifier, or several separated by dots.
pub fn is_qualified_ident(name: &str) -> (r: bool)
    ensures
        r == qualified_ident(name@),
{
    let cs = chars_of(name);
    if cs.len() == 0 || !(letter_byte(cs[0]) || cs[0] == '_') {
        return false;
    }
    let mut i: usize = 0;
    while i < cs.len()
        invariant
            cs@ == name@,
            cs@.len() > 0,
            starts_ident(cs@[0]),
            i <= cs@.len(),
            forall|k: int| 0 <= k < i ==> #[trigger] qualified_char(cs@, k),
        decreases cs@.len() - i,
    {
        let c = cs[i];
        if c == '.' {
            if i + 1 >= cs.len() || !(letter_byte(cs[i + 1]) || cs[i + 1] == '_') {
                assert(!qualified_char(cs@, i as int));
                return false;
            }
        } else if !ident_byte(c) {
            assert(!qualified_char(cs@, i as int));
            return false;
        }
        assert(qualified_char(cs@, i as int));
        i += 1;
    }
    true
}

/// The types known to an environment, by name; a registered type's name
/// resolves to the type in an expression.
pub struct TypeRegistry {
    types: Vec<Type>,
}

impl TypeRegistry {
    /// The registered types, by name.
    pub closed spec fn types_map(self) -> Map<Seq<char>, Type> {
        registered(self.types@)
    }

    #[verifier::type_invariant]
    closed spec fn names_distinct(self) -> bool {
        names_unique(self.types@)
    }

    /// A registry with no types.
    pub fn new() -> (r: TypeRegistry)
        ensures
            r.types_map() == Map::<Seq<char>, Type>::empty(),
    {
        TypeRegistry { types: Vec::new() }
    }

    /// Where `name` is registered, its index.
    fn position(&self, name: &str) -> (r: Option<usize>)
        ensures
            r matches Some(i) ==> i < self.types@.len() && self.types@[i as int].name_spec() == name@,
            r is None ==> forall|i: int| 0 <= i < self.types@.len() ==> (#[trigger] self.types@[i]).name_spec() != name@,
    {
        let mut i: usize = 0;
        while i < self.types.len()
            invariant
                i <= self.types@.len(),
                forall|k: int| 0 <= k < i ==> (#[trigger] self.types@[k]).name_spec() != name@,
            decreases self.types@.len() - i,
        {
            if str_eq(self.types[i].name(), name) {
                return Some(i);
            }
            i += 1;
        }
        None
    }

    /// The type registered under `name`.
    pub fn find_type(&self, name: &str) -> (r: Option<&Type>)
        ensures
            r matches Some(t) ==> self.types_map().contains_key(name@) && *t == self.types_map()[name@],
            r is None ==> !self.types_map().contains_key(name@),
    {
        proof {
            use_type_invariant(self);
            lemma_registered(self.types@);
        }
        match self.position(name) {
            Some(i) => Some(&self.types[i]),
            None => None,
        }
    }

    /// Registers `t` under its name. Registering a type that agrees with the
    /// one registered under its name changes nothing, so that libraries can
    /// each register a type they share.
    ///
    /// Fails with [`DeclarationError::InvalidTypeName`] where the name is
    /// not an identifier, or several separated by dots, and with
    /// [`DeclarationError::TypeConflict`] where another type has the name;
    /// a failed registration changes nothing.
    pub fn register(&mut self, t: Type) -> (r: Result<(), DeclarationError>)
        ensures
            !qualified_ident(t.name_spec()) ==> (r matches Err(DeclarationError::InvalidTypeName(n)) && n@ == t.name_spec()),
            qualified_ident(t.name_spec()) && old(self).types_map().contains_key(t.name_spec())
                && old(self).types_map()[t.name_spec()].same(t) ==> r is Ok,
            qualified_ident(t.name_spec()) && old(self).types_map().contains_key(t.name_spec())
                && old(self).types_map()[t.name_spec()] == t ==> r is Ok,
            qualified_ident(t.name_spec()) && old(self).types_map().contains_key(t.name_spec())
                && !old(self).types_map()[t.name_spec()].same(t) ==> (r matches Err(DeclarationError::TypeConflict(n)) && n@ == t.name_spec()),
            qualified_ident(t.name_spec()) && !old(self).types_map().contains_key(t.name_spec()) ==> r is Ok
                && final(self).types_map() == old(self).types_map().insert(t.name_spec(), t),
            old(self).types_map().contains_key(t.name_spec()) || r is Err ==> final(self).types_map() == old(self).types_map(),
    {
        proof {
            use_type_invariant(&*self);
            lemma_registered(self.types@);
            Type::lemma_same_reflexive(t);
        }
        if !is_qualified_ident(t.name()) {
            return Err(DeclarationError::invalid_type_name(t.name()));
        }
        match self.position(t.name()) {
            Some(i) => {
                if self.types[i].equals(&t) {
                    Ok(())
                } else {
                    Err(DeclarationError::type_conflict(t.name()))
                }
            },
            None => {
                let ghost before = self.types@;
                let ghost n = t.name_spec();
                proof {
                    assert forall|a: int, b: int| 0 <= a < b < before.push(t).len() implies (#[trigger] before.push(t)[a]).name_spec() != (#[trigger] before.push(t)[b]).name_spec() by {
                        if b == before.len() {
                            assert(before.push(t)[a] == before[a]);
                        } else {
                            assert(before.push(t)[a] == before[a] && before.push(t)[b] == before[b]);
                        }
                    }
                    assert(before.push(t).drop_last() == before);
                }
                let mut types: Vec<Type> = Vec::new();
                std::mem::swap(&mut types, &mut self.types);
                types.push(t);
                self.types = types;
                Ok(())
            },
        }
    }
}

impl Default for TypeRegistry {
    /// A registry with no types.
    fn default() -> (r: TypeRegistry)
        ensures
            r.types_map() == Map::<Seq<char>, Type>::empty(),
    {
        TypeRegistry::new()
    }
}

} // verus!
