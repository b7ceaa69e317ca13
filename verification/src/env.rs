//! The environment of evaluation: the functions with their overloads, the
//! registered types, and the options that hold for every evaluation.

use vstd::prelude::*;
use crate::common::decls::{clashes, first_with, has_signature, lemma_found_when_added, lemma_same_types_reflexive, overloads_distinct, FunctionDecl, OverloadDecl};
use crate::common::types::Type;
use crate::registry::{qualified_ident, TypeRegistry};
use crate::text::{str_eq, to_string};
use crate::DeclarationError;

verus! {

/// The overloads of the function named `name` in `s`, none where no
/// function has the name.
pub open spec fn overloads_in<F>(s: Seq<FunctionDecl<F>>, name: Seq<char>) -> Seq<OverloadDecl<F>>
    decreases s.len(),
{
    if s.len() == 0 {
        Seq::empty()
    } else if s.last().name_spec() == name {
        s.last().decls()
    } else {
        overloads_in(s.drop_last(), name)
    }
}

/// No two functions of `s` have the same name.
pub open spec fn function_names_unique<F>(s: Seq<FunctionDecl<F>>) -> bool {
    forall|i: int, j: int| 0 <= i < j < s.len() ==> (#[trigger] s[i]).name_spec() != (#[trigger] s[j]).name_spec()
}

/// Where names are unique, the overloads of a name are those of the one
/// function that has it, and none where no function has it.
proof fn lemma_overloads_in<F>(s: Seq<FunctionDecl<F>>)
    requires
        function_names_unique(s),
    ensures
        forall|i: int| 0 <= i < s.len() ==> overloads_in(s, (#[trigger] s[i]).name_spec()) == s[i].decls(),
        forall|n: Seq<char>| (forall|i: int| 0 <= i < s.len() ==> (#[trigger] s[i]).name_spec() != n)
            ==> overloads_in(s, n) == Seq::<OverloadDecl<F>>::empty(),
    decreases s.len(),
{
    if s.len() > 0 {
        let p = s.drop_last();
        assert forall|i: int, j: int| 0 <= i < j < p.len() implies (#[trigger] p[i]).name_spec() != (#[trigger] p[j]).name_spec() by {
            assert(p[i] == s[i] && p[j] == s[j]);
        }
        lemma_overloads_in(p);
        assert forall|i: int| 0 <= i < s.len() implies overloads_in(s, (#[trigger] s[i]).name_spec()) == s[i].decls() by {
            if i < s.len() - 1 {
                assert(p[i] == s[i]);
            }
        }
        assert forall|n: Seq<char>| (forall|i: int| 0 <= i < s.len() ==> (#[trigger] s[i]).name_spec() != n)
            implies overloads_in(s, n) == Seq::<OverloadDecl<F>>::empty() by {
            assert(s[s.len() - 1].name_spec() != n);
            assert forall|i: int| 0 <= i < p.len() implies (#[trigger] p[i]).name_spec() != n by {
                assert(p[i] == s[i]);
            }
            assert(overloads_in(s, n) == overloads_in(p, n));
        }
    }
}

/// Replacing the function at `i` with one of the same name changes the
/// overloads of that name only.
proof fn lemma_overloads_update<F>(s: Seq<FunctionDecl<F>>, i: int, d: FunctionDecl<F>)
    requires
        function_names_unique(s),
        0 <= i < s.len(),
        d.name_spec() == s[i].name_spec(),
    ensures
        function_names_unique(s.update(i, d)),
        overloads_in(s.update(i, d), d.name_spec()) == d.decls(),
        forall|n: Seq<char>| n != d.name_spec() ==> overloads_in(s.update(i, d), n) == overloads_in(s, n),
{
    let t = s.update(i, d);
    assert forall|a: int, b: int| 0 <= a < b < t.len() implies (#[trigger] t[a]).name_spec() != (#[trigger] t[b]).name_spec() by {
        assert(t[a].name_spec() == s[a].name_spec() && t[b].name_spec() == s[b].name_spec());
    }
    lemma_overloads_in(s);
    lemma_overloads_in(t);
    assert(t[i] == d);
    assert forall|n: Seq<char>| n != d.name_spec() implies overloads_in(t, n) == overloads_in(s, n) by {
        if exists|k: int| 0 <= k < s.len() && (#[trigger] s[k]).name_spec() == n {
            let k = choose|k: int| 0 <= k < s.len() && (#[trigger] s[k]).name_spec() == n;
            assert(t[k] == s[k]);
        } else {
            assert forall|k: int| 0 <= k < t.len() implies (#[trigger] t[k]).name_spec() != n by {
                if k != i {
                    assert(t[k] == s[k]);
                }
            }
        }
    }
}

/// An environment: the functions with their overloads, the registered
/// types, and whether a map literal may repeat a key. `F` is the type of
/// the functions' implementations.
pub struct Env<F> {
    functions: Vec<FunctionDecl<F>>,
    types: TypeRegistry,
    error_on_duplicate_map_keys: bool,
}

impl<F> Env<F> {
    #[verifier::type_invariant]
    closed spec fn names_distinct(self) -> bool {
        &&& function_names_unique(self.functions@)
        &&& forall|i: int| 0 <= i < self.functions@.len() ==> overloads_distinct(#[trigger] self.functions@[i].decls())
    }

    /// No overload of a function has the id or the signature of one added
    /// after it.
    proof fn lemma_distinct(self)
        requires
            self.names_distinct(),
        ensures
            forall|n: Seq<char>| overloads_distinct(#[trigger] self.overloads(n)),
    {
        lemma_overloads_in(self.functions@);
        assert forall|n: Seq<char>| overloads_distinct(#[trigger] self.overloads(n)) by {
            if exists|k: int| 0 <= k < self.functions@.len() && (#[trigger] self.functions@[k]).name_spec() == n {
                let k = choose|k: int| 0 <= k < self.functions@.len() && (#[trigger] self.functions@[k]).name_spec() == n;
                assert(self.overloads(n) == self.functions@[k].decls());
            } else {
                assert(self.overloads(n) == Seq::<OverloadDecl<F>>::empty());
            }
        }
    }

    /// The overloads of the function `name`, in the order they were added.
    pub closed spec fn overloads(self, name: Seq<char>) -> Seq<OverloadDecl<F>> {
        overloads_in(self.functions@, name)
    }

    /// The registered types.
    pub closed spec fn registry(self) -> TypeRegistry {
        self.types
    }

    /// Whether a map literal that repeats a key is an error.
    pub closed spec fn errs_on_duplicate_keys(self) -> bool {
        self.error_on_duplicate_map_keys
    }

    /// Where the function `name` stands, if it is declared.
    fn position(&self, name: &str) -> (r: Option<usize>)
        ensures
            r matches Some(i) ==> i < self.functions@.len() && self.functions@[i as int].name_spec() == name@,
            r is None ==> forall|i: int| 0 <= i < self.functions@.len() ==> (#[trigger] self.functions@[i]).name_spec() != name@,
    {
        let mut i: usize = 0;
        while i < self.functions.len()
            invariant
                i <= self.functions@.len(),
                forall|k: int| 0 <= k < i ==> (#[trigger] self.functions@[k]).name_spec() != name@,
            decreases self.functions@.len() - i,
        {
            if str_eq(self.functions[i].name(), name) {
                return Some(i);
            }
            i += 1;
        }
        None
    }

    /// Adds the overload `id` of the global function `name`, taking
    /// arguments of the types `args`, implemented by `op`; afterwards
    /// [`Env::find_overload`] finds `op` for `name` and `args`.
    ///
    /// Fails with [`DeclarationError::DuplicateOverload`], and changes
    /// nothing, where an overload of `name` has the id already, or is a
    /// global one taking arguments of the same types.
    pub fn add_overload(&mut self, name: &str, id: &str, args: Vec<Type>, op: F) -> (r: Result<(), DeclarationError>)
        ensures
            r is Err <==> exists|i: int| 0 <= i < old(self).overloads(name@).len()
                && clashes(#[trigger] old(self).overloads(name@)[i], id@, false, args@),
            r matches Err(e) ==> (e matches DeclarationError::DuplicateOverload { function: f, id: i } && f@ == name@ && i@ == id@),
            r is Err ==> forall|n: Seq<char>| final(self).overloads(n) == old(self).overloads(n),
            r is Ok ==> final(self).overloads(name@).drop_last() == old(self).overloads(name@),
            r is Ok ==> final(self).overloads(name@).len() == old(self).overloads(name@).len() + 1,
            r is Ok ==> final(self).overloads(name@).last().id_spec() == id@,
            r is Ok ==> !final(self).overloads(name@).last().member(),
            r is Ok ==> final(self).overloads(name@).last().args() == args@,
            r is Ok ==> final(self).overloads(name@).last().op_spec() == op,
            r is Ok ==> first_with(final(self).overloads(name@), false, args@) == Some(op),
            forall|n: Seq<char>| n != name@ ==> final(self).overloads(n) == old(self).overloads(n),
            forall|n: Seq<char>| overloads_distinct(#[trigger] final(self).overloads(n)),
            final(self).registry() == old(self).registry(),
            final(self).errs_on_duplicate_keys() == old(self).errs_on_duplicate_keys(),
    {
        let r = self.declare(name, id, false, args, op);
        proof {
            use_type_invariant(&*self);
            self.lemma_distinct();
        }
        r
    }

    /// The implementation of the global overload of `name` taking arguments
    /// of the types `args`, if there is one.
    pub fn find_overload(&self, name: &str, args: &[Type]) -> (r: Option<F>)
        where
            F: Copy,
        ensures
            r == first_with(self.overloads(name@), false, args@),
    {
        proof {
            use_type_invariant(self);
            lemma_overloads_in(self.functions@);
        }
        match self.position(name) {
            None => None,
            Some(i) => self.functions[i].find_overload(false, args),
        }
    }

    /// Whether `name` has a global overload.
    pub fn has_overload(&self, name: &str) -> (r: bool)
        ensures
            r == exists|i: int| 0 <= i < self.overloads(name@).len() && !(#[trigger] self.overloads(name@)[i]).member(),
    {
        proof {
            use_type_invariant(self);
            lemma_overloads_in(self.functions@);
        }
        match self.position(name) {
            None => {
                assert(self.overloads(name@) == Seq::<OverloadDecl<F>>::empty());
                false
            },
            Some(i) => {
                assert(self.overloads(name@) == self.functions@[i as int].decls());
                self.functions[i].has_overload(false)
            },
        }
    }

    /// Adds the overload `id` of the method `name`, called on a receiver of
    /// the type `target` with arguments of the types `args`, implemented by
    /// `op`; its signature is the receiver's type followed by `args`.
    ///
    /// Fails with [`DeclarationError::DuplicateOverload`], and changes
    /// nothing, where an overload of `name` has the id already, or is a
    /// method of the same signature.
    pub fn add_member_overload(&mut self, name: &str, id: &str, target: Type, args: Vec<Type>, op: F) -> (r: Result<(), DeclarationError>)
        ensures
            r is Err <==> exists|i: int| 0 <= i < old(self).overloads(name@).len()
                && clashes(#[trigger] old(self).overloads(name@)[i], id@, true, seq![target] + args@),
            r matches Err(e) ==> (e matches DeclarationError::DuplicateOverload { function: f, id: i } && f@ == name@ && i@ == id@),
            r is Err ==> forall|n: Seq<char>| final(self).overloads(n) == old(self).overloads(n),
            r is Ok ==> final(self).overloads(name@).drop_last() == old(self).overloads(name@),
            r is Ok ==> final(self).overloads(name@).len() == old(self).overloads(name@).len() + 1,
            r is Ok ==> final(self).overloads(name@).last().id_spec() == id@,
            r is Ok ==> final(self).overloads(name@).last().member(),
            r is Ok ==> final(self).overloads(name@).last().args() == seq![target] + args@,
            r is Ok ==> final(self).overloads(name@).last().op_spec() == op,
            r is Ok ==> first_with(final(self).overloads(name@), true, seq![target] + args@) == Some(op),
            forall|n: Seq<char>| n != name@ ==> final(self).overloads(n) == old(self).overloads(n),
            forall|n: Seq<char>| overloads_distinct(#[trigger] final(self).overloads(n)),
            final(self).registry() == old(self).registry(),
            final(self).errs_on_duplicate_keys() == old(self).errs_on_duplicate_keys(),
    {
        let mut args = args;
        let ghost given = args@;
        args.insert(0, target);
        assert(args@ == seq![target] + given);
        let r = self.declare(name, id, true, args, op);
        proof {
            use_type_invariant(&*self);
            self.lemma_distinct();
        }
        r
    }

    /// The implementation of the method overload of `name` whose receiver
    /// and arguments are of the types `args`, receiver first, if there is
    /// one.
    pub fn find_member_overload(&self, name: &str, args: &[Type]) -> (r: Option<F>)
        where
            F: Copy,
        ensures
            r == first_with(self.overloads(name@), true, args@),
    {
        proof {
            use_type_invariant(self);
            lemma_overloads_in(self.functions@);
        }
        match self.position(name) {
            None => None,
            Some(i) => self.functions[i].find_overload(true, args),
        }
    }

    /// Whether `name` has a method overload.
    pub fn has_member_overload(&self, name: &str) -> (r: bool)
        ensures
            r == exists|i: int| 0 <= i < self.overloads(name@).len() && (#[trigger] self.overloads(name@)[i]).member(),
    {
        proof {
            use_type_invariant(self);
            lemma_overloads_in(self.functions@);
        }
        match self.position(name) {
            None => {
                assert(self.overloads(name@) == Seq::<OverloadDecl<F>>::empty());
                false
            },
            Some(i) => {
                assert(self.overloads(name@) == self.functions@[i as int].decls());
                self.functions[i].has_overload(true)
            },
        }
    }

    /// Registers a type, so that expressions can refer to it by name, as
    /// [`TypeRegistry::register`] does.
    pub fn add_type(&mut self, t: Type) -> (r: Result<(), DeclarationError>)
        ensures
            !qualified_ident(t.name_spec()) ==> (r matches Err(DeclarationError::InvalidTypeName(n)) && n@ == t.name_spec()),
            qualified_ident(t.name_spec()) && old(self).registry().types_map().contains_key(t.name_spec())
                && old(self).registry().types_map()[t.name_spec()].same(t) ==> r is Ok,
            qualified_ident(t.name_spec()) && old(self).registry().types_map().contains_key(t.name_spec())
                && !old(self).registry().types_map()[t.name_spec()].same(t) ==> (r matches Err(DeclarationError::TypeConflict(n)) && n@ == t.name_spec()),
            qualified_ident(t.name_spec()) && !old(self).registry().types_map().contains_key(t.name_spec()) ==> r is Ok
                && final(self).registry().types_map() == old(self).registry().types_map().insert(t.name_spec(), t),
            old(self).registry().types_map().contains_key(t.name_spec()) || r is Err
                ==> final(self).registry().types_map() == old(self).registry().types_map(),
            forall|n: Seq<char>| final(self).overloads(n) == old(self).overloads(n),
            final(self).errs_on_duplicate_keys() == old(self).errs_on_duplicate_keys(),
    {
        proof {
            use_type_invariant(&*self);
        }
        let mut types = TypeRegistry::new();
        std::mem::swap(&mut types, &mut self.types);
        let r = types.register(t);
        self.types = types;
        r
    }

    /// The registered types.
    pub fn types(&self) -> (r: &TypeRegistry)
        ensures
            *r == self.registry(),
    {
        &self.types
    }

    /// Sets whether a map literal that repeats a key is an error; where it
    /// is not, the last entry of the key wins.
    pub fn set_error_on_duplicate_map_keys(&mut self, value: bool)
        ensures
            final(self).errs_on_duplicate_keys() == value,
            final(self).registry() == old(self).registry(),
            forall|n: Seq<char>| final(self).overloads(n) == old(self).overloads(n),
    {
        proof {
            use_type_invariant(&*self);
        }
        self.error_on_duplicate_map_keys = value;
    }

    /// Whether a map literal that repeats a key is an error.
    pub fn error_on_duplicate_map_keys(&self) -> (r: bool)
        ensures
            r == self.errs_on_duplicate_keys(),
    {
        self.error_on_duplicate_map_keys
    }

    /// Declares the overload `id` of the function `name`, called as a
    /// method where `member_function` holds, with arguments of the types
    /// `args`, implemented by `op`. Fails with
    /// [`DeclarationError::DuplicateOverload`], and changes nothing, where
    /// an overload of `name` has the id, or the signature, already.
    fn declare(&mut self, name: &str, id: &str, member_function: bool, args: Vec<Type>, op: F) -> (r: Result<(), DeclarationError>)
        ensures
            r is Err <==> exists|i: int| 0 <= i < old(self).overloads(name@).len()
                && clashes(#[trigger] old(self).overloads(name@)[i], id@, member_function, args@),
            r matches Err(e) ==> (e matches DeclarationError::DuplicateOverload { function: f, id: i } && f@ == name@ && i@ == id@),
            r is Err ==> forall|n: Seq<char>| final(self).overloads(n) == old(self).overloads(n),
            r is Ok ==> final(self).overloads(name@).drop_last() == old(self).overloads(name@),
            r is Ok ==> final(self).overloads(name@).len() == old(self).overloads(name@).len() + 1,
            r is Ok ==> final(self).overloads(name@).last().id_spec() == id@,
            r is Ok ==> final(self).overloads(name@).last().member() == member_function,
            r is Ok ==> final(self).overloads(name@).last().args() == args@,
            r is Ok ==> final(self).overloads(name@).last().op_spec() == op,
            r is Ok ==> first_with(final(self).overloads(name@), member_function, args@) == Some(op),
            forall|n: Seq<char>| n != name@ ==> final(self).overloads(n) == old(self).overloads(n),
            final(self).registry() == old(self).registry(),
            final(self).errs_on_duplicate_keys() == old(self).errs_on_duplicate_keys(),
    {
        proof {
            use_type_invariant(&*self);
            lemma_overloads_in(self.functions@);
        }
        let ghost args_view = args@;
        let ghost before = self.overloads(name@);
        match self.position(name) {
            None => {
                let mut d: FunctionDecl<F> = FunctionDecl::new(name);
                let r = d.add_overload(to_string(id), member_function, args, op);
                assert(r is Ok);
                assert(d.decls().drop_last() =~= Seq::<OverloadDecl<F>>::empty());
                let mut fs: Vec<FunctionDecl<F>> = Vec::new();
                std::mem::swap(&mut fs, &mut self.functions);
                let ghost old_fs = fs@;
                fs.push(d);
                proof {
                    assert forall|a: int, b: int| 0 <= a < b < fs@.len() implies (#[trigger] fs@[a]).name_spec() != (#[trigger] fs@[b]).name_spec() by {
                        assert(fs@[a] == old_fs[a]);
                        if b < old_fs.len() {
                            assert(fs@[b] == old_fs[b]);
                        }
                    }
                    assert(fs@.drop_last() == old_fs);
                    lemma_same_types_reflexive(args_view);
                    lemma_found_when_added(Seq::<OverloadDecl<F>>::empty(), d.decls().last(), member_function, args_view);
                    assert(d.decls() == Seq::<OverloadDecl<F>>::empty().push(d.decls().last()));
                }
                self.functions = fs;
                Ok(())
            },
            Some(i) => {
                let mut fs: Vec<FunctionDecl<F>> = Vec::new();
                std::mem::swap(&mut fs, &mut self.functions);
                let ghost old_fs = fs@;
                let mut d = fs.remove(i);
                assert(d == old_fs[i as int]);
                let r = d.add_overload(to_string(id), member_function, args, op);
                fs.insert(i, d);
                proof {
                    assert(fs@ == old_fs.update(i as int, d));
                    lemma_overloads_update(old_fs, i as int, d);
                    if r is Ok {
                        lemma_same_types_reflexive(args_view);
                        assert forall|k: int| 0 <= k < before.len() implies !has_signature(#[trigger] before[k], member_function, args_view) by {
                            assert(!clashes(before[k], id@, member_function, args_view));
                        }
                        assert(d.decls() == before.push(d.decls().last()));
                        lemma_found_when_added(before, d.decls().last(), member_function, args_view);
                    }
                }
                self.functions = fs;
                match r {
                    Ok(()) => Ok(()),
                    Err(_) => Err(DeclarationError::duplicate_overload(name, id)),
                }
            },
        }
    }
}

impl<F> Default for Env<F> {
    /// An environment with no functions and no types, where a map literal
    /// that repeats a key is an error.
    fn default() -> (e: Self)
        ensures
            forall|n: Seq<char>| e.overloads(n) == Seq::<OverloadDecl<F>>::empty(),
            forall|n: Seq<char>| overloads_distinct(#[trigger] e.overloads(n)),
            e.registry().types_map() == Map::<Seq<char>, Type>::empty(),
            e.errs_on_duplicate_keys(),
    {
        Env { functions: Vec::new(), types: TypeRegistry::new(), error_on_duplicate_map_keys: true }
    }
}

} // verus!
