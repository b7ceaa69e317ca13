//! The overloads a function is declared with.

use vstd::prelude::*;
use crate::common::types::Type;
use crate::text::{str_eq, to_string};
use crate::DeclarationError;

verus! {

/// Whether the types `a` agree one for one with the types `b`.
pub open spec fn same_types(a: Seq<Type>, b: Seq<Type>) -> bool {
    a.len() == b.len() && forall|i: int| 0 <= i < a.len() ==> (#[trigger] a[i]).same(b[i])
}

/// Every sequence of types agrees with itself.
pub proof fn lemma_same_types_reflexive(a: Seq<Type>)
    ensures
        same_types(a, a),
{
    assert forall|i: int| 0 <= i < a.len() implies (#[trigger] a[i]).same(a[i]) by {
        Type::lemma_same_reflexive(a[i]);
    }
}

/// One overload of a function: its id, whether it is called as a method,
/// the types of its arguments (the receiver's first for a method), and its
/// implementation.
pub struct OverloadDecl<F> {
    pub id: String,
    arg_types: Vec<Type>,
    member_function: bool,
    op: F,
}

impl<F> OverloadDecl<F> {
    pub closed spec fn id_spec(self) -> Seq<char> {
        self.id@
    }

    pub closed spec fn member(self) -> bool {
        self.member_function
    }

    pub closed spec fn args(self) -> Seq<Type> {
        self.arg_types@
    }

    pub closed spec fn op_spec(self) -> F {
        self.op
    }
}

/// Whether `o` is called the way `member` says, with arguments of the types
/// `args`.
pub open spec fn has_signature<F>(o: OverloadDecl<F>, member: bool, args: Seq<Type>) -> bool {
    o.member() == member && same_types(o.args(), args)
}

/// Whether `o` has the id `id`, or the signature of `member` and `args`.
pub open spec fn clashes<F>(o: OverloadDecl<F>, id: Seq<char>, member: bool, args: Seq<Type>) -> bool {
    o.id_spec() == id || has_signature(o, member, args)
}

/// Whether no overload of `s` has the id or the signature of one declared
/// after it.
pub open spec fn overloads_distinct<F>(s: Seq<OverloadDecl<F>>) -> bool {
    forall|i: int, j: int| 0 <= i < j < s.len() ==> !clashes(#[trigger] s[i], (#[trigger] s[j]).id_spec(), s[j].member(), s[j].args())
}

/// The implementation of the first overload of `s` with the signature of
/// `member` and `args`, if one has it.
pub open spec fn first_with<F>(s: Seq<OverloadDecl<F>>, member: bool, args: Seq<Type>) -> Option<F>
    decreases s.len(),
{
    if s.len() == 0 {
        None
    } else if has_signature(s[0], member, args) {
        Some(s[0].op_spec())
    } else {
        first_with(s.drop_first(), member, args)
    }
}

/// A function and the overloads it is declared with.
pub struct FunctionDecl<F> {
    pub name: String,
    overloads: Vec<OverloadDecl<F>>,
}

impl<F> FunctionDecl<F> {
    /// The name of the function.
    pub closed spec fn name_spec(self) -> Seq<char> {
        self.name@
    }

    /// The overloads, in the order they were declared.
    pub closed spec fn decls(self) -> Seq<OverloadDecl<F>> {
        self.overloads@
    }

    /// A function with no overloads.
    pub fn new(name: &str) -> (d: FunctionDecl<F>)
        ensures
            d.name_spec() == name@,
            d.decls() == Seq::<OverloadDecl<F>>::empty(),
    {
        FunctionDecl { name: to_string(name), overloads: Vec::new() }
    }

    /// The name of the function.
    pub fn name(&self) -> (s: &str)
        ensures
            s@ == self.name_spec(),
    {
        self.name.as_str()
    }

    /// Whether `a` and `b` are types that agree one for one.
    fn same_arg_types(a: &[Type], b: &[Type]) -> (r: bool)
        ensures
            r == same_types(a@, b@),
    {
        if a.len() != b.len() {
            return false;
        }
        let mut i: usize = 0;
        while i < a.len()
            invariant
                a@.len() == b@.len(),
                i <= a@.len(),
                forall|k: int| 0 <= k < i ==> (#[trigger] a@[k]).same(b@[k]),
            decreases a@.len() - i,
        {
            if !a[i].equals(&b[i]) {
                return false;
            }
            i += 1;
        }
        true
    }

    /// The implementation of the overload called the way `member_function`
    /// says with arguments of the types `arg_types`, if there is one.
    pub fn find_overload(&self, member_function: bool, arg_types: &[Type]) -> (r: Option<F>)
        where
            F: Copy,
        ensures
            r == first_with(self.decls(), member_function, arg_types@),
    {
        let mut i: usize = 0;
        assert(self.decls().skip(0) == self.decls());
        while i < self.overloads.len()
            invariant
                i <= self.decls().len(),
                first_with(self.decls(), member_function, arg_types@)
                    == first_with(self.decls().skip(i as int), member_function, arg_types@),
            decreases self.decls().len() - i,
        {
            let o = &self.overloads[i];
            assert(self.decls().skip(i as int).drop_first() == self.decls().skip(i + 1));
            assert(self.decls().skip(i as int)[0] == *o);
            if o.member_function == member_function && Self::same_arg_types(o.arg_types.as_slice(), arg_types) {
                return Some(o.op);
            }
            i += 1;
        }
        None
    }

    /// Whether an overload has the id `id`, or the signature of
    /// `member_function` and `arg_types`.
    fn is_present(&self, id: &str, member_function: bool, arg_types: &[Type]) -> (r: bool)
        ensures
            r == exists|i: int| 0 <= i < self.decls().len() && clashes(#[trigger] self.decls()[i], id@, member_function, arg_types@),
    {
        let mut i: usize = 0;
        while i < self.overloads.len()
            invariant
                i <= self.decls().len(),
                forall|k: int| 0 <= k < i ==> !clashes(#[trigger] self.decls()[k], id@, member_function, arg_types@),
            decreases self.decls().len() - i,
        {
            let o = &self.overloads[i];
            if str_eq(o.id.as_str(), id)
                || (o.member_function == member_function && Self::same_arg_types(o.arg_types.as_slice(), arg_types)) {
                assert(clashes(self.decls()[i as int], id@, member_function, arg_types@));
                return true;
            }
            i += 1;
        }
        false
    }

    /// Whether an overload is called the way `member_function` says.
    pub fn has_overload(&self, member_function: bool) -> (r: bool)
        ensures
            r == exists|i: int| 0 <= i < self.decls().len() && (#[trigger] self.decls()[i]).member() == member_function,
    {
        let mut i: usize = 0;
        while i < self.overloads.len()
            invariant
                i <= self.decls().len(),
                forall|k: int| 0 <= k < i ==> (#[trigger] self.decls()[k]).member() != member_function,
            decreases self.decls().len() - i,
        {
            if self.overloads[i].member_function == member_function {
                return true;
            }
            i += 1;
        }
        false
    }

    /// Declares an overload. Fails with
    /// [`DeclarationError::DuplicateOverload`], and changes nothing, where an
    /// overload has the id already, or the signature.
    pub fn add_overload(&mut self, id: String, member_function: bool, arg_types: Vec<Type>, op: F) -> (r: Result<(), DeclarationError>)
        ensures
            final(self).name_spec() == old(self).name_spec(),
            r is Err <==> exists|i: int| 0 <= i < old(self).decls().len()
                && clashes(#[trigger] old(self).decls()[i], id@, member_function, arg_types@),
            r matches Err(e) ==> (e matches DeclarationError::DuplicateOverload { function: f, id: i } && f@ == old(self).name_spec() && i@ == id@),
            r is Err ==> final(self).decls() == old(self).decls(),
            r is Ok ==> final(self).decls().len() == old(self).decls().len() + 1,
            r is Ok ==> final(self).decls().drop_last() == old(self).decls(),
            r is Ok ==> final(self).decls().last().id_spec() == id@,
            r is Ok ==> final(self).decls().last().member() == member_function,
            r is Ok ==> final(self).decls().last().args() == arg_types@,
            r is Ok ==> final(self).decls().last().op_spec() == op,
    {
        if self.is_present(id.as_str(), member_function, arg_types.as_slice()) {
            return Err(DeclarationError::duplicate_overload(self.name.as_str(), id.as_str()));
        }
        self.overloads.push(OverloadDecl { id, arg_types, member_function, op });
        assert(self.decls().drop_last() == old(self).decls());
        Ok(())
    }
}

/// Where no overload of `s` has the signature of `member` and `args`, the
/// overload `o` appended with that signature is the one found for it.
pub proof fn lemma_found_when_added<F>(s: Seq<OverloadDecl<F>>, o: OverloadDecl<F>, member: bool, args: Seq<Type>)
    requires
        forall|i: int| 0 <= i < s.len() ==> !has_signature(#[trigger] s[i], member, args),
        has_signature(o, member, args),
    ensures
        first_with(s.push(o), member, args) == Some(o.op_spec()),
    decreases s.len(),
{
    if s.len() == 0 {
        assert(s.push(o)[0] == o);
    } else {
        assert(s.push(o)[0] == s[0]);
        assert(s.push(o).drop_first() == s.drop_first().push(o));
        assert forall|i: int| 0 <= i < s.drop_first().len() implies !has_signature(#[trigger] s.drop_first()[i], member, args) by {
            assert(s.drop_first()[i] == s[i + 1]);
        }
        lemma_found_when_added(s.drop_first(), o, member, args);
    }
}

} // verus!
