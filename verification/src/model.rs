//! The data model shared by the compiler passes.

use vstd::prelude::*;
use crate::position::ParsePosition;
use crate::text::{join, decimal, push_str, push_decimal};

verus! {

/// Kinds of check that can be attached to a value.
#[derive(Clone, Copy, Debug, PartialEq, Eq, Structural)]
pub enum CheckType {
    Length,
    LengthOrInfinite,
    Reference,
    Sum,
}

/// A named check on a value; `force` asks for a runtime check.
#[derive(Clone, Debug)]
pub struct Check {
    pub check_type: CheckType,
    pub name: String,
    pub force: bool,
}

/// Modifiers of a code block.
#[derive(Clone, Debug)]
pub enum CodeModifier {
    World,
    Fold(String),
}

impl CodeModifier {
    /// Whether this is the `world` modifier.
    pub fn is_world(&self) -> (r: bool)
        ensures
            r == (self is World),
    {
        match self {
            CodeModifier::World => true,
            CodeModifier::Fold(_) => false,
        }
    }
}

/// Modifiers of a function or procedure.
#[derive(Clone, Copy, Debug, PartialEq, Eq, Structural)]
pub enum FuncProcModifier {
    Export,
}

/// A variable, optionally qualified by a bundle prefix.
#[derive(Clone, Debug)]
pub struct Variable {
    pub prefix: Option<String>,
    pub name: String,
}

/// Atomic types.
#[derive(Clone, Debug)]
pub enum AtomicTypeSpec {
    Number,
    String,
    Boolean,
    Handle(String),
}

/// The rank of an atomic type in the order of atomic types.
pub open spec fn atomic_rank(a: AtomicTypeSpec) -> usize {
    match a {
        AtomicTypeSpec::Boolean => 0,
        AtomicTypeSpec::Number => 1,
        AtomicTypeSpec::String => 2,
        AtomicTypeSpec::Handle(_) => 3,
    }
}

/// The handle name that breaks ties between handles (empty otherwise).
pub open spec fn atomic_tiebreak(a: AtomicTypeSpec) -> Seq<char> {
    match a {
        AtomicTypeSpec::Handle(s) => s@,
        _ => Seq::empty(),
    }
}

impl AtomicTypeSpec {
    /// The key by which atomic types are ordered: booleans, numbers,
    /// strings, then handles by name.
    pub fn ord_key(&self) -> (r: (usize, &str))
        ensures
            r.0 == atomic_rank(*self),
            r.1@ == atomic_tiebreak(*self),
    {
        proof {
            reveal_strlit("");
        }
        match self {
            AtomicTypeSpec::Boolean => (0, ""),
            AtomicTypeSpec::Number => (1, ""),
            AtomicTypeSpec::String => (2, ""),
            AtomicTypeSpec::Handle(s) => (3, s.as_str()),
        }
    }
}

/// A restriction on the type of a register.
#[derive(Clone, Debug)]
pub enum TypeRestriction {
    Atomic(AtomicTypeSpec),
    Sequence(AtomicTypeSpec),
    AnySequence,
}

/// A declared type: atomic, sequence, or a (sequence) wildcard.
#[derive(Clone, Debug)]
pub enum TypeSpec {
    Atomic(AtomicTypeSpec),
    Sequence(AtomicTypeSpec),
    Wildcard(String),
    SequenceWildcard(String),
}

/// The restriction a declared type places on a value, if any.
pub open spec fn spec_as_restriction(t: TypeSpec) -> Option<TypeRestriction> {
    match t {
        TypeSpec::Atomic(a) => Some(TypeRestriction::Atomic(a)),
        TypeSpec::Sequence(s) => Some(TypeRestriction::Sequence(s)),
        TypeSpec::Wildcard(_) => None,
        TypeSpec::SequenceWildcard(_) => Some(TypeRestriction::AnySequence),
    }
}

impl TypeSpec {
    /// The restriction this declared type places on a value: none for a
    /// plain wildcard, any sequence for a sequence wildcard.
    pub fn as_restriction(&self) -> (r: Option<TypeRestriction>)
        ensures
            r == spec_as_restriction(*self),
    {
        match self {
            TypeSpec::Atomic(a) => Some(TypeRestriction::Atomic(copy_atomic(a))),
            TypeSpec::Sequence(s) => Some(TypeRestriction::Sequence(copy_atomic(s))),
            TypeSpec::Wildcard(_) => None,
            TypeSpec::SequenceWildcard(_) => Some(TypeRestriction::AnySequence),
        }
    }
}

/// A copy of an atomic type.
pub fn copy_atomic(a: &AtomicTypeSpec) -> (r: AtomicTypeSpec)
    ensures
        r == *a,
{
    match a {
        AtomicTypeSpec::Number => AtomicTypeSpec::Number,
        AtomicTypeSpec::String => AtomicTypeSpec::String,
        AtomicTypeSpec::Boolean => AtomicTypeSpec::Boolean,
        AtomicTypeSpec::Handle(h) => AtomicTypeSpec::Handle(h.clone()),
    }
}

/// The declared types and checks of an argument.
#[derive(Clone, Debug)]
pub struct ArgTypeSpec {
    pub arg_types: Vec<TypeSpec>,
    pub checks: Vec<Check>,
}

/// A named, typed argument of a function or procedure.
#[derive(Clone, Debug)]
pub struct TypedArgument {
    pub id: String,
    pub typespec: ArgTypeSpec,
}

/// An opcode with its register arguments.
#[derive(Clone, Debug)]
pub struct Opcode(pub usize, pub Vec<usize>);

/// An argument or result of a code block.
#[derive(Clone, Debug)]
pub struct CodeArgument {
    pub arg_type: TypeSpec,
    pub checks: Vec<Check>,
}

/// A register of a code block implementation.
#[derive(Clone, Debug)]
pub struct CodeImplVariable {
    pub reg_id: usize,
    pub arg_type: TypeSpec,
}

/// A constant. A number is carried as the key under which it is ordered
/// and compared: equal numbers have equal keys and the order of keys is the
/// order of the numbers.
#[derive(Clone, Debug)]
pub enum Constant {
    Number(u64),
    String(String),
    Boolean(bool),
}

/// The atomic type of a constant.
pub open spec fn spec_atomic_type(c: Constant) -> AtomicTypeSpec {
    match c {
        Constant::Number(_) => AtomicTypeSpec::Number,
        Constant::String(_) => AtomicTypeSpec::String,
        Constant::Boolean(_) => AtomicTypeSpec::Boolean,
    }
}

/// The abstract value of a constant.
pub enum ConstantView {
    Number(u64),
    String(Seq<char>),
    Boolean(bool),
}

/// The abstract value of a constant.
pub open spec fn constant_view(c: Constant) -> ConstantView {
    match c {
        Constant::Number(n) => ConstantView::Number(n),
        Constant::String(s) => ConstantView::String(s@),
        Constant::Boolean(b) => ConstantView::Boolean(b),
    }
}

impl Constant {
    /// The atomic type of this constant.
    pub fn to_atomic_type(&self) -> (r: AtomicTypeSpec)
        ensures
            r == spec_atomic_type(*self),
    {
        match self {
            Constant::Number(_) => AtomicTypeSpec::Number,
            Constant::String(_) => AtomicTypeSpec::String,
            Constant::Boolean(_) => AtomicTypeSpec::Boolean,
        }
    }

    /// Whether two constants are equal.
    pub fn same_as(&self, other: &Constant) -> (r: bool)
        ensures
            r == (constant_view(*self) == constant_view(*other)),
    {
        match (self, other) {
            (Constant::Number(a), Constant::Number(b)) => *a == *b,
            (Constant::String(a), Constant::String(b)) => {
                let r = a.eq(b);
                assert(r == (a@ == b@));
                r
            },
            (Constant::Boolean(a), Constant::Boolean(b)) => *a == *b,
            _ => false,
        }
    }
}

/// A copy of a constant.
pub fn copy_constant(c: &Constant) -> (r: Constant)
    ensures
        r == *c,
{
    match c {
        Constant::Number(n) => Constant::Number(*n),
        Constant::String(s) => Constant::String(s.clone()),
        Constant::Boolean(b) => Constant::Boolean(*b),
    }
}

/// An argument of a code block implementation: a register or a constant it
/// must match.
#[derive(Clone, Debug)]
pub enum CodeImplArgument {
    Register(CodeImplVariable),
    Constant(Constant),
}

/// A result of a code block implementation: a fresh register or the repeat
/// of an argument register.
#[derive(Clone, Debug)]
pub enum CodeReturn {
    Register(CodeImplVariable),
    Repeat(usize),
}

/// A constant value, possibly a finite or infinite sequence.
#[derive(Clone, Debug)]
pub enum FullConstant {
    Atomic(Constant),
    Finite(Vec<Constant>),
    Infinite(Constant),
}

/// A value or a bundle.
#[derive(Clone, Debug)]
pub enum OrBundle<T> {
    Normal(T),
    Bundle(String),
}

/// A value, a bundle or a repeater.
#[derive(Clone, Debug)]
pub enum OrBundleRepeater<T> {
    Normal(T),
    Bundle(String),
    Repeater(String),
}

impl<T: Clone> OrBundleRepeater<T> {
    /// Applies `cb` to a normal value, keeping bundles and repeaters.
    pub fn map<F, U>(&self, cb: F) -> (r: OrBundleRepeater<U>)
        where F: FnOnce(&T) -> U,
        requires
            self matches OrBundleRepeater::Normal(n) ==> call_requires(cb, (n,)),
        ensures
            match *self {
                OrBundleRepeater::Normal(n) => r matches OrBundleRepeater::Normal(u)
                    && call_ensures(cb, (&n,), u),
                OrBundleRepeater::Bundle(b) => r == OrBundleRepeater::<U>::Bundle(b),
                OrBundleRepeater::Repeater(x) => r == OrBundleRepeater::<U>::Repeater(x),
            },
    {
        match self {
            OrBundleRepeater::Normal(n) => OrBundleRepeater::Normal(cb(n)),
            OrBundleRepeater::Bundle(b) => OrBundleRepeater::Bundle(b.clone()),
            OrBundleRepeater::Repeater(r) => OrBundleRepeater::Repeater(r.clone()),
        }
    }

    /// Applies a fallible `cb` to a normal value, keeping bundles and
    /// repeaters; an error of `cb` is returned.
    pub fn map_result<F, U, E>(&self, cb: F) -> (r: Result<OrBundleRepeater<U>, E>)
        where F: FnOnce(&T) -> Result<U, E>,
        requires
            self matches OrBundleRepeater::Normal(n) ==> call_requires(cb, (n,)),
        ensures
            match *self {
                OrBundleRepeater::Normal(n) => exists|c: Result<U, E>|
                    call_ensures(cb, (&n,), c) && r == match c {
                        Ok(u) => Ok(OrBundleRepeater::Normal(u)),
                        Err(e) => Err(e),
                    },
                OrBundleRepeater::Bundle(b) => r == Ok::<OrBundleRepeater<U>, E>(OrBundleRepeater::Bundle(b)),
                OrBundleRepeater::Repeater(x) => r == Ok::<OrBundleRepeater<U>, E>(OrBundleRepeater::Repeater(x)),
            },
    {
        match self {
            OrBundleRepeater::Normal(n) => {
                let c = cb(n);
                match c {
                    Ok(u) => Ok(OrBundleRepeater::Normal(u)),
                    Err(e) => Err(e),
                }
            },
            OrBundleRepeater::Bundle(b) => Ok(OrBundleRepeater::Bundle(b.clone())),
            OrBundleRepeater::Repeater(r) => Ok(OrBundleRepeater::Repeater(r.clone())),
        }
    }

    /// Whether this is a repeater.
    pub fn is_repeater(&self) -> (r: bool)
        ensures
            r == (self is Repeater),
    {
        match self {
            OrBundleRepeater::Repeater(_) => true,
            _ => false,
        }
    }

    /// What `no_repeater` answers: a clone of the value, the bundle, or the
    /// error for a repeater.
    pub open spec fn no_repeater_gives(&self, r: Result<OrBundle<T>, String>) -> bool {
        match *self {
            OrBundleRepeater::Normal(n) => r matches Ok(OrBundle::Normal(m)) && cloned(n, m),
            OrBundleRepeater::Bundle(b) => r == Ok::<OrBundle<T>, String>(OrBundle::Bundle(b)),
            OrBundleRepeater::Repeater(_) => r matches Err(e) && e@ == "unexpected repeater"@,
        }
    }

    /// What `skip_repeater` answers: a clone of the value, the bundle, or
    /// nothing for a repeater.
    pub open spec fn skip_repeater_gives(&self, r: Option<OrBundle<T>>) -> bool {
        match *self {
            OrBundleRepeater::Normal(n) => r matches Some(OrBundle::Normal(m)) && cloned(n, m),
            OrBundleRepeater::Bundle(b) => r == Some(OrBundle::<T>::Bundle(b)),
            OrBundleRepeater::Repeater(_) => r is None,
        }
    }

    /// `skip_repeater` is `no_repeater` with its error dropped: given what
    /// each answers for `x`, the first is the `Ok` value of the second, or
    /// `None` where the second fails. Where the value is cloned, this holds
    /// for a type whose clones of one value are equal.
    pub proof fn skip_repeater_is_ok_of_no_repeater(
        x: OrBundleRepeater<T>,
        s: Option<OrBundle<T>>,
        r: Result<OrBundle<T>, String>,
    )
        requires
            x.skip_repeater_gives(s),
            x.no_repeater_gives(r),
            forall|a: T, b: T, c: T| cloned(a, b) && cloned(a, c) ==> b == c,
        ensures
            s == match r {
                Ok(v) => Some(v),
                Err(_) => None::<OrBundle<T>>,
            },
    {
    }

    /// The value or bundle; a repeater is an error.
    pub fn no_repeater(&self) -> (r: Result<OrBundle<T>, String>)
        ensures
            self.no_repeater_gives(r),
    {
        match self {
            OrBundleRepeater::Normal(n) => Ok(OrBundle::Normal(n.clone())),
            OrBundleRepeater::Bundle(b) => Ok(OrBundle::Bundle(b.clone())),
            OrBundleRepeater::Repeater(_) => Err(String::from_str("unexpected repeater")),
        }
    }

    /// The value or bundle; `None` for a repeater.
    pub fn skip_repeater(&self) -> (r: Option<OrBundle<T>>)
        ensures
            self.skip_repeater_gives(r),
    {
        match self {
            OrBundleRepeater::Normal(n) => Some(OrBundle::Normal(n.clone())),
            OrBundleRepeater::Bundle(b) => Some(OrBundle::Bundle(b.clone())),
            OrBundleRepeater::Repeater(_) => None,
        }
    }
}

/// A statement of linearized code.
#[derive(Clone, Debug)]
pub enum LinearStatementValue {
    /// name, register, check type, check index, force
    Check(String, usize, CheckType, usize, bool),
    Constant(usize, Constant),
    /// to, from
    Copy(usize, usize),
    /// call, name, results, arguments
    Code(usize, usize, Vec<usize>, Vec<usize>),
    Type(usize, Vec<TypeRestriction>),
    WildEquiv(Vec<usize>),
}

/// A linearized statement with its source position.
#[derive(Clone, Debug)]
pub struct LinearStatement {
    pub value: LinearStatementValue,
    pub position: ParsePosition,
}

/// An operation after constant folding.
#[derive(Clone, Debug)]
pub enum OperationValue {
    Constant(usize, FullConstant),
    /// call, name, results, arguments
    Code(usize, usize, Vec<usize>, Vec<usize>),
}

/// An operation with its source position.
#[derive(Clone, Debug)]
pub struct Operation {
    pub position: ParsePosition,
    pub value: OperationValue,
}

/// A step of generated code.
#[derive(Clone, Debug)]
pub enum Step {
    Constant(usize, FullConstant),
    Opcode(usize, Vec<usize>),
}

/// Each number written in decimal after `prefix`, joined with `sep`.
pub open spec fn sepfmt_text(items: Seq<usize>, sep: Seq<char>, prefix: Seq<char>) -> Seq<char> {
    join(items.map_values(|x: usize| prefix + decimal(x as nat)), sep)
}

/// Writes each number in decimal after `prefix`, joined with `sep`.
pub fn sepfmt(items: &[usize], sep: &str, prefix: &str) -> (r: String)
    ensures
        r@ == sepfmt_text(items@, sep@, prefix@),
{
    let mut out = String::new();
    let mut i: usize = 0;
    let ghost parts = items@.map_values(|x: usize| prefix@ + decimal(x as nat));
    while i < items.len()
        invariant
            i <= items@.len(),
            parts == items@.map_values(|x: usize| prefix@ + decimal(x as nat)),
            out@ == join(parts.take(i as int), sep@),
        decreases items@.len() - i,
    {
        let ghost before = out@;
        if i > 0 {
            push_str(&mut out, sep);
        }
        push_str(&mut out, prefix);
        push_decimal(&mut out, items[i] as u64);
        i += 1;
        proof {
            assert(parts.take(i as int).drop_last() =~= parts.take(i - 1));
            assert(parts.take(i as int).last() == prefix@ + decimal(items@[i - 1] as nat));
            if i == 1 {
                assert(before =~= Seq::<char>::empty());
                assert(out@ =~= join(parts.take(i as int), sep@));
            } else {
                assert(out@ =~= join(parts.take(i as int), sep@));
            }
        }
    }
    proof {
        assert(parts.take(i as int) =~= parts);
    }
    out
}

/// Whether two full constants hold the same constants.
pub open spec fn same_full(a: FullConstant, b: FullConstant) -> bool {
    match (a, b) {
        (FullConstant::Atomic(x), FullConstant::Atomic(y)) => x == y,
        (FullConstant::Finite(x), FullConstant::Finite(y)) => x@ == y@,
        (FullConstant::Infinite(x), FullConstant::Infinite(y)) => x == y,
        _ => false,
    }
}

/// A copy of a full constant.
pub fn copy_full_constant(c: &FullConstant) -> (r: FullConstant)
    ensures
        same_full(r, *c),
{
    match c {
        FullConstant::Atomic(a) => FullConstant::Atomic(copy_constant(a)),
        FullConstant::Infinite(a) => FullConstant::Infinite(copy_constant(a)),
        FullConstant::Finite(v) => {
            let mut out: Vec<Constant> = Vec::new();
            let mut i: usize = 0;
            while i < v.len()
                invariant
                    i <= v@.len(),
                    out@ == v@.take(i as int),
                decreases v@.len() - i,
            {
                out.push(copy_constant(&v[i]));
                i += 1;
                proof {
                    assert(out@ =~= v@.take(i as int));
                }
            }
            proof {
                assert(v@.take(i as int) =~= v@);
            }
            FullConstant::Finite(out)
        },
    }
}

/// Whether two statement values are the same.
pub open spec fn same_value(a: LinearStatementValue, b: LinearStatementValue) -> bool {
    match (a, b) {
        (LinearStatementValue::Check(n2, r2, ct2, i2, f2), LinearStatementValue::Check(n, r, ct, i, f)) => n2@ == n@
            && r2 == r && ct2 == ct && i2 == i && f2 == f,
        (LinearStatementValue::Constant(r2, c2), LinearStatementValue::Constant(r, c)) => r2 == r && c2 == c,
        (LinearStatementValue::Copy(a2, b2), LinearStatementValue::Copy(a, b)) => a2 == a && b2 == b,
        (LinearStatementValue::Code(a2, b2, r2, s2), LinearStatementValue::Code(a, b, r, s)) => a2 == a && b2 == b
            && r2@ == r@ && s2@ == s@,
        (LinearStatementValue::Type(r2, t2), LinearStatementValue::Type(r, t)) => r2 == r && t2@ == t@,
        (LinearStatementValue::WildEquiv(r2), LinearStatementValue::WildEquiv(r)) => r2@ == r@,
        _ => false,
    }
}

/// A copy of a list of registers.
pub fn copy_registers(v: &Vec<usize>) -> (r: Vec<usize>)
    ensures
        r@ == v@,
{
    let mut r: Vec<usize> = Vec::new();
    let mut i: usize = 0;
    while i < v.len()
        invariant
            i <= v@.len(),
            r@ == v@.take(i as int),
        decreases v@.len() - i,
    {
        r.push(v[i]);
        i += 1;
        proof {
            assert(r@ =~= v@.take(i as int));
        }
    }
    proof {
        assert(v@.take(i as int) =~= v@);
    }
    r
}

/// A copy of a list of type restrictions.
pub fn copy_restrictions(v: &Vec<TypeRestriction>) -> (r: Vec<TypeRestriction>)
    ensures
        r@ == v@,
{
    let mut r: Vec<TypeRestriction> = Vec::new();
    let mut i: usize = 0;
    while i < v.len()
        invariant
            i <= v@.len(),
            r@ == v@.take(i as int),
        decreases v@.len() - i,
    {
        let t = match &v[i] {
            TypeRestriction::Atomic(a) => TypeRestriction::Atomic(copy_atomic(a)),
            TypeRestriction::Sequence(a) => TypeRestriction::Sequence(copy_atomic(a)),
            TypeRestriction::AnySequence => TypeRestriction::AnySequence,
        };
        r.push(t);
        i += 1;
        proof {
            assert(r@ =~= v@.take(i as int));
        }
    }
    proof {
        assert(v@.take(i as int) =~= v@);
    }
    r
}

/// A copy of a statement.
pub fn copy_statement(s: &LinearStatement) -> (r: LinearStatement)
    ensures
        same_value(r.value, s.value),
        r.position.files() == s.position.files(),
        r.position.spec_variety() == s.position.spec_variety(),
{
    let value = match &s.value {
        LinearStatementValue::Check(n, r, ct, i, f) => LinearStatementValue::Check(n.clone(), *r, *ct, *i, *f),
        LinearStatementValue::Constant(r, c) => LinearStatementValue::Constant(*r, copy_constant(c)),
        LinearStatementValue::Copy(a, b) => LinearStatementValue::Copy(*a, *b),
        LinearStatementValue::Code(a, b, r, v) => LinearStatementValue::Code(*a, *b, copy_registers(r), copy_registers(v)),
        LinearStatementValue::Type(r, t) => LinearStatementValue::Type(*r, copy_restrictions(t)),
        LinearStatementValue::WildEquiv(r) => LinearStatementValue::WildEquiv(copy_registers(r)),
    };
    LinearStatement { value, position: s.position.clone() }
}

} // verus!
