//! The written forms of types, checks, arguments and opcodes, as they
//! appear in listings of code.

use vstd::prelude::*;
use crate::model::{
    ArgTypeSpec, AtomicTypeSpec, Check, CheckType, CodeArgument, CodeImplVariable, CodeModifier, CodeReturn, Opcode,
    TypeRestriction, TypeSpec, TypedArgument, Variable, sepfmt, sepfmt_text,
};
use crate::text::{decimal, join, push_decimal, push_str};

verus! {

/// The written form of an atomic type.
pub open spec fn atomic_text(a: AtomicTypeSpec) -> Seq<char> {
    match a {
        AtomicTypeSpec::Number => "number"@,
        AtomicTypeSpec::String => "string"@,
        AtomicTypeSpec::Boolean => "boolean"@,
        AtomicTypeSpec::Handle(h) => "handle("@ + h@ + ")"@,
    }
}

/// The written form of a type restriction.
pub open spec fn restriction_text(t: TypeRestriction) -> Seq<char> {
    match t {
        TypeRestriction::Atomic(v) => atomic_text(v),
        TypeRestriction::Sequence(v) => "seq("@ + atomic_text(v) + ")"@,
        TypeRestriction::AnySequence => "seq"@,
    }
}

/// The written form of a declared type.
pub open spec fn typespec_text(t: TypeSpec) -> Seq<char> {
    match t {
        TypeSpec::Atomic(v) => atomic_text(v),
        TypeSpec::Sequence(v) => "seq("@ + atomic_text(v) + ")"@,
        TypeSpec::Wildcard(v) => "?"@ + v@,
        TypeSpec::SequenceWildcard(v) => "seq(?"@ + v@ + ")"@,
    }
}

/// The written form of a check.
pub open spec fn check_text(c: Check) -> Seq<char> {
    match c.check_type {
        CheckType::Length => "length("@ + c.name@ + ")"@,
        CheckType::LengthOrInfinite => "length("@ + c.name@ + "...)"@,
        CheckType::Reference => "ref("@ + c.name@ + ")"@,
        CheckType::Sum => "total("@ + c.name@ + ")"@,
    }
}

/// The written forms of checks, joined with `sep`.
pub open spec fn checks_text(checks: Seq<Check>, sep: Seq<char>) -> Seq<char> {
    join(checks.map_values(|c: Check| check_text(c)), sep)
}

/// The written forms of declared types, joined with `sep`.
pub open spec fn typespecs_text(types: Seq<TypeSpec>, sep: Seq<char>) -> Seq<char> {
    join(types.map_values(|t: TypeSpec| typespec_text(t)), sep)
}

/// The written form of a code modifier.
pub open spec fn modifier_text(m: CodeModifier) -> Seq<char> {
    match m {
        CodeModifier::World => "world"@,
        CodeModifier::Fold(s) => "fold("@ + s@ + ")"@,
    }
}

/// The written form of a variable: `prefix.name`, or the name alone.
pub open spec fn variable_text(v: Variable) -> Seq<char> {
    match v.prefix {
        Some(p) => p@ + "."@ + v.name@,
        None => v.name@,
    }
}

/// The written form of a register of an implementation: `rN : type`.
pub open spec fn impl_variable_text(v: CodeImplVariable) -> Seq<char> {
    "r"@ + decimal(v.reg_id as nat) + " : "@ + typespec_text(v.arg_type)
}

/// The written form of a result of an implementation.
pub open spec fn code_return_text(r: CodeReturn) -> Seq<char> {
    match r {
        CodeReturn::Register(v) => impl_variable_text(v),
        CodeReturn::Repeat(n) => "r"@ + decimal(n as nat),
    }
}

/// The written form of an argument of a code block: its type, a space and
/// its checks.
pub open spec fn code_argument_text(a: CodeArgument) -> Seq<char> {
    typespec_text(a.arg_type) + " "@ + checks_text(a.checks@, " "@)
}

/// The written form of the type of an argument: its types joined with
/// `|`, then each check after a space.
pub open spec fn argtype_text(a: ArgTypeSpec) -> Seq<char> {
    typespecs_text(a.arg_types@, "|"@) + if a.checks@.len() > 0 {
        " "@ + checks_text(a.checks@, " "@)
    } else {
        Seq::empty()
    }
}

/// The written form of a typed argument: its name, then `: ` and its type
/// when it has types or checks.
pub open spec fn typed_argument_text(t: TypedArgument) -> Seq<char> {
    t.id@ + (if t.typespec.arg_types@.len() > 0 || t.typespec.checks@.len() > 0 {
        ": "@
    } else {
        Seq::empty()
    }) + argtype_text(t.typespec)
}

/// The written form of an opcode: `opcode N, rA, rB;`.
pub open spec fn opcode_text(o: Opcode) -> Seq<char> {
    "opcode "@ + decimal(o.0 as nat) + (if o.1@.len() > 0 {
        ", "@
    } else {
        Seq::empty()
    }) + sepfmt_text(o.1@, ", "@, "r"@) + ";"@
}

fn push_atomic(out: &mut String, a: &AtomicTypeSpec)
    ensures
        final(out)@ == old(out)@ + atomic_text(*a),
{
    proof {
        reveal_strlit("number");
        reveal_strlit("string");
        reveal_strlit("boolean");
        reveal_strlit("handle(");
        reveal_strlit(")");
    }
    match a {
        AtomicTypeSpec::Number => push_str(out, "number"),
        AtomicTypeSpec::String => push_str(out, "string"),
        AtomicTypeSpec::Boolean => push_str(out, "boolean"),
        AtomicTypeSpec::Handle(h) => {
            push_str(out, "handle(");
            push_str(out, h.as_str());
            push_str(out, ")");
            proof {
                assert(final(out)@ =~= old(out)@ + atomic_text(*a));
            }
        },
    }
}

fn push_typespec(out: &mut String, t: &TypeSpec)
    ensures
        final(out)@ == old(out)@ + typespec_text(*t),
{
    proof {
        reveal_strlit("seq(");
        reveal_strlit(")");
        reveal_strlit("?");
        reveal_strlit("seq(?");
    }
    match t {
        TypeSpec::Atomic(v) => push_atomic(out, v),
        TypeSpec::Sequence(v) => {
            push_str(out, "seq(");
            push_atomic(out, v);
            push_str(out, ")");
            proof {
                assert(final(out)@ =~= old(out)@ + typespec_text(*t));
            }
        },
        TypeSpec::Wildcard(v) => {
            push_str(out, "?");
            push_str(out, v.as_str());
            proof {
                assert(final(out)@ =~= old(out)@ + typespec_text(*t));
            }
        },
        TypeSpec::SequenceWildcard(v) => {
            push_str(out, "seq(?");
            push_str(out, v.as_str());
            push_str(out, ")");
            proof {
                assert(final(out)@ =~= old(out)@ + typespec_text(*t));
            }
        },
    }
}

fn push_check(out: &mut String, c: &Check)
    ensures
        final(out)@ == old(out)@ + check_text(*c),
{
    proof {
        reveal_strlit("length(");
        reveal_strlit("ref(");
        reveal_strlit("total(");
        reveal_strlit(")");
        reveal_strlit("...)");
    }
    match c.check_type {
        CheckType::Length => push_str(out, "length("),
        CheckType::LengthOrInfinite => push_str(out, "length("),
        CheckType::Reference => push_str(out, "ref("),
        CheckType::Sum => push_str(out, "total("),
    }
    push_str(out, c.name.as_str());
    match c.check_type {
        CheckType::LengthOrInfinite => push_str(out, "...)"),
        _ => push_str(out, ")"),
    }
    proof {
        assert(final(out)@ =~= old(out)@ + check_text(*c));
    }
}

fn push_checks(out: &mut String, checks: &Vec<Check>, sep: &str)
    ensures
        final(out)@ == old(out)@ + checks_text(checks@, sep@),
{
    let ghost start = out@;
    let ghost parts = checks@.map_values(|c: Check| check_text(c));
    let mut i: usize = 0;
    proof {
        assert(start + join(parts.take(0), sep@) =~= start);
    }
    while i < checks.len()
        invariant
            i <= checks@.len(),
            parts == checks@.map_values(|c: Check| check_text(c)),
            out@ == start + join(parts.take(i as int), sep@),
        decreases checks@.len() - i,
    {
        if i > 0 {
            push_str(out, sep);
        }
        push_check(out, &checks[i]);
        i += 1;
        proof {
            assert(parts.take(i as int).drop_last() =~= parts.take(i - 1));
            if i == 1 {
                assert(join(parts.take(i as int), sep@) == parts[0]);
            }
            assert(out@ =~= start + join(parts.take(i as int), sep@));
        }
    }
    proof {
        assert(parts.take(i as int) =~= parts);
    }
}

fn push_typespecs(out: &mut String, types: &Vec<TypeSpec>, sep: &str)
    ensures
        final(out)@ == old(out)@ + typespecs_text(types@, sep@),
{
    let ghost start = out@;
    let ghost parts = types@.map_values(|t: TypeSpec| typespec_text(t));
    let mut i: usize = 0;
    proof {
        assert(start + join(parts.take(0), sep@) =~= start);
    }
    while i < types.len()
        invariant
            i <= types@.len(),
            parts == types@.map_values(|t: TypeSpec| typespec_text(t)),
            out@ == start + join(parts.take(i as int), sep@),
        decreases types@.len() - i,
    {
        if i > 0 {
            push_str(out, sep);
        }
        push_typespec(out, &types[i]);
        i += 1;
        proof {
            assert(parts.take(i as int).drop_last() =~= parts.take(i - 1));
            if i == 1 {
                assert(join(parts.take(i as int), sep@) == parts[0]);
            }
            assert(out@ =~= start + join(parts.take(i as int), sep@));
        }
    }
    proof {
        assert(parts.take(i as int) =~= parts);
    }
}

impl AtomicTypeSpec {
    /// The written form: `number`, `string`, `boolean` or `handle(name)`.
    pub fn to_text(&self) -> (r: String)
        ensures
            r@ == atomic_text(*self),
    {
        let mut out = String::new();
        push_atomic(&mut out, self);
        out
    }
}

impl TypeRestriction {
    /// The written form: the type, `seq(type)` or `seq`.
    pub fn to_text(&self) -> (r: String)
        ensures
            r@ == restriction_text(*self),
    {
        let mut out = String::new();
        proof {
            reveal_strlit("seq(");
            reveal_strlit(")");
            reveal_strlit("seq");
        }
        match self {
            TypeRestriction::Atomic(v) => push_atomic(&mut out, v),
            TypeRestriction::Sequence(v) => {
                push_str(&mut out, "seq(");
                push_atomic(&mut out, v);
                push_str(&mut out, ")");
                proof {
                    assert(out@ =~= restriction_text(*self));
                }
            },
            TypeRestriction::AnySequence => push_str(&mut out, "seq"),
        }
        out
    }
}

impl TypeSpec {
    /// The written form: the type, `seq(type)`, `?name` or `seq(?name)`.
    pub fn to_text(&self) -> (r: String)
        ensures
            r@ == typespec_text(*self),
    {
        let mut out = String::new();
        push_typespec(&mut out, self);
        out
    }
}

impl Check {
    /// The written form: `length(name)`, `length(name...)`, `ref(name)` or
    /// `total(name)`.
    pub fn to_text(&self) -> (r: String)
        ensures
            r@ == check_text(*self),
    {
        let mut out = String::new();
        push_check(&mut out, self);
        out
    }
}

impl CodeModifier {
    /// The written form: `world` or `fold(name)`.
    pub fn to_text(&self) -> (r: String)
        ensures
            r@ == modifier_text(*self),
    {
        let mut out = String::new();
        proof {
            reveal_strlit("world");
            reveal_strlit("fold(");
            reveal_strlit(")");
        }
        match self {
            CodeModifier::World => push_str(&mut out, "world"),
            CodeModifier::Fold(s) => {
                push_str(&mut out, "fold(");
                push_str(&mut out, s.as_str());
                push_str(&mut out, ")");
                proof {
                    assert(out@ =~= modifier_text(*self));
                }
            },
        }
        out
    }
}

impl Variable {
    /// The written form: `prefix.name`, or the name alone.
    pub fn to_text(&self) -> (r: String)
        ensures
            r@ == variable_text(*self),
    {
        let mut out = String::new();
        proof {
            reveal_strlit(".");
        }
        match &self.prefix {
            Some(p) => {
                push_str(&mut out, p.as_str());
                push_str(&mut out, ".");
            },
            None => {},
        }
        push_str(&mut out, self.name.as_str());
        proof {
            assert(out@ =~= variable_text(*self));
        }
        out
    }
}

impl CodeImplVariable {
    /// The written form: `rN : type`.
    pub fn to_text(&self) -> (r: String)
        ensures
            r@ == impl_variable_text(*self),
    {
        let mut out = String::new();
        proof {
            reveal_strlit("r");
            reveal_strlit(" : ");
        }
        push_str(&mut out, "r");
        push_decimal(&mut out, self.reg_id as u64);
        push_str(&mut out, " : ");
        push_typespec(&mut out, &self.arg_type);
        proof {
            assert(out@ =~= impl_variable_text(*self));
        }
        out
    }
}

impl CodeReturn {
    /// The written form: the register, or `rN` for a repeated argument.
    pub fn to_text(&self) -> (r: String)
        ensures
            r@ == code_return_text(*self),
    {
        match self {
            CodeReturn::Register(v) => v.to_text(),
            CodeReturn::Repeat(n) => {
                let mut out = String::new();
                proof {
                    reveal_strlit("r");
                }
                push_str(&mut out, "r");
                push_decimal(&mut out, *n as u64);
                proof {
                    assert(out@ =~= code_return_text(*self));
                }
                out
            },
        }
    }
}

impl CodeArgument {
    /// The written form: the type, a space and the checks.
    pub fn to_text(&self) -> (r: String)
        ensures
            r@ == code_argument_text(*self),
    {
        let mut out = String::new();
        proof {
            reveal_strlit(" ");
        }
        push_typespec(&mut out, &self.arg_type);
        push_str(&mut out, " ");
        push_checks(&mut out, &self.checks, " ");
        proof {
            assert(out@ =~= code_argument_text(*self));
        }
        out
    }
}

impl ArgTypeSpec {
    /// The written form: the types joined with `|`, then each check after a
    /// space.
    pub fn to_text(&self) -> (r: String)
        ensures
            r@ == argtype_text(*self),
    {
        let mut out = String::new();
        proof {
            reveal_strlit("|");
            reveal_strlit(" ");
        }
        push_typespecs(&mut out, &self.arg_types, "|");
        if self.checks.len() > 0 {
            push_str(&mut out, " ");
            push_checks(&mut out, &self.checks, " ");
        }
        proof {
            assert(out@ =~= argtype_text(*self));
        }
        out
    }
}

impl TypedArgument {
    /// The written form: the name, then `: ` and the type when it has types
    /// or checks.
    pub fn to_text(&self) -> (r: String)
        ensures
            r@ == typed_argument_text(*self),
    {
        let mut out = String::new();
        proof {
            reveal_strlit(": ");
        }
        push_str(&mut out, self.id.as_str());
        if self.typespec.arg_types.len() > 0 || self.typespec.checks.len() > 0 {
            push_str(&mut out, ": ");
        }
        let t = self.typespec.to_text();
        push_str(&mut out, t.as_str());
        proof {
            assert(out@ =~= typed_argument_text(*self));
        }
        out
    }
}

impl Opcode {
    /// The written form: `opcode N, rA, rB;`.
    pub fn to_text(&self) -> (r: String)
        ensures
            r@ == opcode_text(*self),
    {
        let mut out = String::new();
        proof {
            reveal_strlit("opcode ");
            reveal_strlit(", ");
            reveal_strlit("r");
            reveal_strlit(";");
        }
        push_str(&mut out, "opcode ");
        push_decimal(&mut out, self.0 as u64);
        if self.1.len() > 0 {
            push_str(&mut out, ", ");
        }
        let regs = sepfmt(self.1.as_slice(), ", ", "r");
        push_str(&mut out, regs.as_str());
        push_str(&mut out, ";");
        proof {
            assert(out@ =~= opcode_text(*self));
        }
        out
    }
}

} // verus!
