//! The parse tree of a program, and error messages located by file name
//! and line.

use vstd::prelude::*;
use crate::text::{join, decimal, owned, push_str, push_decimal};
use crate::codeblocks::CodeBlock;
use crate::model::{ArgTypeSpec, Check, Constant, FuncProcModifier, OrBundle, OrBundleRepeater, TypedArgument, Variable};

verus! {

/// The text of a message located in the last of `files` (or `*anon*` when
/// there are none) at line `line_no`, naming the files it was included
/// from, nearest first.
pub open spec fn at_text(msg: Seq<char>, pos: Option<(Seq<Seq<char>>, usize)>) -> Seq<char> {
    match pos {
        None => msg,
        Some((files, line_no)) => {
            let self_name = if files.len() > 0 { files.last() } else { "*anon*"@ };
            let parents = if files.len() > 0 { files.drop_last().reverse() } else { Seq::empty() };
            let path = if parents.len() > 0 {
                " (included from "@ + join(parents, ", "@) + ")"@
            } else {
                Seq::empty()
            };
            msg + " at "@ + self_name + ":"@ + decimal(line_no as nat) + path
        },
    }
}

/// `msg`, located at the given file chain and line, if any.
pub fn at(msg: &str, pos: Option<(&[String], usize)>) -> (r: String)
    ensures
        r@ == at_text(
            msg@,
            match pos {
                Some((files, line_no)) => Some((files@.map_values(|s: String| s@), line_no)),
                None => None,
            },
        ),
{
    match pos {
        None => owned(msg),
        Some((files, line_no)) => {
            let ghost fv = files@.map_values(|s: String| s@);
            let n = files.len();
            let mut out = owned(msg);
            push_str(&mut out, " at ");
            if n > 0 {
                push_str(&mut out, files[n - 1].as_str());
            } else {
                push_str(&mut out, "*anon*");
            }
            push_str(&mut out, ":");
            push_decimal(&mut out, line_no as u64);
            let ghost head = out@;
            if n > 1 {
                let ghost parents = fv.drop_last().reverse();
                push_str(&mut out, " (included from ");
                let ghost start = out@;
                let mut k: usize = n - 1;
                while k > 0
                    invariant
                        n == files@.len(),
                        fv == files@.map_values(|s: String| s@),
                        parents == fv.drop_last().reverse(),
                        k <= n - 1,
                        out@ == start + join(parents.take(n - 1 - k), ", "@),
                    decreases k,
                {
                    k -= 1;
                    let ghost before = out@;
                    if k < n - 2 {
                        push_str(&mut out, ", ");
                    }
                    push_str(&mut out, files[k].as_str());
                    proof {
                        reveal_strlit(", ");
                        let m = n - 1 - k;
                        assert(parents.take(m).drop_last() =~= parents.take(m - 1));
                        assert(parents.take(m).last() == files@[k as int]@);
                        if m == 1 {
                            assert(before =~= start);
                            assert(out@ =~= start + join(parents.take(m), ", "@));
                        } else {
                            assert(out@ =~= start + join(parents.take(m), ", "@));
                        }
                    }
                }
                push_str(&mut out, ")");
                proof {
                    assert(parents.take(n - 1) =~= parents);
                }
            }
            proof {
                reveal_strlit(" at ");
                reveal_strlit("*anon*");
                reveal_strlit(":");
                reveal_strlit(" (included from ");
                reveal_strlit(")");
                if n > 0 {
                    assert(fv.last() == files@[n - 1]@);
                }
                if n == 1 {
                    assert(fv.drop_last().len() == 0);
                    assert(fv.drop_last().reverse().len() == 0);
                }
                assert(out@ =~= at_text(msg@, Some((fv, line_no))));
            }
            out
        },
    }
}

} // verus!

verus! {

/// A call, by name, of a function, procedure, code block or macro.
#[derive(Debug)]
pub struct PTCall {
    pub name: String,
    pub args: Vec<OrBundleRepeater<PTExpression>>,
    pub is_macro: bool,
}

/// An expression as parsed.
#[derive(Debug)]
pub enum PTExpression {
    Constant(Constant),
    FiniteSequence(Vec<PTExpression>),
    InfiniteSequence(Box<PTExpression>),
    Variable(Variable),
    Infix(Box<PTExpression>, String, Box<PTExpression>),
    Prefix(String, Box<PTExpression>),
    Call(PTCall),
}

/// A function definition as parsed.
#[derive(Debug)]
pub struct PTFuncDef {
    pub name: String,
    pub modifiers: Vec<FuncProcModifier>,
    pub args: Vec<OrBundle<TypedArgument>>,
    pub captures: Vec<OrBundle<Variable>>,
    pub block: Vec<PTStatement>,
    pub value: OrBundle<PTExpression>,
    pub value_type: Option<ArgTypeSpec>,
}

/// A procedure definition as parsed.
#[derive(Debug)]
pub struct PTProcDef {
    pub name: String,
    pub modifiers: Vec<FuncProcModifier>,
    pub args: Vec<OrBundle<TypedArgument>>,
    pub captures: Vec<OrBundle<Variable>>,
    pub block: Vec<PTStatement>,
    pub ret: Vec<OrBundle<PTExpression>>,
    pub ret_type: Option<Vec<ArgTypeSpec>>,
}

/// A statement as parsed, with the chain of files and the line it comes
/// from, and the file context it was read in.
#[derive(Debug)]
pub struct PTStatement {
    pub value: PTStatementValue,
    pub file: Vec<String>,
    pub line_no: usize,
    pub context: usize,
}

/// What a parsed statement does.
#[derive(Debug)]
pub enum PTStatementValue {
    Include(String),
    Flag(String),
    Code(CodeBlock),
    FuncDef(PTFuncDef),
    ProcDef(PTProcDef),
    LetStatement(Vec<OrBundleRepeater<(Variable, Vec<Check>)>>, Vec<OrBundle<PTExpression>>),
    ModifyStatement(Vec<Variable>, Vec<PTExpression>),
    BareCall(PTCall),
}

} // verus!
