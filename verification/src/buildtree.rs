//! The build tree: the definitions of a program (functions, procedures and
//! code) and its top-level statements, as the front end leaves them.

use vstd::prelude::*;
use vstd::pervasive::unreached;
use crate::codeblocks::{CodeBlock, CodeDefinition};
use crate::model::{ArgTypeSpec, Check, Constant, OrBundle, OrBundleRepeater, TypedArgument, Variable};
use crate::text::{owned, push_decimal, push_str};

verus! {

/// Whether a register holds a value or a bundle.
#[derive(Clone, Copy, Debug, PartialEq, Eq, Structural)]
pub enum BTRegisterType {
    Normal,
    Bundle,
}

/// An expression.
#[derive(Debug)]
pub enum BTExpression {
    Constant(Constant),
    Variable(Variable),
    RegisterValue(usize, BTRegisterType),
    Function(BTFuncCall),
}

/// Something that can be assigned to.
#[derive(Debug)]
pub enum BTLValue {
    Variable(Variable),
    Register(usize, BTRegisterType),
}

/// A call of a procedure, or of nothing (a plain assignment), with what it
/// returns into.
#[derive(Debug)]
pub struct BTProcCall<R> {
    pub proc_index: Option<usize>,
    pub args: Vec<OrBundleRepeater<BTExpression>>,
    pub rets: Option<Vec<R>>,
    pub call_index: usize,
}

/// A call of a function.
#[derive(Debug)]
pub struct BTFuncCall {
    pub func_index: usize,
    pub args: Vec<OrBundleRepeater<BTExpression>>,
    pub call_index: usize,
}

/// What a statement does.
#[derive(Debug)]
pub enum BTStatementValue {
    Define(usize),
    Declare(OrBundleRepeater<Variable>),
    Check(Variable, Check),
    BundledStatement(BTProcCall<OrBundleRepeater<BTLValue>>),
}

/// A statement, with the chain of files and the line it comes from.
#[derive(Debug)]
pub struct BTStatement {
    pub value: BTStatementValue,
    pub file: Vec<String>,
    pub line_no: usize,
}

/// A function or procedure definition.
#[derive(Debug)]
pub struct BTFuncProcDefinition {
    pub position: (Vec<String>, usize),
    pub args: Vec<OrBundle<TypedArgument>>,
    pub captures: Vec<OrBundle<Variable>>,
    pub block: Vec<BTStatement>,
    pub ret: Vec<OrBundle<BTExpression>>,
    pub ret_type: Option<Vec<ArgTypeSpec>>,
}

/// Whether a definition is a function or a procedure.
#[derive(Clone, Copy, Debug, PartialEq, Eq, Structural)]
pub enum BTDefinitionVariety {
    Func,
    Proc,
}

/// A definition.
#[derive(Debug)]
pub enum BTDefinition {
    Func(BTFuncProcDefinition),
    Proc(BTFuncProcDefinition),
    Code(CodeDefinition),
}

/// A definition seen from outside: a function or procedure, or code.
pub enum BTTopDefn<'a> {
    FuncProc(&'a BTFuncProcDefinition),
    Code(&'a CodeDefinition),
}

/// The code definition held by `d`, when it is one.
pub open spec fn code_of(d: BTDefinition) -> CodeDefinition {
    match d {
        BTDefinition::Code(c) => c,
        _ => arbitrary(),
    }
}

/// The text `file:line` of a definition's position: the innermost file,
/// or `*anon*`.
pub open spec fn at_text(file: Seq<String>, line_no: usize) -> Seq<char> {
    (if file.len() > 0 {
        file.last()@
    } else {
        "*anon*"@
    }) + ":"@ + crate::text::decimal(line_no as nat)
}

impl BTFuncProcDefinition {
    /// Where the definition stands: `file:line`.
    pub fn at(&self) -> (r: String)
        ensures
            r@ == at_text(self.position.0@, self.position.1),
    {
        let n = self.position.0.len();
        let mut out = if n > 0 {
            owned(self.position.0[n - 1].as_str())
        } else {
            owned("*anon*")
        };
        push_str(&mut out, ":");
        push_decimal(&mut out, self.position.1 as u64);
        proof {
            reveal_strlit("*anon*");
            reveal_strlit(":");
        }
        out
    }
}

/// The message for a call of something that is not a function.
pub open spec fn not_function_message() -> Seq<char> {
    "expected function, got non-function"@
}

/// The definitions of a program and its top-level statements.
#[derive(Debug)]
pub struct BuildTree {
    pub statements: Vec<BTStatement>,
    pub definitions: Vec<BTDefinition>,
}

impl BuildTree {
    /// No definitions and no statements.
    pub fn new() -> (r: BuildTree)
        ensures
            r.statements@ == Seq::<BTStatement>::empty(),
            r.definitions@ == Seq::<BTDefinition>::empty(),
    {
        BuildTree { statements: Vec::new(), definitions: Vec::new() }
    }

    /// Adds a definition and returns its index.
    pub fn add_definition(&mut self, defn: BTDefinition) -> (r: usize)
        requires
            old(self).definitions@.len() < usize::MAX,
        ensures
            r == old(self).definitions@.len(),
            final(self).definitions@ == old(self).definitions@.push(defn),
            final(self).statements@ == old(self).statements@,
    {
        let id = self.definitions.len();
        self.definitions.push(defn);
        id
    }

    /// Adds a block to the code definition `id`.
    pub fn add_code(&mut self, id: usize, block: CodeBlock) -> (r: Result<(), String>)
        requires
            id < old(self).definitions@.len(),
            old(self).definitions@[id as int] is Code,
        ensures
            final(self).statements@ == old(self).statements@,
            final(self).definitions@.len() == old(self).definitions@.len(),
            forall|i: int| 0 <= i < old(self).definitions@.len() && i != id ==> #[trigger] final(self).definitions@[i]
                == old(self).definitions@[i],
            final(self).definitions@[id as int] is Code,
            ({
                let c0 = code_of(old(self).definitions@[id as int]);
                let c1 = code_of(final(self).definitions@[id as int]);
                match c0.spec_ret_count() {
                    Some(n) if n != block.results@.len() => {
                        &&& r matches Err(e) && e@ == crate::codeblocks::ret_count_message(block.results@.len() as usize, n)
                        &&& c1.blocks() == c0.blocks()
                        &&& c1.spec_ret_count() == c0.spec_ret_count()
                    },
                    _ => {
                        &&& r is Ok
                        &&& c1.blocks() == c0.blocks().push(block)
                        &&& c1.spec_ret_count() == Some(block.results@.len() as usize)
                    },
                }
            }),
    {
        let ghost before = self.definitions@;
        let r = match &mut self.definitions[id] {
            BTDefinition::Code(c) => c.add(block),
            _ => unreached(),
        };
        proof {
            assert forall|i: int| 0 <= i < before.len() && i != id implies #[trigger] self.definitions@[i] == before[i] by {}
        }
        r
    }

    /// Adds a top-level statement.
    pub fn add_statement(&mut self, stmt: BTStatement)
        ensures
            final(self).statements@ == old(self).statements@.push(stmt),
            final(self).definitions@ == old(self).definitions@,
    {
        self.statements.push(stmt);
    }

    /// The function that `f` calls; fails when its definition is not a
    /// function.
    pub fn get_function(&self, f: &BTFuncCall) -> (r: Result<&BTFuncProcDefinition, String>)
        requires
            f.func_index < self.definitions@.len(),
        ensures
            match self.definitions@[f.func_index as int] {
                BTDefinition::Func(d) => r == Ok::<&BTFuncProcDefinition, String>(&d),
                _ => r matches Err(e) && e@ == not_function_message(),
            },
    {
        match &self.definitions[f.func_index] {
            BTDefinition::Func(d) => Ok(d),
            _ => {
                proof {
                    reveal_strlit("expected function, got non-function");
                }
                Err(owned("expected function, got non-function"))
            },
        }
    }

    /// The definition `index`, as a function or procedure or as code.
    pub fn get_by_index(&self, index: usize) -> (r: Result<BTTopDefn, String>)
        requires
            index < self.definitions@.len(),
        ensures
            match self.definitions@[index as int] {
                BTDefinition::Func(d) => r matches Ok(BTTopDefn::FuncProc(x)) && *x == d,
                BTDefinition::Proc(d) => r matches Ok(BTTopDefn::FuncProc(x)) && *x == d,
                BTDefinition::Code(c) => r matches Ok(BTTopDefn::Code(x)) && *x == c,
            },
    {
        match &self.definitions[index] {
            BTDefinition::Proc(p) => Ok(BTTopDefn::FuncProc(p)),
            BTDefinition::Func(f) => Ok(BTTopDefn::FuncProc(f)),
            BTDefinition::Code(c) => Ok(BTTopDefn::Code(c)),
        }
    }

    /// The definition a call names, if it names one.
    pub fn get_any(&self, p: &BTProcCall<OrBundleRepeater<BTLValue>>) -> (r: Result<Option<BTTopDefn>, String>)
        requires
            p.proc_index matches Some(i) ==> i < self.definitions@.len(),
        ensures
            match p.proc_index {
                None => r matches Ok(None),
                Some(i) => match self.definitions@[i as int] {
                    BTDefinition::Func(d) => r matches Ok(Some(BTTopDefn::FuncProc(x))) && *x == d,
                    BTDefinition::Proc(d) => r matches Ok(Some(BTTopDefn::FuncProc(x))) && *x == d,
                    BTDefinition::Code(c) => r matches Ok(Some(BTTopDefn::Code(x))) && *x == c,
                },
            },
    {
        match p.proc_index {
            None => Ok(None),
            Some(i) => match self.get_by_index(i) {
                Ok(d) => Ok(Some(d)),
                Err(e) => Err(e),
            },
        }
    }

    /// The block `index` of the code definition `name`.
    pub fn get_block(&self, name: usize, index: usize) -> (r: &CodeBlock)
        requires
            name < self.definitions@.len(),
            self.definitions@[name as int] is Code,
            index < code_of(self.definitions@[name as int]).blocks().len(),
        ensures
            *r == code_of(self.definitions@[name as int]).blocks()[index as int],
    {
        match self.get_by_index(name) {
            Ok(BTTopDefn::Code(c)) => c.get_block(index),
            _ => unreached(),
        }
    }
}

/// The abstract value of an expression, with the arguments of its calls
/// as sequences.
pub enum ExprView {
    Constant(Constant),
    Variable(Variable),
    RegisterValue(usize, BTRegisterType),
    Function(usize, Seq<OrBundleRepeater<ExprView>>, usize),
}

/// The abstract value of what a statement does.
pub enum StmtValueView {
    Define(usize),
    Declare(OrBundleRepeater<Variable>),
    Check(Variable, Check),
    /// The called definition, the arguments, what it returns into and the
    /// call's number.
    Bundled(Option<usize>, Seq<OrBundleRepeater<ExprView>>, Option<Seq<OrBundleRepeater<BTLValue>>>, usize),
}

/// The abstract value of a statement: what it does, the chain of files and
/// the line it comes from.
pub struct StmtView {
    pub value: StmtValueView,
    pub file: Seq<String>,
    pub line_no: usize,
}

/// The abstract value of an expression.
pub open spec fn expr_view(e: BTExpression) -> ExprView
    decreases e,
{
    match e {
        BTExpression::Constant(c) => ExprView::Constant(c),
        BTExpression::Variable(v) => ExprView::Variable(v),
        BTExpression::RegisterValue(r, t) => ExprView::RegisterValue(r, t),
        BTExpression::Function(f) => ExprView::Function(f.func_index, args_view(f.args@), f.call_index),
    }
}

/// The abstract value of an argument.
pub open spec fn arg_view(a: OrBundleRepeater<BTExpression>) -> OrBundleRepeater<ExprView>
    decreases a,
{
    match a {
        OrBundleRepeater::Normal(x) => OrBundleRepeater::Normal(expr_view(x)),
        OrBundleRepeater::Bundle(b) => OrBundleRepeater::Bundle(b),
        OrBundleRepeater::Repeater(r) => OrBundleRepeater::Repeater(r),
    }
}

/// The abstract values of arguments.
pub open spec fn args_view(s: Seq<OrBundleRepeater<BTExpression>>) -> Seq<OrBundleRepeater<ExprView>>
    decreases s,
{
    if s.len() == 0 {
        Seq::empty()
    } else {
        args_view(s.drop_last()).push(arg_view(s.last()))
    }
}

/// The abstract value of what a statement does.
pub open spec fn stmt_value_view(v: BTStatementValue) -> StmtValueView {
    match v {
        BTStatementValue::Define(d) => StmtValueView::Define(d),
        BTStatementValue::Declare(d) => StmtValueView::Declare(d),
        BTStatementValue::Check(x, c) => StmtValueView::Check(x, c),
        BTStatementValue::BundledStatement(p) => StmtValueView::Bundled(
            p.proc_index,
            args_view(p.args@),
            match p.rets {
                Some(r) => Some(r@),
                None => None,
            },
            p.call_index,
        ),
    }
}

/// The abstract value of a statement.
pub open spec fn stmt_view(s: BTStatement) -> StmtView {
    StmtView { value: stmt_value_view(s.value), file: s.file@, line_no: s.line_no }
}

/// The abstract values of statements.
pub open spec fn stmts_view(s: Seq<BTStatement>) -> Seq<StmtView> {
    s.map_values(|x: BTStatement| stmt_view(x))
}

} // verus!
