//! Building the build tree from the parse tree: definitions are numbered
//! and named per file context, and statements become numbered calls
//! between registers.

use vstd::prelude::*;
use vstd::pervasive::unreached;
use crate::buildtree::{
    BTDefinition, BTDefinitionVariety, BTExpression, BTFuncCall, BTFuncProcDefinition, BTLValue, BTProcCall,
    BTRegisterType, BTStatement, BTStatementValue, BuildTree, ExprView, StmtValueView, StmtView, arg_view, args_view,
    code_of, expr_view, stmt_value_view, stmts_view,
};
use crate::codeblocks::{CodeBlock, CodeDefinition};
use crate::model::{ArgTypeSpec, Check, FuncProcModifier, OrBundle, OrBundleRepeater, TypeSpec, TypedArgument, Variable};
use crate::text::{decimal, owned, push_decimal, push_str, same_text};
use crate::parsetree::{PTCall, PTExpression, PTFuncDef, PTProcDef, PTStatement, PTStatementValue, at, at_text};

verus! {

/// What a name stands for: the index of a function, a procedure or code.
#[derive(Clone, Copy, Debug, PartialEq, Eq, Structural)]
pub enum DefName {
    Func(usize),
    Proc(usize),
    Code(usize),
}

/// The key of a name: its file context (none for exported names) and the
/// name itself.
pub open spec fn name_key(e: (Option<usize>, String, DefName)) -> (Option<usize>, Seq<char>) {
    (e.0, e.1@)
}

/// An index of the key `k` among `l`.
pub open spec fn name_index(l: Seq<(Option<usize>, String, DefName)>, k: (Option<usize>, Seq<char>)) -> int {
    choose|i: int| 0 <= i < l.len() && #[trigger] name_key(l[i]) == k
}

/// The names of `l`, by key.
pub open spec fn names_view(l: Seq<(Option<usize>, String, DefName)>) -> Map<(Option<usize>, Seq<char>), DefName> {
    Map::new(
        |k: (Option<usize>, Seq<char>)| exists|i: int| 0 <= i < l.len() && #[trigger] name_key(l[i]) == k,
        |k: (Option<usize>, Seq<char>)| l[name_index(l, k)].2,
    )
}

/// No key occurs twice in `l`.
pub open spec fn names_wf(l: Seq<(Option<usize>, String, DefName)>) -> bool {
    forall|i: int, j: int| 0 <= i < l.len() && 0 <= j < l.len() && i != j ==> name_key(#[trigger] l[i]) != name_key(
        #[trigger] l[j],
    )
}

proof fn lemma_names_at(l: Seq<(Option<usize>, String, DefName)>, idx: int)
    requires
        names_wf(l),
        0 <= idx < l.len(),
    ensures
        names_view(l).contains_key(name_key(l[idx])),
        names_view(l)[name_key(l[idx])] == l[idx].2,
{
    let k = name_key(l[idx]);
    assert(exists|i: int| 0 <= i < l.len() && #[trigger] name_key(l[i]) == k);
    let j = name_index(l, k);
    assert(0 <= j < l.len() && name_key(l[j]) == k);
}

/// The meaning of `name` under key context `ctx`, if it has one.
fn find_name(l: &Vec<(Option<usize>, String, DefName)>, ctx: Option<usize>, name: &str) -> (r: Option<DefName>)
    requires
        names_wf(l@),
    ensures
        match r {
            Some(d) => names_view(l@).contains_key((ctx, name@)) && names_view(l@)[(ctx, name@)] == d,
            None => !names_view(l@).contains_key((ctx, name@)),
        },
{
    let mut i: usize = 0;
    while i < l.len()
        invariant
            names_wf(l@),
            i <= l@.len(),
            forall|j: int| 0 <= j < i ==> name_key(#[trigger] l@[j]) != (ctx, name@),
        decreases l@.len() - i,
    {
        if l[i].0 == ctx && same_text(&l[i].1, name) {
            proof {
                lemma_names_at(l@, i as int);
            }
            return Some(l[i].2);
        }
        i += 1;
    }
    None
}

/// Gives `name` under key context `ctx` the meaning `d`; it has none yet.
fn insert_name(l: &mut Vec<(Option<usize>, String, DefName)>, ctx: Option<usize>, name: &str, d: DefName)
    requires
        names_wf(old(l)@),
        !names_view(old(l)@).contains_key((ctx, name@)),
    ensures
        names_wf(final(l)@),
        names_view(final(l)@) == names_view(old(l)@).insert((ctx, name@), d),
{
    let ghost before = l@;
    l.push((ctx, owned(name), d));
    proof {
        let after = l@;
        assert forall|i: int, j: int| 0 <= i < after.len() && 0 <= j < after.len() && i != j implies name_key(
            #[trigger] after[i],
        ) != name_key(#[trigger] after[j]) by {
            if i < before.len() && j < before.len() {
                assert(after[i] == before[i] && after[j] == before[j]);
            } else if i < before.len() {
                assert(after[i] == before[i]);
                if name_key(before[i]) == (ctx, name@) {
                    lemma_names_at(before, i);
                }
            } else if j < before.len() {
                assert(after[j] == before[j]);
                if name_key(before[j]) == (ctx, name@) {
                    lemma_names_at(before, j);
                }
            }
        }
        assert forall|k: (Option<usize>, Seq<char>)| #[trigger] names_view(after).contains_key(k) <==> names_view(
            before,
        ).insert((ctx, name@), d).contains_key(k) by {
            if names_view(after).contains_key(k) {
                let i = choose|i: int| 0 <= i < after.len() && #[trigger] name_key(after[i]) == k;
                if i < before.len() {
                    assert(after[i] == before[i]);
                }
            }
            if names_view(before).contains_key(k) {
                let i = choose|i: int| 0 <= i < before.len() && #[trigger] name_key(before[i]) == k;
                assert(after[i] == before[i]);
            }
            if k == (ctx, name@) {
                assert(name_key(after[before.len() as int]) == k);
            }
        }
        assert forall|k: (Option<usize>, Seq<char>)| #[trigger] names_view(after).contains_key(k) implies names_view(after)[k]
            == names_view(before).insert((ctx, name@), d)[k] by {
            let i = choose|i: int| 0 <= i < after.len() && #[trigger] name_key(after[i]) == k;
            lemma_names_at(after, i);
            if i < before.len() {
                assert(after[i] == before[i]);
                lemma_names_at(before, i);
            }
        }
        assert(names_view(after) =~= names_view(before).insert((ctx, name@), d));
    }
}

/// What the builder reads while it builds: the names, the file context
/// and the location of the statement being built.
pub struct BuildEnv {
    pub names: Map<(Option<usize>, Seq<char>), DefName>,
    pub context: usize,
    pub file: Seq<String>,
    pub line_no: usize,
}

/// The meaning of `name` in file context `context`: the name defined in
/// that context, else the exported one.
pub open spec fn lookup_spec(names: Map<(Option<usize>, Seq<char>), DefName>, context: usize, name: Seq<char>) -> Result<DefName, Seq<char>> {
    if names.contains_key((Some(context), name)) {
        Ok(names[(Some(context), name)])
    } else if names.contains_key((None, name)) {
        Ok(names[(None, name)])
    } else {
        Err("No such function/procedure "@ + name)
    }
}

/// The function named `name`.
pub open spec fn lookup_func_spec(env: BuildEnv, name: Seq<char>) -> Result<usize, Seq<char>> {
    match lookup_spec(env.names, env.context, name) {
        Ok(DefName::Func(x)) => Ok(x),
        _ => Err("cannot find function "@ + name),
    }
}

/// The procedure or code named `name`.
pub open spec fn lookup_top_spec(env: BuildEnv, name: Seq<char>) -> Result<usize, Seq<char>> {
    match lookup_spec(env.names, env.context, name) {
        Ok(DefName::Proc(x)) => Ok(x),
        Ok(DefName::Code(x)) => Ok(x),
        _ => Err("cannot find procedure/code "@ + name),
    }
}

/// The count of the types of `spec` of kind `k`: atomic, sequence,
/// wildcard, sequence wildcard.
pub open spec fn kind_count(spec: Seq<TypeSpec>, k: int) -> nat
    decreases spec.len(),
{
    if spec.len() == 0 {
        0
    } else {
        kind_count(spec.drop_last(), k) + if type_kind(spec.last()) == k { 1nat } else { 0nat }
    }
}

/// The kind of a type: atomic, sequence, wildcard, sequence wildcard.
pub open spec fn type_kind(t: TypeSpec) -> int {
    match t {
        TypeSpec::Atomic(_) => 0,
        TypeSpec::Sequence(_) => 1,
        TypeSpec::Wildcard(_) => 2,
        TypeSpec::SequenceWildcard(_) => 3,
    }
}

/// What is wrong with the types of an argument or result, if anything: at
/// most one wildcard, and no sequence wildcard beside a sequence.
pub open spec fn argret_error(spec: Seq<TypeSpec>) -> Option<Seq<char>> {
    if kind_count(spec, 2) + kind_count(spec, 3) > 1 {
        Some("only one wildcard allowed per argument"@)
    } else if kind_count(spec, 3) > 0 && kind_count(spec, 1) > 0 {
        Some("cannot match wild and non-wild sequences in argument"@)
    } else {
        None
    }
}

/// The error of argument `a`, if any.
pub open spec fn arg_error(a: OrBundle<TypedArgument>) -> Option<Seq<char>> {
    match a {
        OrBundle::Normal(n) => argret_error(n.typespec.arg_types@),
        OrBundle::Bundle(_) => None,
    }
}

/// The first error among the arguments `args`, if any.
pub open spec fn args_error(args: Seq<OrBundle<TypedArgument>>) -> Option<Seq<char>>
    decreases args.len(),
{
    if args.len() == 0 {
        None
    } else {
        match args_error(args.drop_last()) {
            Some(e) => Some(e),
            None => arg_error(args.last()),
        }
    }
}

/// The first error among the result types `rets`, if any.
pub open spec fn rets_error(rets: Seq<ArgTypeSpec>) -> Option<Seq<char>>
    decreases rets.len(),
{
    if rets.len() == 0 {
        None
    } else {
        match rets_error(rets.drop_last()) {
            Some(e) => Some(e),
            None => argret_error(rets.last().arg_types@),
        }
    }
}

/// The function or procedure being defined.
pub struct CurrentFuncProcDefinition {
    position: (Vec<String>, usize),
    block: Vec<BTStatement>,
    name: String,
    export: bool,
    args: Vec<OrBundle<TypedArgument>>,
    captures: Vec<OrBundle<Variable>>,
    variety: BTDefinitionVariety,
    ret_type: Option<Vec<ArgTypeSpec>>,
}

/// The first error in the types of arguments and results of a definition,
/// if any.
pub open spec fn funcproc_error(args: Seq<OrBundle<TypedArgument>>, ret_type: Option<Seq<ArgTypeSpec>>) -> Option<Seq<char>> {
    match args_error(args) {
        Some(e) => Some(e),
        None => match ret_type {
            Some(r) => rets_error(r),
            None => None,
        },
    }
}

/// The result types of a definition, as a sequence.
pub open spec fn rt_view(o: Option<Vec<ArgTypeSpec>>) -> Option<Seq<ArgTypeSpec>> {
    match o {
        Some(v) => Some(v@),
        None => None,
    }
}

/// Checks the types of an argument or a result.
fn verify_argret(spec: &Vec<TypeSpec>) -> (r: Result<(), String>)
    ensures
        match argret_error(spec@) {
            None => r is Ok,
            Some(e) => r matches Err(m) && m@ == e,
        },
{
    let mut counts: [usize; 4] = [0, 0, 0, 0];
    let mut i: usize = 0;
    proof {
        assert(spec@.len() == spec.len());
    }
    while i < spec.len()
        invariant
            i <= spec@.len(),
            spec@.len() <= usize::MAX,
            forall|k: int| 0 <= k < 4 ==> #[trigger] counts@[k] == kind_count(spec@.take(i as int), k),
            forall|k: int| 0 <= k < 4 ==> counts@[k] <= i,
        decreases spec@.len() - i,
    {
        let k: usize = match &spec[i] {
            TypeSpec::Atomic(_) => 0,
            TypeSpec::Sequence(_) => 1,
            TypeSpec::Wildcard(_) => 2,
            TypeSpec::SequenceWildcard(_) => 3,
        };
        proof {
            assert(spec@.take(i + 1).drop_last() =~= spec@.take(i as int));
            assert(spec@.take(i + 1).last() == spec@[i as int]);
        }
        let c = counts[k];
        counts.set(k, c + 1);
        i += 1;
    }
    proof {
        assert(spec@.take(i as int) =~= spec@);
    }
    if (counts[2] as u128) + (counts[3] as u128) > 1 {
        proof {
            reveal_strlit("only one wildcard allowed per argument");
        }
        return Err(owned("only one wildcard allowed per argument"));
    }
    if counts[3] > 0 && counts[1] > 0 {
        proof {
            reveal_strlit("cannot match wild and non-wild sequences in argument");
        }
        return Err(owned("cannot match wild and non-wild sequences in argument"));
    }
    Ok(())
}

impl CurrentFuncProcDefinition {
    /// Checks the types of every argument, in order.
    fn verify_args(&self) -> (r: Result<(), String>)
        ensures
            match args_error(self.args@) {
                None => r is Ok,
                Some(e) => r matches Err(m) && m@ == e,
            },
    {
        let mut i: usize = 0;
        while i < self.args.len()
            invariant
                i <= self.args@.len(),
                args_error(self.args@.take(i as int)) is None,
            decreases self.args@.len() - i,
        {
            proof {
                assert(self.args@.take(i + 1).drop_last() =~= self.args@.take(i as int));
                assert(self.args@.take(i + 1).last() == self.args@[i as int]);
            }
            match &self.args[i] {
                OrBundle::Normal(n) => {
                    match verify_argret(&n.typespec.arg_types) {
                        Ok(_) => {},
                        Err(e) => {
                            proof {
                                lemma_first_error_stays(self.args@, i + 1);
                            }
                            return Err(e);
                        },
                    }
                },
                OrBundle::Bundle(_) => {},
            }
            i += 1;
        }
        proof {
            assert(self.args@.take(i as int) =~= self.args@);
        }
        Ok(())
    }

    /// Checks the types of every result, in order.
    fn verify_rets(&self) -> (r: Result<(), String>)
        ensures
            match self.ret_type {
                Some(rt) => match rets_error(rt@) {
                    None => r is Ok,
                    Some(e) => r matches Err(m) && m@ == e,
                },
                None => r is Ok,
            },
    {
        match &self.ret_type {
            None => Ok(()),
            Some(rt) => {
                let mut i: usize = 0;
                while i < rt.len()
                    invariant
                        self.ret_type == Some(*rt),
                        i <= rt@.len(),
                        rets_error(rt@.take(i as int)) is None,
                    decreases rt@.len() - i,
                {
                    proof {
                        assert(rt@.take(i + 1).drop_last() =~= rt@.take(i as int));
                        assert(rt@.take(i + 1).last() == rt@[i as int]);
                    }
                    match verify_argret(&rt[i].arg_types) {
                        Ok(_) => {},
                        Err(e) => {
                            proof {
                                assert(rets_error(rt@.take(i + 1)) == argret_error(rt@[i as int].arg_types@));
                                lemma_first_ret_error_stays(rt@, i + 1);
                                assert(rets_error(rt@) == argret_error(rt@[i as int].arg_types@));
                            }
                            return Err(e);
                        },
                    }
                    i += 1;
                }
                proof {
                    assert(rt@.take(i as int) =~= rt@);
                }
                Ok(())
            },
        }
    }

    /// The definition, with the given results, once the types of its
    /// arguments and results are checked.
    fn to_funcproc(self, ret: Vec<OrBundle<BTExpression>>) -> (r: Result<BTFuncProcDefinition, String>)
        ensures
            match funcproc_error(self.args@, rt_view(self.ret_type)) {
                Some(e) => r matches Err(m) && m@ == e,
                None => r == Ok::<BTFuncProcDefinition, String>(
                    BTFuncProcDefinition {
                        position: self.position,
                        args: self.args,
                        captures: self.captures,
                        block: self.block,
                        ret,
                        ret_type: self.ret_type,
                    },
                ),
            },
    {
        match self.verify_args() {
            Ok(_) => {},
            Err(e) => {
                return Err(e);
            },
        }
        match self.verify_rets() {
            Ok(_) => {},
            Err(e) => {
                return Err(e);
            },
        }
        Ok(BTFuncProcDefinition {
            position: self.position,
            args: self.args,
            captures: self.captures,
            block: self.block,
            ret,
            ret_type: self.ret_type,
        })
    }
}

/// Once a prefix of the arguments has an error, every longer prefix has
/// the same first error.
proof fn lemma_first_error_stays(args: Seq<OrBundle<TypedArgument>>, n: int)
    requires
        0 < n <= args.len(),
        args_error(args.take(n - 1)) is None,
        args_error(args.take(n)) is Some,
    ensures
        args_error(args) == args_error(args.take(n)),
    decreases args.len() - n,
{
    if n == args.len() {
        assert(args.take(n) =~= args);
    } else {
        lemma_first_error_grows(args, n, args.len() as int);
        assert(args.take(args.len() as int) =~= args);
    }
}

proof fn lemma_first_error_grows(args: Seq<OrBundle<TypedArgument>>, n: int, m: int)
    requires
        0 <= n <= m <= args.len(),
        args_error(args.take(n)) is Some,
    ensures
        args_error(args.take(m)) == args_error(args.take(n)),
    decreases m - n,
{
    if m > n {
        lemma_first_error_grows(args, n, m - 1);
        assert(args.take(m).drop_last() =~= args.take(m - 1));
    }
    if m == args.len() {
        assert(args.take(m) =~= args);
    }
}

proof fn lemma_first_ret_error_stays(rets: Seq<ArgTypeSpec>, n: int)
    requires
        0 < n <= rets.len(),
        rets_error(rets.take(n)) is Some,
    ensures
        rets_error(rets) == rets_error(rets.take(n)),
{
    lemma_first_ret_error_grows(rets, n, rets.len() as int);
    assert(rets.take(rets.len() as int) =~= rets);
}

proof fn lemma_first_ret_error_grows(rets: Seq<ArgTypeSpec>, n: int, m: int)
    requires
        0 <= n <= m <= rets.len(),
        rets_error(rets.take(n)) is Some,
    ensures
        rets_error(rets.take(m)) == rets_error(rets.take(n)),
    decreases m - n,
{
    if m > n {
        lemma_first_ret_error_grows(rets, n, m - 1);
        assert(rets.take(m).drop_last() =~= rets.take(m - 1));
    }
}

/// A copy of a chain of file names.
fn copy_files(v: &Vec<String>) -> (r: Vec<String>)
    ensures
        r@ == v@,
{
    let mut r: Vec<String> = Vec::new();
    let mut i: usize = 0;
    while i < v.len()
        invariant
            i <= v@.len(),
            r@ == v@.take(i as int),
        decreases v@.len() - i,
    {
        r.push(v[i].clone());
        i += 1;
        proof {
            assert(r@ =~= v@.take(i as int));
        }
    }
    proof {
        assert(v@.take(i as int) =~= v@);
    }
    r
}

/// A copy of a variable.
pub fn copy_variable(v: &Variable) -> (r: Variable)
    ensures
        r == *v,
{
    Variable {
        prefix: match &v.prefix {
            Some(p) => Some(p.clone()),
            None => None,
        },
        name: v.name.clone(),
    }
}

/// The counters of a build and the statements it has put out so far.
pub struct BuildState {
    pub registers: int,
    pub calls: int,
    pub out: Seq<StmtView>,
}

/// `s` with the statement `v` put out at the current location.
pub open spec fn emit(env: BuildEnv, s: BuildState, v: StmtValueView) -> BuildState {
    BuildState {
        registers: s.registers,
        calls: s.calls,
        out: s.out.push(StmtView { value: v, file: env.file, line_no: env.line_no }),
    }
}

/// `s` with a new call of `proc` (or of nothing) put out, on `args`,
/// returning into `rets`.
pub open spec fn call_stmt(env: BuildEnv, s: BuildState, proc: Option<usize>, args: Seq<OrBundleRepeater<ExprView>>, rets: Option<Seq<OrBundleRepeater<BTLValue>>>) -> BuildState {
    emit(
        env,
        BuildState { registers: s.registers, calls: s.calls + 1, out: s.out },
        StmtValueView::Bundled(proc, args, rets, (s.calls + 1) as usize),
    )
}

/// The value an assignable thing has when read.
pub open spec fn rvalue_view(lv: OrBundleRepeater<BTLValue>) -> OrBundleRepeater<ExprView> {
    match lv {
        OrBundleRepeater::Normal(BTLValue::Variable(v)) => OrBundleRepeater::Normal(ExprView::Variable(v)),
        OrBundleRepeater::Normal(BTLValue::Register(r, t)) => OrBundleRepeater::Normal(ExprView::RegisterValue(r, t)),
        OrBundleRepeater::Bundle(b) => OrBundleRepeater::Bundle(b),
        OrBundleRepeater::Repeater(r) => OrBundleRepeater::Repeater(r),
    }
}

/// The state of a build: names of definitions per file context, the
/// location of the statement being built, register and call numbers, and
/// the function or procedure being defined.
pub struct BuildContext {
    location: (Vec<String>, usize),
    file_context: usize,
    defnames: Vec<(Option<usize>, String, DefName)>,
    next_register: usize,
    funcproc_target: Option<CurrentFuncProcDefinition>,
    next_call_index: usize,
}

impl BuildContext {
    /// The names, file context and location the builder reads.
    pub closed spec fn env(&self) -> BuildEnv {
        BuildEnv {
            names: names_view(self.defnames@),
            context: self.file_context,
            file: self.location.0@,
            line_no: self.location.1,
        }
    }

    /// The last register handed out.
    pub closed spec fn registers(&self) -> usize {
        self.next_register
    }

    /// The last call number handed out.
    pub closed spec fn calls(&self) -> usize {
        self.next_call_index
    }

    /// Whether a function or procedure is being defined.
    pub closed spec fn defining(&self) -> bool {
        self.funcproc_target is Some
    }

    /// The statements of the function or procedure being defined.
    pub closed spec fn target_block(&self) -> Seq<BTStatement> {
        match self.funcproc_target {
            Some(t) => t.block@,
            None => Seq::empty(),
        }
    }

    /// The internal invariant.
    pub closed spec fn wf(&self) -> bool {
        names_wf(self.defnames@)
    }

    /// Where statements go: into the definition being built, else into the
    /// tree's top level.
    pub open spec fn sink(&self, bt: BuildTree) -> Seq<BTStatement> {
        if self.defining() {
            self.target_block()
        } else {
            bt.statements@
        }
    }

    /// Everything but the counters and the statements put out is as in
    /// `other`.
    pub closed spec fn same_frame(&self, other: BuildContext) -> bool {
        &&& self.location == other.location
        &&& self.file_context == other.file_context
        &&& self.defnames == other.defnames
        &&& match (self.funcproc_target, other.funcproc_target) {
            (Some(a), Some(b)) => {
                &&& a.position == b.position
                &&& a.name == b.name
                &&& a.export == b.export
                &&& a.args == b.args
                &&& a.captures == b.captures
                &&& a.variety == b.variety
                &&& a.ret_type == b.ret_type
            },
            (None, None) => true,
            _ => false,
        }
    }

    /// The counters and statements of a build in `bt`.
    pub open spec fn state(&self, bt: BuildTree) -> BuildState {
        BuildState { registers: self.registers() as int, calls: self.calls() as int, out: stmts_view(self.sink(bt)) }
    }

    /// `self` and `bt` are `old` and `old_bt` with statements put out in the
    /// same place and counters moved: nothing else changed.
    pub open spec fn moved_on(&self, bt: BuildTree, old: BuildContext, old_bt: BuildTree) -> bool {
        &&& self.wf()
        &&& self.same_frame(old)
        &&& bt.definitions@ == old_bt.definitions@
        &&& self.defining() ==> bt.statements@ == old_bt.statements@
        &&& old.sink(old_bt).len() <= self.sink(bt).len()
        &&& self.sink(bt).take(old.sink(old_bt).len() as int) == old.sink(old_bt)
    }

    /// No names, no definition under way, at line 0 of anonymous input.
    pub fn new() -> (r: BuildContext)
        ensures
            r.wf(),
            r.env().names == Map::<(Option<usize>, Seq<char>), DefName>::empty(),
            r.env().context == 0,
            r.env().file.len() == 1,
            r.env().file[0]@ == "*anon*"@,
            r.env().line_no == 0,
            r.registers() == 0,
            r.calls() == 0,
            !r.defining(),
    {
        let mut file: Vec<String> = Vec::new();
        file.push(owned("*anon*"));
        let r = BuildContext {
            location: (file, 0),
            file_context: 0,
            defnames: Vec::new(),
            next_register: 0,
            funcproc_target: None,
            next_call_index: 0,
        };
        proof {
            reveal_strlit("*anon*");
            assert(names_view(r.defnames@) =~= Map::<(Option<usize>, Seq<char>), DefName>::empty());
        }
        r
    }

    /// Sets the file context that names are defined and looked up in.
    pub fn set_file_context(&mut self, context: usize)
        ensures
            final(self).wf() == old(self).wf(),
            final(self).env() == (BuildEnv { context, ..old(self).env() }),
            final(self).registers() == old(self).registers(),
            final(self).calls() == old(self).calls(),
            final(self).defining() == old(self).defining(),
            final(self).target_block() == old(self).target_block(),
            final(self).target_view() == old(self).target_view(),
            final(self).place() == (context, old(self).place().1, old(self).place().2),
    {
        self.file_context = context;
    }

    /// Sets the location of the statements that follow.
    pub fn set_location(&mut self, file: &Vec<String>, line_no: usize)
        ensures
            final(self).wf() == old(self).wf(),
            final(self).env() == (BuildEnv { file: file@, line_no, ..old(self).env() }),
            final(self).registers() == old(self).registers(),
            final(self).calls() == old(self).calls(),
            final(self).defining() == old(self).defining(),
            final(self).target_block() == old(self).target_block(),
            final(self).target_view() == old(self).target_view(),
            final(self).place() == (old(self).place().0, file@, line_no),
    {
        self.location = (copy_files(file), line_no);
    }

    /// The location of the statement being built.
    pub fn location(&self) -> (r: (&[String], usize))
        ensures
            r.0@ == self.env().file,
            r.1 == self.env().line_no,
    {
        (self.location.0.as_slice(), self.location.1)
    }

    /// What `name` stands for in the current file context.
    fn lookup(&self, name: &str) -> (r: Result<DefName, String>)
        requires
            self.wf(),
        ensures
            match lookup_spec(self.env().names, self.env().context, name@) {
                Ok(d) => r == Ok::<DefName, String>(d),
                Err(m) => r matches Err(e) && e@ == m,
            },
    {
        match find_name(&self.defnames, Some(self.file_context), name) {
            Some(d) => Ok(d),
            None => match find_name(&self.defnames, None, name) {
                Some(d) => Ok(d),
                None => {
                    let mut e = owned("No such function/procedure ");
                    push_str(&mut e, name);
                    proof {
                        reveal_strlit("No such function/procedure ");
                    }
                    Err(e)
                },
            },
        }
    }

    /// The function named `name`.
    pub fn lookup_func(&self, name: &str) -> (r: Result<usize, String>)
        requires
            self.wf(),
        ensures
            match lookup_func_spec(self.env(), name@) {
                Ok(x) => r == Ok::<usize, String>(x),
                Err(m) => r matches Err(e) && e@ == m,
            },
    {
        match self.lookup(name) {
            Ok(DefName::Func(x)) => Ok(x),
            _ => {
                let mut e = owned("cannot find function ");
                push_str(&mut e, name);
                proof {
                    reveal_strlit("cannot find function ");
                }
                Err(e)
            },
        }
    }

    /// The procedure or code named `name`.
    pub fn lookup_top(&self, name: &str) -> (r: Result<usize, String>)
        requires
            self.wf(),
        ensures
            match lookup_top_spec(self.env(), name@) {
                Ok(x) => r == Ok::<usize, String>(x),
                Err(m) => r matches Err(e) && e@ == m,
            },
    {
        match self.lookup(name) {
            Ok(DefName::Proc(x)) => Ok(x),
            Ok(DefName::Code(x)) => Ok(x),
            _ => {
                let mut e = owned("cannot find procedure/code ");
                push_str(&mut e, name);
                proof {
                    reveal_strlit("cannot find procedure/code ");
                }
                Err(e)
            },
        }
    }

    /// A fresh register.
    pub fn allocate_register(&mut self) -> (r: usize)
        requires
            old(self).registers() < usize::MAX,
        ensures
            r == old(self).registers() + 1,
            final(self).registers() == r,
            final(self).calls() == old(self).calls(),
            final(self).same_frame(*old(self)),
            final(self).wf() == old(self).wf(),
            final(self).defining() == old(self).defining(),
            final(self).target_block() == old(self).target_block(),
    {
        self.next_register = self.next_register + 1;
        self.next_register
    }

    /// Puts out a statement where statements go.
    pub fn add_statement(&mut self, bt: &mut BuildTree, value: BTStatementValue) -> (r: Result<(), String>)
        requires
            old(self).wf(),
        ensures
            r is Ok,
            final(self).moved_on(*final(bt), *old(self), *old(bt)),
            final(self).defining() == old(self).defining(),
            final(self).registers() == old(self).registers(),
            final(self).calls() == old(self).calls(),
            final(self).state(*final(bt)).out == emit(old(self).env(), old(self).state(*old(bt)), stmt_value_view(value)).out,
    {
        let stmt = BTStatement { value, file: copy_files(&self.location.0), line_no: self.location.1 };
        let ghost v = stmt;
        let ghost old_sink = self.sink(*bt);
        match &mut self.funcproc_target {
            Some(t) => {
                t.block.push(stmt);
            },
            None => {
                bt.add_statement(stmt);
            },
        }
        proof {
            assert(self.sink(*bt) == old_sink.push(v));
            assert(self.sink(*bt).take(old_sink.len() as int) =~= old_sink);
            assert(stmts_view(old_sink.push(v)) =~= stmts_view(old_sink).push(
                StmtView { value: stmt_value_view(v.value), file: self.env().file, line_no: self.env().line_no },
            ));
        }
        Ok(())
    }

    /// A new numbered call of `proc_index` (or of nothing) on `args`,
    /// returning into `rets`.
    pub fn make_statement_value(&mut self, proc_index: Option<usize>, args: Vec<OrBundleRepeater<BTExpression>>, rets: Option<Vec<OrBundleRepeater<BTLValue>>>) -> (r: BTStatementValue)
        requires
            old(self).calls() < usize::MAX,
        ensures
            r == BTStatementValue::BundledStatement(
                BTProcCall { proc_index, args, rets, call_index: (old(self).calls() + 1) as usize },
            ),
            final(self).calls() == old(self).calls() + 1,
            final(self).registers() == old(self).registers(),
            final(self).same_frame(*old(self)),
            final(self).wf() == old(self).wf(),
            final(self).defining() == old(self).defining(),
            final(self).target_block() == old(self).target_block(),
    {
        self.next_call_index = self.next_call_index + 1;
        BTStatementValue::BundledStatement(BTProcCall { proc_index, args, rets, call_index: self.next_call_index })
    }

    /// A new numbered call of the function `defn` on `args`.
    pub fn make_function_call(&mut self, defn: usize, args: Vec<OrBundleRepeater<BTExpression>>) -> (r: BTFuncCall)
        requires
            old(self).calls() < usize::MAX,
        ensures
            r == (BTFuncCall { func_index: defn, args, call_index: (old(self).calls() + 1) as usize }),
            final(self).calls() == old(self).calls() + 1,
            final(self).registers() == old(self).registers(),
            final(self).same_frame(*old(self)),
            final(self).wf() == old(self).wf(),
            final(self).defining() == old(self).defining(),
            final(self).target_block() == old(self).target_block(),
    {
        self.next_call_index = self.next_call_index + 1;
        BTFuncCall { func_index: defn, args, call_index: self.next_call_index }
    }

    /// The value of something assignable, when read.
    pub fn lvalue_to_rvalue(&self, lvalue: &OrBundleRepeater<BTLValue>) -> (r: OrBundleRepeater<BTExpression>)
        ensures
            arg_view(r) == rvalue_view(*lvalue),
    {
        match lvalue {
            OrBundleRepeater::Normal(BTLValue::Variable(v)) => OrBundleRepeater::Normal(BTExpression::Variable(copy_variable(v))),
            OrBundleRepeater::Normal(BTLValue::Register(r, t)) => OrBundleRepeater::Normal(BTExpression::RegisterValue(*r, *t)),
            OrBundleRepeater::Bundle(b) => OrBundleRepeater::Bundle(b.clone()),
            OrBundleRepeater::Repeater(x) => OrBundleRepeater::Repeater(x.clone()),
        }
    }
}

/// An expression with no operator left in it: the preprocessor replaces
/// every infix and prefix operator.
pub open spec fn plain_expr(e: PTExpression) -> bool
    decreases e,
{
    match e {
        PTExpression::Infix(_, _, _) => false,
        PTExpression::Prefix(_, _) => false,
        PTExpression::FiniteSequence(items) => plain_items(items@),
        PTExpression::InfiniteSequence(x) => plain_expr(*x),
        PTExpression::Call(c) => plain_args(c.args@),
        _ => true,
    }
}

/// Every expression of `s` has no operator left in it.
pub open spec fn plain_items(s: Seq<PTExpression>) -> bool
    decreases s,
{
    if s.len() == 0 {
        true
    } else {
        plain_expr(s[0]) && plain_items(s.subrange(1, s.len() as int))
    }
}

/// A call argument with no operator left in it.
pub open spec fn plain_arg(a: OrBundleRepeater<PTExpression>) -> bool
    decreases a,
{
    match a {
        OrBundleRepeater::Normal(x) => plain_expr(x),
        _ => true,
    }
}

/// Every call argument of `s` has no operator left in it.
pub open spec fn plain_args(s: Seq<OrBundleRepeater<PTExpression>>) -> bool
    decreases s,
{
    if s.len() == 0 {
        true
    } else {
        plain_arg(s[0]) && plain_args(s.subrange(1, s.len() as int))
    }
}

/// Building expression `e` from state `s`: the state after, and the built
/// expression or the error that stopped the build.
pub open spec fn build_expr(env: BuildEnv, s: BuildState, e: PTExpression) -> (BuildState, Result<ExprView, Seq<char>>)
    decreases e,
{
    match e {
        PTExpression::Constant(c) => (s, Ok(ExprView::Constant(c))),
        PTExpression::Variable(v) => (s, Ok(ExprView::Variable(v))),
        PTExpression::FiniteSequence(items) => {
            let reg = (s.registers + 1) as usize;
            let s1 = BuildState { registers: s.registers + 1, calls: s.calls, out: s.out };
            match lookup_func_spec(env, "__operator_finseq"@) {
                Err(m) => (s1, Err(m)),
                Ok(f) => {
                    let s2 = call_stmt(
                        env,
                        s1,
                        Some(f),
                        Seq::empty(),
                        Some(seq![OrBundleRepeater::Normal(BTLValue::Register(reg, BTRegisterType::Normal))]),
                    );
                    let (s3, r) = build_items(env, s2, reg, items@);
                    (s3, match r {
                        Ok(_) => Ok(ExprView::RegisterValue(reg, BTRegisterType::Normal)),
                        Err(m) => Err(m),
                    })
                },
            }
        },
        PTExpression::InfiniteSequence(x) => {
            let s1 = BuildState { registers: s.registers, calls: s.calls + 1, out: s.out };
            match lookup_func_spec(env, "__operator_infseq"@) {
                Err(m) => (s1, Err(m)),
                Ok(f) => {
                    let (s2, r) = build_expr(env, s1, *x);
                    (s2, match r {
                        Ok(xv) => Ok(ExprView::Function(f, seq![OrBundleRepeater::Normal(xv)], s2.calls as usize)),
                        Err(m) => Err(m),
                    })
                },
            }
        },
        PTExpression::Call(c) => match lookup_func_spec(env, c.name@) {
            Err(m) => (s, Err(m)),
            Ok(f) => {
                let (s1, r) = build_args(env, s, c.args@);
                match r {
                    Err(m) => (s1, Err(m)),
                    Ok(av) => {
                        let s2 = BuildState { registers: s1.registers, calls: s1.calls + 1, out: s1.out };
                        (s2, Ok(ExprView::Function(f, av, s2.calls as usize)))
                    },
                }
            },
        },
        _ => (s, Err(Seq::empty())),
    }
}

/// Building the items of a finite sequence in register `reg`: each is
/// pushed onto the sequence in turn.
pub open spec fn build_items(env: BuildEnv, s: BuildState, reg: usize, items: Seq<PTExpression>) -> (BuildState, Result<(), Seq<char>>)
    decreases items,
{
    if items.len() == 0 {
        (s, Ok(()))
    } else {
        let (s1, r) = build_expr(env, s, items[0]);
        match r {
            Err(m) => (s1, Err(m)),
            Ok(bv) => match lookup_top_spec(env, "__operator_push"@) {
                Err(m) => (s1, Err(m)),
                Ok(p) => {
                    let s2 = call_stmt(
                        env,
                        s1,
                        Some(p),
                        seq![
                            OrBundleRepeater::Normal(ExprView::RegisterValue(reg, BTRegisterType::Normal)),
                            OrBundleRepeater::Normal(bv),
                        ],
                        Some(seq![OrBundleRepeater::Normal(BTLValue::Register(reg, BTRegisterType::Normal))]),
                    );
                    build_items(env, s2, reg, items.subrange(1, items.len() as int))
                },
            },
        }
    }
}

/// Building a call argument.
pub open spec fn build_arg(env: BuildEnv, s: BuildState, a: OrBundleRepeater<PTExpression>) -> (BuildState, Result<OrBundleRepeater<ExprView>, Seq<char>>)
    decreases a,
{
    match a {
        OrBundleRepeater::Normal(x) => {
            let (s1, r) = build_expr(env, s, x);
            (s1, match r {
                Ok(v) => Ok(OrBundleRepeater::Normal(v)),
                Err(m) => Err(m),
            })
        },
        OrBundleRepeater::Bundle(n) => (s, Ok(OrBundleRepeater::Bundle(n))),
        OrBundleRepeater::Repeater(n) => (s, Ok(OrBundleRepeater::Repeater(n))),
    }
}

/// Building call arguments in turn, stopping at the first error.
pub open spec fn build_args(env: BuildEnv, s: BuildState, args: Seq<OrBundleRepeater<PTExpression>>) -> (BuildState, Result<Seq<OrBundleRepeater<ExprView>>, Seq<char>>)
    decreases args,
{
    if args.len() == 0 {
        (s, Ok(Seq::empty()))
    } else {
        let (s1, r) = build_arg(env, s, args[0]);
        match r {
            Err(m) => (s1, Err(m)),
            Ok(a0) => {
                let (s2, r2) = build_args(env, s1, args.subrange(1, args.len() as int));
                (s2, match r2 {
                    Ok(rest) => Ok(seq![a0] + rest),
                    Err(m) => Err(m),
                })
            },
        }
    }
}

/// The counters of `s` are below their limits.
pub open spec fn fits(s: BuildState) -> bool {
    s.registers < usize::MAX && s.calls < usize::MAX
}

/// `t` comes from `s` by moving counters forward and putting out more
/// statements.
pub open spec fn grows(s: BuildState, t: BuildState) -> bool {
    &&& s.registers <= t.registers
    &&& s.calls <= t.calls
    &&& s.out.len() <= t.out.len()
    &&& t.out.take(s.out.len() as int) == s.out
}

proof fn lemma_grows_trans(a: BuildState, b: BuildState, c: BuildState)
    requires
        grows(a, b),
        grows(b, c),
    ensures
        grows(a, c),
{
    assert(c.out.take(a.out.len() as int) =~= c.out.take(b.out.len() as int).take(a.out.len() as int));
}

proof fn lemma_call_stmt_grows(env: BuildEnv, s: BuildState, proc: Option<usize>, args: Seq<OrBundleRepeater<ExprView>>, rets: Option<Seq<OrBundleRepeater<BTLValue>>>)
    ensures
        grows(s, call_stmt(env, s, proc, args, rets)),
{
    let t = call_stmt(env, s, proc, args, rets);
    assert(t.out.take(s.out.len() as int) =~= s.out);
}

proof fn lemma_grows_refl(s: BuildState)
    ensures
        grows(s, s),
{
    assert(s.out.take(s.out.len() as int) =~= s.out);
}

/// A build only moves counters forward and puts out more statements.
proof fn lemma_build_expr_grows(env: BuildEnv, s: BuildState, e: PTExpression)
    ensures
        grows(s, build_expr(env, s, e).0),
    decreases e,
{
    lemma_grows_refl(s);
    match e {
        PTExpression::FiniteSequence(items) => {
            let reg = (s.registers + 1) as usize;
            let s1 = BuildState { registers: s.registers + 1, calls: s.calls, out: s.out };
            assert(s.out.take(s.out.len() as int) =~= s.out);
            match lookup_func_spec(env, "__operator_finseq"@) {
                Err(m) => {},
                Ok(f) => {
                    let s2 = call_stmt(
                        env,
                        s1,
                        Some(f),
                        Seq::empty(),
                        Some(seq![OrBundleRepeater::Normal(BTLValue::Register(reg, BTRegisterType::Normal))]),
                    );
                    lemma_call_stmt_grows(env, s1, Some(f), Seq::empty(), Some(seq![OrBundleRepeater::Normal(BTLValue::Register(reg, BTRegisterType::Normal))]));
                    lemma_build_items_grows(env, s2, reg, items@);
                    lemma_grows_trans(s, s1, s2);
                    lemma_grows_trans(s, s2, build_items(env, s2, reg, items@).0);
                },
            }
        },
        PTExpression::InfiniteSequence(x) => {
            let s1 = BuildState { registers: s.registers, calls: s.calls + 1, out: s.out };
            match lookup_func_spec(env, "__operator_infseq"@) {
                Err(m) => {},
                Ok(f) => {
                    lemma_build_expr_grows(env, s1, *x);
                    lemma_grows_trans(s, s1, build_expr(env, s1, *x).0);
                },
            }
        },
        PTExpression::Call(c) => match lookup_func_spec(env, c.name@) {
            Err(m) => {},
            Ok(f) => {
                lemma_build_args_grows(env, s, c.args@);
                let s1 = build_args(env, s, c.args@).0;
                let s2 = BuildState { registers: s1.registers, calls: s1.calls + 1, out: s1.out };
                assert(s2.out.take(s1.out.len() as int) =~= s1.out);
                lemma_grows_trans(s, s1, s2);
            },
        },
        _ => {},
    }
}

proof fn lemma_build_items_grows(env: BuildEnv, s: BuildState, reg: usize, items: Seq<PTExpression>)
    ensures
        grows(s, build_items(env, s, reg, items).0),
    decreases items,
{
    lemma_grows_refl(s);
    if items.len() > 0 {
        lemma_build_expr_grows(env, s, items[0]);
        let (s1, r) = build_expr(env, s, items[0]);
        match r {
            Err(m) => {},
            Ok(bv) => match lookup_top_spec(env, "__operator_push"@) {
                Err(m) => {},
                Ok(p) => {
                    let args = seq![
                        OrBundleRepeater::Normal(ExprView::RegisterValue(reg, BTRegisterType::Normal)),
                        OrBundleRepeater::Normal(bv),
                    ];
                    let rets = Some(seq![OrBundleRepeater::Normal(BTLValue::Register(reg, BTRegisterType::Normal))]);
                    let s2 = call_stmt(env, s1, Some(p), args, rets);
                    lemma_call_stmt_grows(env, s1, Some(p), args, rets);
                    lemma_build_items_grows(env, s2, reg, items.subrange(1, items.len() as int));
                    lemma_grows_trans(s, s1, s2);
                    lemma_grows_trans(s, s2, build_items(env, s2, reg, items.subrange(1, items.len() as int)).0);
                },
            },
        }
    }
}

proof fn lemma_build_arg_grows(env: BuildEnv, s: BuildState, a: OrBundleRepeater<PTExpression>)
    ensures
        grows(s, build_arg(env, s, a).0),
    decreases a,
{
    lemma_grows_refl(s);
    match a {
        OrBundleRepeater::Normal(x) => {
            lemma_build_expr_grows(env, s, x);
        },
        _ => {},
    }
}

proof fn lemma_build_args_grows(env: BuildEnv, s: BuildState, args: Seq<OrBundleRepeater<PTExpression>>)
    ensures
        grows(s, build_args(env, s, args).0),
    decreases args,
{
    lemma_grows_refl(s);
    if args.len() > 0 {
        lemma_build_arg_grows(env, s, args[0]);
        let (s1, r) = build_arg(env, s, args[0]);
        match r {
            Err(m) => {},
            Ok(a0) => {
                lemma_build_args_grows(env, s1, args.subrange(1, args.len() as int));
                lemma_grows_trans(s, s1, build_args(env, s1, args.subrange(1, args.len() as int)).0);
            },
        }
    }
}

/// Viewing arguments one more at a time.
proof fn lemma_args_view_push(s: Seq<OrBundleRepeater<BTExpression>>, a: OrBundleRepeater<BTExpression>)
    ensures
        args_view(s.push(a)) == args_view(s).push(arg_view(a)),
{
    assert(s.push(a).drop_last() =~= s);
}

proof fn lemma_args_view_empty()
    ensures
        args_view(Seq::<OrBundleRepeater<BTExpression>>::empty()) == Seq::<OrBundleRepeater<ExprView>>::empty(),
{
}

/// The abstract value of what a call returns into.
pub open spec fn rets_view(rets: Option<Vec<OrBundleRepeater<BTLValue>>>) -> Option<Seq<OrBundleRepeater<BTLValue>>> {
    match rets {
        Some(r) => Some(r@),
        None => None,
    }
}

impl BuildContext {
    proof fn lemma_frame_env(&self, other: BuildContext)
        requires
            self.same_frame(other),
        ensures
            self.env() == other.env(),
            self.defining() == other.defining(),
    {
    }

    proof fn lemma_moved_on_refl(&self, bt: BuildTree)
        requires
            self.wf(),
        ensures
            self.moved_on(bt, *self, bt),
    {
        assert(self.sink(bt).take(self.sink(bt).len() as int) =~= self.sink(bt));
        assert(self.same_frame(*self)) by {
            match self.funcproc_target {
                Some(a) => {},
                None => {},
            }
        }
    }

    proof fn lemma_moved_on_trans(&self, bt: BuildTree, mid: BuildContext, mid_bt: BuildTree, old: BuildContext, old_bt: BuildTree)
        requires
            mid.moved_on(mid_bt, old, old_bt),
            self.moved_on(bt, mid, mid_bt),
        ensures
            self.moved_on(bt, old, old_bt),
            self.env() == old.env(),
            self.defining() == old.defining(),
    {
        let a = old.sink(old_bt);
        let b = mid.sink(mid_bt);
        let c = self.sink(bt);
        assert(c.take(a.len() as int) =~= c.take(b.len() as int).take(a.len() as int));
    }

    /// After a step that moves only counters, nothing was put out.
    proof fn lemma_counter_step(&self, bt: BuildTree, old: BuildContext)
        requires
            old.wf(),
            self.wf() == old.wf(),
            self.same_frame(old),
            self.defining() == old.defining(),
            self.target_block() == old.target_block(),
        ensures
            self.moved_on(bt, old, bt),
            self.sink(bt) == old.sink(bt),
            self.env() == old.env(),
    {
        assert(self.sink(bt).take(old.sink(bt).len() as int) =~= old.sink(bt));
    }

    /// Puts out a new numbered call of `proc_index` (or of nothing) on
    /// `args`, returning into `rets`.
    fn put_call(&mut self, bt: &mut BuildTree, proc_index: Option<usize>, args: Vec<OrBundleRepeater<BTExpression>>, rets: Option<Vec<OrBundleRepeater<BTLValue>>>)
        requires
            old(self).wf(),
            old(self).calls() < usize::MAX,
        ensures
            final(self).moved_on(*final(bt), *old(self), *old(bt)),
            final(self).state(*final(bt)) == call_stmt(
                old(self).env(),
                old(self).state(*old(bt)),
                proc_index,
                args_view(args@),
                rets_view(rets),
            ),
    {
        let ghost b0 = *self;
        let ghost bt0 = *bt;
        let ghost av = args_view(args@);
        let ghost rv = rets_view(rets);
        let stmt = self.make_statement_value(proc_index, args, rets);
        let ghost b1 = *self;
        proof {
            b1.lemma_counter_step(bt0, b0);
        }
        let _ = self.add_statement(bt, stmt);
        proof {
            self.lemma_moved_on_trans(*bt, b1, bt0, b0, bt0);
            assert(stmt_value_view(stmt) == StmtValueView::Bundled(proc_index, av, rv, (b0.calls() + 1) as usize));
        }
    }

    /// Builds expression `e`: finite sequences are built up in a fresh
    /// register, the others become expressions directly.
    pub fn build_expression(&mut self, bt: &mut BuildTree, expr: &PTExpression) -> (r: Result<BTExpression, String>)
        requires
            old(self).wf(),
            plain_expr(*expr),
            fits(build_expr(old(self).env(), old(self).state(*old(bt)), *expr).0),
        ensures
            final(self).moved_on(*final(bt), *old(self), *old(bt)),
            final(self).state(*final(bt)) == build_expr(old(self).env(), old(self).state(*old(bt)), *expr).0,
            match build_expr(old(self).env(), old(self).state(*old(bt)), *expr).1 {
                Ok(v) => r matches Ok(e) && expr_view(e) == v,
                Err(m) => r matches Err(e) && e@ == m,
            },
        decreases expr,
    {
        let ghost b0 = *self;
        let ghost bt0 = *bt;
        let ghost env = self.env();
        let ghost s0 = self.state(*bt);
        proof {
            self.lemma_moved_on_refl(*bt);
            lemma_build_expr_grows(env, s0, *expr);
        }
        match expr {
            PTExpression::Constant(c) => Ok(BTExpression::Constant(crate::model::copy_constant(c))),
            PTExpression::Variable(v) => Ok(BTExpression::Variable(copy_variable(v))),
            PTExpression::FiniteSequence(items) => {
                let reg = self.allocate_register();
                let ghost b1 = *self;
                proof {
                    b1.lemma_counter_step(*bt, b0);
                }
                let f = match self.lookup_func("__operator_finseq") {
                    Ok(f) => f,
                    Err(e) => {
                        proof {
                            reveal_strlit("__operator_finseq");
                        }
                        return Err(e);
                    },
                };
                proof {
                    reveal_strlit("__operator_finseq");
                    let s1 = BuildState { registers: s0.registers + 1, calls: s0.calls, out: s0.out };
                    let s2 = call_stmt(
                        env,
                        s1,
                        Some(f),
                        Seq::empty(),
                        Some(seq![OrBundleRepeater::Normal(BTLValue::Register(reg, BTRegisterType::Normal))]),
                    );
                    lemma_build_items_grows(env, s2, reg, items@);
                }
                let mut rets: Vec<OrBundleRepeater<BTLValue>> = Vec::new();
                rets.push(OrBundleRepeater::Normal(BTLValue::Register(reg, BTRegisterType::Normal)));
                let ghost rv = rets@;
                self.put_call(bt, Some(f), Vec::new(), Some(rets));
                let ghost b2 = *self;
                let ghost bt2 = *bt;
                proof {
                    b2.lemma_moved_on_trans(bt2, b1, bt0, b0, bt0);
                    assert(args_view(Seq::<OrBundleRepeater<BTExpression>>::empty()) == Seq::<OrBundleRepeater<ExprView>>::empty());
                    assert(rv =~= seq![OrBundleRepeater::Normal(BTLValue::Register(reg, BTRegisterType::Normal))]);
                }
                let r = self.build_items(bt, reg, items);
                proof {
                    self.lemma_moved_on_trans(*bt, b2, bt2, b0, bt0);
                }
                match r {
                    Ok(_) => Ok(BTExpression::RegisterValue(reg, BTRegisterType::Normal)),
                    Err(e) => Err(e),
                }
            },
            PTExpression::InfiniteSequence(x) => {
                proof {
                    reveal_strlit("__operator_infseq");
                }
                self.next_call_index = self.next_call_index + 1;
                let ghost b1 = *self;
                proof {
                    b1.lemma_counter_step(*bt, b0);
                }
                let f = match self.lookup_func("__operator_infseq") {
                    Ok(f) => f,
                    Err(e) => {
                        return Err(e);
                    },
                };
                let built = self.build_expression(bt, &**x);
                proof {
                    self.lemma_moved_on_trans(*bt, b1, bt0, b0, bt0);
                }
                match built {
                    Ok(xe) => {
                        let mut args: Vec<OrBundleRepeater<BTExpression>> = Vec::new();
                        let ghost e0 = args@;
                        args.push(OrBundleRepeater::Normal(xe));
                        proof {
                            lemma_args_view_empty();
                            lemma_args_view_push(e0, OrBundleRepeater::Normal(xe));
                            assert(args_view(args@) =~= seq![OrBundleRepeater::Normal(expr_view(xe))]);
                        }
                        Ok(BTExpression::Function(BTFuncCall { func_index: f, args, call_index: self.next_call_index }))
                    },
                    Err(e) => Err(e),
                }
            },
            PTExpression::Call(c) => {
                match self.build_func(bt, c) {
                    Ok(fc) => Ok(BTExpression::Function(fc)),
                    Err(e) => Err(e),
                }
            },
            PTExpression::Infix(_, _, _) => unreached(),
            PTExpression::Prefix(_, _) => unreached(),
        }
    }

    /// Builds the items of a finite sequence in register `reg`, pushing each
    /// onto it in turn.
    fn build_items(&mut self, bt: &mut BuildTree, reg: usize, items: &Vec<PTExpression>) -> (r: Result<(), String>)
        requires
            old(self).wf(),
            plain_items(items@),
            fits(build_items(old(self).env(), old(self).state(*old(bt)), reg, items@).0),
        ensures
            final(self).moved_on(*final(bt), *old(self), *old(bt)),
            final(self).state(*final(bt)) == build_items(old(self).env(), old(self).state(*old(bt)), reg, items@).0,
            match build_items(old(self).env(), old(self).state(*old(bt)), reg, items@).1 {
                Ok(_) => r is Ok,
                Err(m) => r matches Err(e) && e@ == m,
            },
        decreases items@,
    {
        let ghost b0 = *self;
        let ghost bt0 = *bt;
        let ghost env = self.env();
        let ghost whole = build_items(env, self.state(*bt), reg, items@);
        proof {
            self.lemma_moved_on_refl(*bt);
            assert(items@.subrange(0, items@.len() as int) =~= items@);
        }
        let mut i: usize = 0;
        while i < items.len()
            invariant
                b0 == *old(self),
                bt0 == *old(bt),
                env == old(self).env(),
                whole == build_items(old(self).env(), old(self).state(*old(bt)), reg, items@),
                i <= items@.len(),
                self.wf(),
                self.moved_on(*bt, b0, bt0),
                self.env() == env,
                plain_items(items@.subrange(i as int, items@.len() as int)),
                build_items(env, self.state(*bt), reg, items@.subrange(i as int, items@.len() as int)) == whole,
                fits(whole.0),
            decreases items@.len() - i,
        {
            let ghost rest = items@.subrange(i as int, items@.len() as int);
            let ghost b1 = *self;
            let ghost bt1 = *bt;
            let ghost s1 = self.state(*bt);
            proof {
                assert(rest[0] == items@[i as int]);
                assert(rest.subrange(1, rest.len() as int) =~= items@.subrange(i + 1, items@.len() as int));
                lemma_build_expr_grows(env, s1, rest[0]);
                let (s1p, r1) = build_expr(env, s1, rest[0]);
                match r1 {
                    Ok(bv) => match lookup_top_spec(env, "__operator_push"@) {
                        Ok(p) => {
                            let av = seq![
                                OrBundleRepeater::Normal(ExprView::RegisterValue(reg, BTRegisterType::Normal)),
                                OrBundleRepeater::Normal(bv),
                            ];
                            let rs = Some(seq![OrBundleRepeater::Normal(BTLValue::Register(reg, BTRegisterType::Normal))]);
                            let s2p = call_stmt(env, s1p, Some(p), av, rs);
                            lemma_call_stmt_grows(env, s1p, Some(p), av, rs);
                            lemma_build_items_grows(env, s2p, reg, rest.subrange(1, rest.len() as int));
                        },
                        Err(m) => {},
                    },
                    Err(m) => {},
                }
            }
            let built = self.build_expression(bt, &items[i]);
            proof {
                self.lemma_moved_on_trans(*bt, b1, bt1, b0, bt0);
            }
            let be = match built {
                Ok(be) => be,
                Err(e) => {
                    return Err(e);
                },
            };
            proof {
                reveal_strlit("__operator_push");
            }
            let p = match self.lookup_top("__operator_push") {
                Ok(p) => p,
                Err(e) => {
                    return Err(e);
                },
            };
            let ghost b2 = *self;
            let ghost bt2 = *bt;
            let ghost s2 = self.state(*bt);
            let mut args: Vec<OrBundleRepeater<BTExpression>> = Vec::new();
            let ghost e0 = args@;
            args.push(OrBundleRepeater::Normal(BTExpression::RegisterValue(reg, BTRegisterType::Normal)));
            let ghost e1 = args@;
            args.push(OrBundleRepeater::Normal(be));
            proof {
                lemma_args_view_empty();
                lemma_args_view_push(e0, OrBundleRepeater::Normal(BTExpression::RegisterValue(reg, BTRegisterType::Normal)));
                lemma_args_view_push(e1, OrBundleRepeater::Normal(be));
            }
            let mut rets: Vec<OrBundleRepeater<BTLValue>> = Vec::new();
            rets.push(OrBundleRepeater::Normal(BTLValue::Register(reg, BTRegisterType::Normal)));
            let ghost av = seq![
                OrBundleRepeater::Normal(ExprView::RegisterValue(reg, BTRegisterType::Normal)),
                OrBundleRepeater::Normal(expr_view(be)),
            ];
            let ghost rets_s = seq![OrBundleRepeater::Normal(BTLValue::Register(reg, BTRegisterType::Normal))];
            proof {
                assert(args_view(args@) =~= av);
                assert(rets@ =~= rets_s);
                let s3 = call_stmt(env, s2, Some(p), av, Some(rets_s));
                lemma_call_stmt_grows(env, s2, Some(p), av, Some(rets_s));
                lemma_build_items_grows(env, s3, reg, items@.subrange(i + 1, items@.len() as int));
            }
            self.put_call(bt, Some(p), args, Some(rets));
            proof {
                self.lemma_moved_on_trans(*bt, b2, bt2, b0, bt0);
            }
            i += 1;
        }
        proof {
            assert(items@.subrange(i as int, items@.len() as int).len() == 0);
        }
        Ok(())
    }

    /// Builds a call argument.
    pub fn build_call(&mut self, bt: &mut BuildTree, expr: &OrBundleRepeater<PTExpression>) -> (r: Result<OrBundleRepeater<BTExpression>, String>)
        requires
            old(self).wf(),
            plain_arg(*expr),
            fits(build_arg(old(self).env(), old(self).state(*old(bt)), *expr).0),
        ensures
            final(self).moved_on(*final(bt), *old(self), *old(bt)),
            final(self).state(*final(bt)) == build_arg(old(self).env(), old(self).state(*old(bt)), *expr).0,
            match build_arg(old(self).env(), old(self).state(*old(bt)), *expr).1 {
                Ok(v) => r matches Ok(a) && arg_view(a) == v,
                Err(m) => r matches Err(e) && e@ == m,
            },
        decreases expr,
    {
        proof {
            self.lemma_moved_on_refl(*bt);
        }
        match expr {
            OrBundleRepeater::Normal(x) => match self.build_expression(bt, x) {
                Ok(e) => Ok(OrBundleRepeater::Normal(e)),
                Err(e) => Err(e),
            },
            OrBundleRepeater::Bundle(n) => Ok(OrBundleRepeater::Bundle(n.clone())),
            OrBundleRepeater::Repeater(n) => Ok(OrBundleRepeater::Repeater(n.clone())),
        }
    }

    /// Builds call arguments in turn, stopping at the first error.
    fn build_call_args(&mut self, bt: &mut BuildTree, args: &Vec<OrBundleRepeater<PTExpression>>) -> (r: Result<Vec<OrBundleRepeater<BTExpression>>, String>)
        requires
            old(self).wf(),
            plain_args(args@),
            fits(build_args(old(self).env(), old(self).state(*old(bt)), args@).0),
        ensures
            final(self).moved_on(*final(bt), *old(self), *old(bt)),
            final(self).state(*final(bt)) == build_args(old(self).env(), old(self).state(*old(bt)), args@).0,
            match build_args(old(self).env(), old(self).state(*old(bt)), args@).1 {
                Ok(v) => r matches Ok(a) && args_view(a@) == v,
                Err(m) => r matches Err(e) && e@ == m,
            },
        decreases args@,
    {
        let ghost b0 = *self;
        let ghost bt0 = *bt;
        let ghost env = self.env();
        let ghost whole = build_args(env, self.state(*bt), args@);
        proof {
            self.lemma_moved_on_refl(*bt);
            assert(args@.subrange(0, args@.len() as int) =~= args@);
        }
        let mut out: Vec<OrBundleRepeater<BTExpression>> = Vec::new();
        let mut i: usize = 0;
        while i < args.len()
            invariant
                b0 == *old(self),
                bt0 == *old(bt),
                env == old(self).env(),
                whole == build_args(old(self).env(), old(self).state(*old(bt)), args@),
                i <= args@.len(),
                self.wf(),
                self.moved_on(*bt, b0, bt0),
                self.env() == env,
                plain_args(args@.subrange(i as int, args@.len() as int)),
                build_args(env, self.state(*bt), args@.subrange(i as int, args@.len() as int)).0 == whole.0,
                match build_args(env, self.state(*bt), args@.subrange(i as int, args@.len() as int)).1 {
                    Ok(rest) => whole.1 == Ok::<Seq<OrBundleRepeater<ExprView>>, Seq<char>>(args_view(out@) + rest),
                    Err(m) => whole.1 == Err::<Seq<OrBundleRepeater<ExprView>>, Seq<char>>(m),
                },
                fits(whole.0),
            decreases args@.len() - i,
        {
            let ghost rest = args@.subrange(i as int, args@.len() as int);
            let ghost b1 = *self;
            let ghost bt1 = *bt;
            let ghost s1 = self.state(*bt);
            proof {
                assert(rest[0] == args@[i as int]);
                assert(rest.subrange(1, rest.len() as int) =~= args@.subrange(i + 1, args@.len() as int));
                lemma_build_arg_grows(env, s1, rest[0]);
                let (s2, r2) = build_arg(env, s1, rest[0]);
                if r2 is Ok {
                    lemma_build_args_grows(env, s2, rest.subrange(1, rest.len() as int));
                }
            }
            let a = self.build_call(bt, &args[i]);
            proof {
                self.lemma_moved_on_trans(*bt, b1, bt1, b0, bt0);
            }
            match a {
                Ok(a) => {
                    let ghost before = out@;
                    out.push(a);
                    proof {
                        assert(out@.drop_last() =~= before);
                        assert(args_view(out@) == args_view(before).push(arg_view(a)));
                        let (s2, r2) = build_args(env, self.state(*bt), args@.subrange(i + 1, args@.len() as int));
                        match r2 {
                            Ok(rest2) => {
                                assert(args_view(before) + (seq![arg_view(a)] + rest2) =~= args_view(out@) + rest2);
                            },
                            Err(m) => {},
                        }
                    }
                },
                Err(e) => {
                    proof {
                        assert(whole.0 == build_arg(env, s1, rest[0]).0);
                    }
                    return Err(e);
                },
            }
            i += 1;
        }
        proof {
            assert(args@.subrange(i as int, args@.len() as int).len() == 0);
            assert(args_view(out@) + Seq::<OrBundleRepeater<ExprView>>::empty() =~= args_view(out@));
        }
        Ok(out)
    }

    /// Builds a call of the function named by `call`.
    fn build_func(&mut self, bt: &mut BuildTree, call: &PTCall) -> (r: Result<BTFuncCall, String>)
        requires
            old(self).wf(),
            plain_expr(PTExpression::Call(*call)),
            fits(build_expr(old(self).env(), old(self).state(*old(bt)), PTExpression::Call(*call)).0),
        ensures
            final(self).moved_on(*final(bt), *old(self), *old(bt)),
            final(self).state(*final(bt)) == build_expr(old(self).env(), old(self).state(*old(bt)), PTExpression::Call(*call)).0,
            match build_expr(old(self).env(), old(self).state(*old(bt)), PTExpression::Call(*call)).1 {
                Ok(v) => r matches Ok(f) && expr_view(BTExpression::Function(f)) == v,
                Err(m) => r matches Err(e) && e@ == m,
            },
        decreases call,
    {
        let ghost b0 = *self;
        let ghost bt0 = *bt;
        let ghost env = self.env();
        let ghost s0 = self.state(*bt);
        proof {
            self.lemma_moved_on_refl(*bt);
        }
        let index = match self.lookup_func(call.name.as_str()) {
            Ok(i) => i,
            Err(e) => {
                return Err(e);
            },
        };
        proof {
            lemma_build_args_grows(env, s0, call.args@);
        }
        let args = match self.build_call_args(bt, &call.args) {
            Ok(a) => a,
            Err(e) => {
                return Err(e);
            },
        };
        let ghost b1 = *self;
        let f = self.make_function_call(index, args);
        proof {
            self.lemma_counter_step(*bt, b1);
            self.lemma_moved_on_trans(*bt, b1, *bt, b0, bt0);
        }
        Ok(f)
    }
}

/// What a let binds, with its checks as a sequence.
pub open spec fn let_view(v: OrBundleRepeater<(Variable, Vec<Check>)>) -> OrBundleRepeater<(Variable, Seq<Check>)> {
    match v {
        OrBundleRepeater::Normal((x, cs)) => OrBundleRepeater::Normal((x, cs@)),
        OrBundleRepeater::Bundle(b) => OrBundleRepeater::Bundle(b),
        OrBundleRepeater::Repeater(r) => OrBundleRepeater::Repeater(r),
    }
}

/// What a let binds, each with its checks as a sequence.
pub open spec fn lets_view(vv: Seq<OrBundleRepeater<(Variable, Vec<Check>)>>) -> Seq<OrBundleRepeater<(Variable, Seq<Check>)>> {
    vv.map_values(|v: OrBundleRepeater<(Variable, Vec<Check>)>| let_view(v))
}

/// What a let binds, as declared: the variable, bundle or repeater.
pub open spec fn declared(v: OrBundleRepeater<(Variable, Seq<Check>)>) -> OrBundleRepeater<Variable> {
    match v {
        OrBundleRepeater::Normal((x, _)) => OrBundleRepeater::Normal(x),
        OrBundleRepeater::Bundle(b) => OrBundleRepeater::Bundle(b),
        OrBundleRepeater::Repeater(r) => OrBundleRepeater::Repeater(r),
    }
}

/// Step one of an assignment: a fresh temporary for each of the first
/// `n` things assigned to; a repeater is declared and used as it is.
pub open spec fn alloc_temps(env: BuildEnv, s: BuildState, vv: Seq<OrBundleRepeater<(Variable, Seq<Check>)>>, n: int) -> (BuildState, Seq<OrBundleRepeater<BTLValue>>)
    decreases n,
{
    if n <= 0 {
        (s, Seq::empty())
    } else {
        let (s1, regs) = alloc_temps(env, s, vv, n - 1);
        let reg = (s1.registers + 1) as usize;
        let bumped = BuildState { registers: s1.registers + 1, calls: s1.calls, out: s1.out };
        match vv[n - 1] {
            OrBundleRepeater::Normal(_) => (bumped, regs.push(OrBundleRepeater::Normal(BTLValue::Register(reg, BTRegisterType::Normal)))),
            OrBundleRepeater::Bundle(_) => (bumped, regs.push(OrBundleRepeater::Normal(BTLValue::Register(reg, BTRegisterType::Bundle)))),
            OrBundleRepeater::Repeater(r) => (
                emit(env, s1, StmtValueView::Declare(OrBundleRepeater::Repeater(r))),
                regs.push(OrBundleRepeater::Repeater(r)),
            ),
        }
    }
}

/// The register number of a temporary (none for a repeater).
pub open spec fn temp_number(t: OrBundleRepeater<BTLValue>) -> int {
    match t {
        OrBundleRepeater::Normal(BTLValue::Register(r, _)) => r as int,
        _ => -1,
    }
}

/// The temporaries of an assignment are fresh: each thing assigned to but
/// a repeater gets a register above the old counter and at most the new
/// one, later ones higher, so no two share a register; no call is made.
pub proof fn lemma_fresh_temporaries(env: BuildEnv, s: BuildState, vv: Seq<OrBundleRepeater<(Variable, Seq<Check>)>>, n: int)
    requires
        0 <= n <= vv.len(),
        0 <= s.registers,
        alloc_temps(env, s, vv, n).0.registers <= usize::MAX,
    ensures
        ({
            let (s1, regs) = alloc_temps(env, s, vv, n);
            &&& regs.len() == n
            &&& s1.calls == s.calls
            &&& s.registers <= s1.registers
            &&& forall|i: int| 0 <= i < n && !(vv[i] is Repeater) ==> {
                &&& #[trigger] regs[i] matches OrBundleRepeater::Normal(BTLValue::Register(_, _))
                &&& s.registers < temp_number(regs[i]) <= s1.registers
            }
            &&& forall|i: int| 0 <= i < n && vv[i] is Repeater ==> #[trigger] regs[i] == OrBundleRepeater::<BTLValue>::Repeater(vv[i]->Repeater_0)
            &&& forall|i: int, j: int| 0 <= i < j < n && !(vv[i] is Repeater) && !(vv[j] is Repeater)
                ==> temp_number(#[trigger] regs[i]) < temp_number(#[trigger] regs[j])
        }),
    decreases n,
{
    if n > 0 {
        let (s0, regs0) = alloc_temps(env, s, vv, n - 1);
        assert(s0.registers <= alloc_temps(env, s, vv, n).0.registers);
        lemma_fresh_temporaries(env, s, vv, n - 1);
        let (s1, regs) = alloc_temps(env, s, vv, n);
        assert(regs == regs0.push(regs[n - 1]));
        assert forall|i: int| 0 <= i < n - 1 implies #[trigger] regs[i] == regs0[i] by {}
        if !(vv[n - 1] is Repeater) {
            assert(s1.registers == s0.registers + 1);
            assert(temp_number(regs[n - 1]) == s0.registers + 1);
        } else {
            assert(s1.registers == s0.registers);
        }
        assert forall|i: int| 0 <= i < n && !(vv[i] is Repeater) implies {
            &&& #[trigger] regs[i] matches OrBundleRepeater::Normal(BTLValue::Register(_, _))
            &&& s.registers < temp_number(regs[i]) <= s1.registers
        } by {
            if i < n - 1 {
                assert(regs[i] == regs0[i]);
            }
        }
        assert forall|i: int, j: int| 0 <= i < j < n && !(vv[i] is Repeater) && !(vv[j] is Repeater)
            implies temp_number(#[trigger] regs[i]) < temp_number(#[trigger] regs[j]) by {
            assert(regs[i] == regs0[i]);
            if j < n - 1 {
                assert(regs[j] == regs0[j]);
            }
        }
    }
}

/// Step two of an assignment, pairing expressions with temporaries: each
/// value goes into its temporary, in turn.
pub open spec fn assign_pairs(env: BuildEnv, s: BuildState, xx: Seq<OrBundle<PTExpression>>, regs: Seq<OrBundleRepeater<BTLValue>>) -> (BuildState, Result<(), Seq<char>>)
    decreases xx.len(),
{
    if xx.len() == 0 {
        (s, Ok(()))
    } else {
        let (s1, r) = match xx[0] {
            OrBundle::Normal(e) => {
                let (s1, r) = build_expr(env, s, e);
                (s1, match r {
                    Ok(v) => Ok(OrBundleRepeater::Normal(v)),
                    Err(m) => Err(m),
                })
            },
            OrBundle::Bundle(b) => (s, Ok(OrBundleRepeater::Bundle(b))),
        };
        match r {
            Err(m) => (s1, Err(m)),
            Ok(arg) => {
                let s2 = call_stmt(env, s1, None, seq![arg], Some(seq![regs[0]]));
                assign_pairs(
                    env,
                    s2,
                    xx.subrange(1, xx.len() as int),
                    regs.subrange(1, regs.len() as int),
                )
            },
        }
    }
}

/// Whether the single right-hand side `x` calls a procedure or code.
pub open spec fn is_top_spec(env: BuildEnv, x: OrBundle<PTExpression>) -> Result<bool, Seq<char>> {
    match x {
        OrBundle::Normal(PTExpression::Call(c)) => match lookup_spec(env.names, env.context, c.name@) {
            Ok(DefName::Func(_)) => Ok(false),
            Ok(_) => Ok(true),
            Err(m) => Err(m),
        },
        _ => Ok(false),
    }
}

/// A call of the procedure or code named by `call`, returning into `rets`.
pub open spec fn top_call(env: BuildEnv, s: BuildState, rets: Option<Seq<OrBundleRepeater<BTLValue>>>, call: PTCall) -> (BuildState, Result<(), Seq<char>>) {
    match lookup_top_spec(env, call.name@) {
        Err(m) => (s, Err(m)),
        Ok(i) => {
            let (s1, r) = build_args(env, s, call.args@);
            match r {
                Err(m) => (s1, Err(m)),
                Ok(av) => (call_stmt(env, s1, Some(i), av, rets), Ok(())),
            }
        },
    }
}

/// Step three of a let: the first `n` things assigned to are declared,
/// but for repeaters, which were declared in step one.
pub open spec fn declare_all(env: BuildEnv, s: BuildState, vv: Seq<OrBundleRepeater<(Variable, Seq<Check>)>>, n: int) -> BuildState
    decreases n,
{
    if n <= 0 {
        s
    } else {
        let s1 = declare_all(env, s, vv, n - 1);
        match vv[n - 1] {
            OrBundleRepeater::Repeater(_) => s1,
            _ => emit(env, s1, StmtValueView::Declare(declared(vv[n - 1]))),
        }
    }
}

/// Step four of an assignment: each of the first `n` variables and bundles
/// assigned to is set from its temporary.
pub open spec fn copy_out(env: BuildEnv, s: BuildState, vv: Seq<OrBundleRepeater<(Variable, Seq<Check>)>>, regs: Seq<OrBundleRepeater<BTLValue>>, n: int) -> BuildState
    decreases n,
{
    if n <= 0 {
        s
    } else {
        let s1 = copy_out(env, s, vv, regs, n - 1);
        match vv[n - 1] {
            OrBundleRepeater::Normal((v, _)) => call_stmt(
                env,
                s1,
                None,
                seq![rvalue_view(regs[n - 1])],
                Some(seq![OrBundleRepeater::Normal(BTLValue::Variable(v))]),
            ),
            OrBundleRepeater::Bundle(b) => call_stmt(
                env,
                s1,
                None,
                seq![rvalue_view(regs[n - 1])],
                Some(seq![OrBundleRepeater::Bundle(b)]),
            ),
            OrBundleRepeater::Repeater(_) => s1,
        }
    }
}

/// The first `k` checks of `cs` put out on variable `v`.
pub open spec fn emit_checks(env: BuildEnv, s: BuildState, v: Variable, cs: Seq<Check>, k: int) -> BuildState
    decreases k,
{
    if k <= 0 {
        s
    } else {
        emit(env, emit_checks(env, s, v, cs, k - 1), StmtValueView::Check(v, cs[k - 1]))
    }
}

/// Step five of an assignment: the checks of the first `n` variables
/// assigned to.
pub open spec fn checks_all(env: BuildEnv, s: BuildState, vv: Seq<OrBundleRepeater<(Variable, Seq<Check>)>>, n: int) -> BuildState
    decreases n,
{
    if n <= 0 {
        s
    } else {
        let s1 = checks_all(env, s, vv, n - 1);
        match vv[n - 1] {
            OrBundleRepeater::Normal((v, cs)) => emit_checks(env, s1, v, cs, cs.len() as int),
            _ => s1,
        }
    }
}

/// The check statements for the checks of the first `n` variables of an
/// assignment: for each plain variable, one per check, in order.
pub open spec fn check_views(vv: Seq<OrBundleRepeater<(Variable, Seq<Check>)>>, n: int) -> Seq<StmtValueView>
    decreases n,
{
    if n <= 0 {
        Seq::empty()
    } else {
        check_views(vv, n - 1) + match vv[n - 1] {
            OrBundleRepeater::Normal((v, cs)) => cs.map_values(|c: Check| StmtValueView::Check(v, c)),
            _ => Seq::empty(),
        }
    }
}

/// A statement value put out at the location of `env`.
pub open spec fn located(env: BuildEnv, v: StmtValueView) -> StmtView {
    StmtView { value: v, file: env.file, line_no: env.line_no }
}

proof fn lemma_emit_checks_out(env: BuildEnv, s: BuildState, v: Variable, cs: Seq<Check>, k: int)
    requires
        0 <= k <= cs.len(),
    ensures
        emit_checks(env, s, v, cs, k).out == s.out + cs.take(k).map_values(|c: Check| located(env, StmtValueView::Check(v, c))),
    decreases k,
{
    if k > 0 {
        lemma_emit_checks_out(env, s, v, cs, k - 1);
        assert(cs.take(k).map_values(|c: Check| located(env, StmtValueView::Check(v, c))) =~= cs.take(k - 1).map_values(
            |c: Check| located(env, StmtValueView::Check(v, c)),
        ).push(located(env, StmtValueView::Check(v, cs[k - 1]))));
        assert(emit_checks(env, s, v, cs, k).out =~= s.out + cs.take(k).map_values(
            |c: Check| located(env, StmtValueView::Check(v, c)),
        ));
    } else {
        assert(s.out + cs.take(0).map_values(|c: Check| located(env, StmtValueView::Check(v, c))) =~= s.out);
    }
}

proof fn lemma_checks_all_out(env: BuildEnv, s: BuildState, vv: Seq<OrBundleRepeater<(Variable, Seq<Check>)>>, n: int)
    requires
        0 <= n <= vv.len(),
    ensures
        checks_all(env, s, vv, n).out == s.out + check_views(vv, n).map_values(|x: StmtValueView| located(env, x)),
    decreases n,
{
    let g = |x: StmtValueView| located(env, x);
    if n > 0 {
        lemma_checks_all_out(env, s, vv, n - 1);
        let s1 = checks_all(env, s, vv, n - 1);
        match vv[n - 1] {
            OrBundleRepeater::Normal((v, cs)) => {
                lemma_emit_checks_out(env, s1, v, cs, cs.len() as int);
                assert(cs.take(cs.len() as int) =~= cs);
                let tail = cs.map_values(|c: Check| StmtValueView::Check(v, c));
                assert(tail.map_values(g) =~= cs.map_values(|c: Check| located(env, StmtValueView::Check(v, c))));
                assert((check_views(vv, n - 1) + tail).map_values(g) =~= check_views(vv, n - 1).map_values(g)
                    + tail.map_values(g));
                assert(checks_all(env, s, vv, n).out =~= s.out + check_views(vv, n).map_values(g));
            },
            _ => {
                assert(check_views(vv, n) =~= check_views(vv, n - 1));
            },
        }
    } else {
        assert(s.out + check_views(vv, n).map_values(g) =~= s.out);
    }
}

/// Building an assignment that succeeds puts out, last, the size checks of
/// the variables it assigns: after everything else, one check statement
/// per check of each plain variable, in the order of the variables and of
/// their checks, at the statement's location.
pub proof fn assignment_ends_with_checks(
    env: BuildEnv,
    s: BuildState,
    vv: Seq<OrBundleRepeater<(Variable, Seq<Check>)>>,
    xx: Seq<OrBundle<PTExpression>>,
    declare: bool,
)
    requires
        make_stmt(env, s, vv, xx, declare).1 is Ok,
    ensures
        ({
            let out = make_stmt(env, s, vv, xx, declare).0.out;
            let cv = check_views(vv, vv.len() as int);
            &&& out.len() >= cv.len()
            &&& forall|k: int| 0 <= k < cv.len() ==> #[trigger] out[out.len() - cv.len() + k] == located(env, cv[k])
        }),
{
    let (s1, regs) = alloc_temps(env, s, vv, vv.len() as int);
    let top = if xx.len() == 1 { is_top_spec(env, xx[0]) } else { Ok(false) };
    let s2 = match top {
        Err(m) => s1,
        Ok(true) => match xx[0] {
            OrBundle::Normal(PTExpression::Call(c)) => top_call(env, s1, Some(regs), c).0,
            _ => s1,
        },
        Ok(false) => if vv.len() == xx.len() {
            assign_pairs(env, s1, xx, regs).0
        } else {
            s1
        },
    };
    let s3 = if declare { declare_all(env, s2, vv, vv.len() as int) } else { s2 };
    let s4 = copy_out(env, s3, vv, regs, vv.len() as int);
    lemma_checks_all_out(env, s4, vv, vv.len() as int);
    assert(make_stmt(env, s, vv, xx, declare).0 == checks_all(env, s4, vv, vv.len() as int));
}

/// The message for an assignment whose two sides differ in length.
pub open spec fn tuple_message(nv: nat, nx: nat) -> Seq<char> {
    "let tuples differ in length: "@ + decimal(nv) + " lvalues but "@ + decimal(nx) + " rvalues"@
}

/// Building an assignment of `xx` to `vv`, declaring the variables first
/// when `declare` is set.
pub open spec fn make_stmt(env: BuildEnv, s: BuildState, vv: Seq<OrBundleRepeater<(Variable, Seq<Check>)>>, xx: Seq<OrBundle<PTExpression>>, declare: bool) -> (BuildState, Result<(), Seq<char>>) {
    let (s1, regs) = alloc_temps(env, s, vv, vv.len() as int);
    let top = if xx.len() == 1 { is_top_spec(env, xx[0]) } else { Ok(false) };
    let (s2, r2) = match top {
        Err(m) => (s1, Err(m)),
        Ok(true) => match xx[0] {
            OrBundle::Normal(PTExpression::Call(c)) => top_call(env, s1, Some(regs), c),
            _ => (s1, Err(tuple_message(vv.len(), xx.len()))),
        },
        Ok(false) => if vv.len() == xx.len() {
            assign_pairs(env, s1, xx, regs)
        } else {
            (s1, Err(tuple_message(vv.len(), xx.len())))
        },
    };
    match r2 {
        Err(m) => (s2, Err(m)),
        Ok(_) => {
            let s3 = if declare { declare_all(env, s2, vv, vv.len() as int) } else { s2 };
            let s4 = copy_out(env, s3, vv, regs, vv.len() as int);
            (checks_all(env, s4, vv, vv.len() as int), Ok(()))
        },
    }
}

proof fn lemma_emit_grows(env: BuildEnv, s: BuildState, v: StmtValueView)
    ensures
        grows(s, emit(env, s, v)),
{
    assert(emit(env, s, v).out.take(s.out.len() as int) =~= s.out);
}

proof fn lemma_alloc_temps_grows(env: BuildEnv, s: BuildState, vv: Seq<OrBundleRepeater<(Variable, Seq<Check>)>>, n: int)
    ensures
        grows(s, alloc_temps(env, s, vv, n).0),
        n >= 0 ==> alloc_temps(env, s, vv, n).1.len() == n,
    decreases n,
{
    lemma_grows_refl(s);
    if n > 0 {
        lemma_alloc_temps_grows(env, s, vv, n - 1);
        let (s1, regs) = alloc_temps(env, s, vv, n - 1);
        let bumped = BuildState { registers: s1.registers + 1, calls: s1.calls, out: s1.out };
        assert(bumped.out.take(s1.out.len() as int) =~= s1.out);
        lemma_grows_trans(s, s1, bumped);
        match vv[n - 1] {
            OrBundleRepeater::Repeater(r) => {
                lemma_emit_grows(env, s1, StmtValueView::Declare(OrBundleRepeater::Repeater(r)));
                lemma_grows_trans(s, s1, emit(env, s1, StmtValueView::Declare(OrBundleRepeater::Repeater(r))));
            },
            _ => {},
        }
    }
}

proof fn lemma_assign_pairs_grows(env: BuildEnv, s: BuildState, xx: Seq<OrBundle<PTExpression>>, regs: Seq<OrBundleRepeater<BTLValue>>)
    ensures
        grows(s, assign_pairs(env, s, xx, regs).0),
    decreases xx.len(),
{
    lemma_grows_refl(s);
    if xx.len() > 0 {
        let (s1, r) = match xx[0] {
            OrBundle::Normal(e) => {
                let (s1, r) = build_expr(env, s, e);
                (s1, match r {
                    Ok(v) => Ok(OrBundleRepeater::Normal(v)),
                    Err(m) => Err(m),
                })
            },
            OrBundle::Bundle(b) => (s, Ok(OrBundleRepeater::Bundle(b))),
        };
        match xx[0] {
            OrBundle::Normal(e) => lemma_build_expr_grows(env, s, e),
            _ => {},
        }
        match r {
            Err(m) => {},
            Ok(arg) => {
                let s2 = call_stmt(env, s1, None, seq![arg], Some(seq![regs[0]]));
                lemma_call_stmt_grows(env, s1, None, seq![arg], Some(seq![regs[0]]));
                lemma_assign_pairs_grows(env, s2, xx.subrange(1, xx.len() as int), regs.subrange(1, regs.len() as int));
                lemma_grows_trans(s, s1, s2);
                lemma_grows_trans(s, s2, assign_pairs(env, s2, xx.subrange(1, xx.len() as int), regs.subrange(1, regs.len() as int)).0);
            },
        }
    }
}

proof fn lemma_top_call_grows(env: BuildEnv, s: BuildState, rets: Option<Seq<OrBundleRepeater<BTLValue>>>, call: PTCall)
    ensures
        grows(s, top_call(env, s, rets, call).0),
{
    lemma_grows_refl(s);
    match lookup_top_spec(env, call.name@) {
        Err(m) => {},
        Ok(i) => {
            lemma_build_args_grows(env, s, call.args@);
            let (s1, r) = build_args(env, s, call.args@);
            match r {
                Err(m) => {},
                Ok(av) => {
                    lemma_call_stmt_grows(env, s1, Some(i), av, rets);
                    lemma_grows_trans(s, s1, call_stmt(env, s1, Some(i), av, rets));
                },
            }
        },
    }
}

proof fn lemma_declare_all_grows(env: BuildEnv, s: BuildState, vv: Seq<OrBundleRepeater<(Variable, Seq<Check>)>>, n: int)
    ensures
        grows(s, declare_all(env, s, vv, n)),
        declare_all(env, s, vv, n).registers == s.registers,
        declare_all(env, s, vv, n).calls == s.calls,
    decreases n,
{
    lemma_grows_refl(s);
    if n > 0 {
        lemma_declare_all_grows(env, s, vv, n - 1);
        let s1 = declare_all(env, s, vv, n - 1);
        match vv[n - 1] {
            OrBundleRepeater::Repeater(_) => {},
            _ => {
                lemma_emit_grows(env, s1, StmtValueView::Declare(declared(vv[n - 1])));
                lemma_grows_trans(s, s1, emit(env, s1, StmtValueView::Declare(declared(vv[n - 1]))));
            },
        }
    }
}

proof fn lemma_copy_out_grows(env: BuildEnv, s: BuildState, vv: Seq<OrBundleRepeater<(Variable, Seq<Check>)>>, regs: Seq<OrBundleRepeater<BTLValue>>, n: int)
    ensures
        grows(s, copy_out(env, s, vv, regs, n)),
        copy_out(env, s, vv, regs, n).registers == s.registers,
    decreases n,
{
    lemma_grows_refl(s);
    if n > 0 {
        lemma_copy_out_grows(env, s, vv, regs, n - 1);
        let s1 = copy_out(env, s, vv, regs, n - 1);
        match vv[n - 1] {
            OrBundleRepeater::Normal((v, _)) => {
                let a = seq![rvalue_view(regs[n - 1])];
                let r = Some(seq![OrBundleRepeater::Normal(BTLValue::Variable(v))]);
                lemma_call_stmt_grows(env, s1, None, a, r);
                lemma_grows_trans(s, s1, call_stmt(env, s1, None, a, r));
            },
            OrBundleRepeater::Bundle(b) => {
                let a = seq![rvalue_view(regs[n - 1])];
                let r = Some(seq![OrBundleRepeater::Bundle(b)]);
                lemma_call_stmt_grows(env, s1, None, a, r);
                lemma_grows_trans(s, s1, call_stmt(env, s1, None, a, r));
            },
            OrBundleRepeater::Repeater(_) => {},
        }
    }
}

proof fn lemma_emit_checks_grows(env: BuildEnv, s: BuildState, v: Variable, cs: Seq<Check>, k: int)
    ensures
        grows(s, emit_checks(env, s, v, cs, k)),
        emit_checks(env, s, v, cs, k).registers == s.registers,
        emit_checks(env, s, v, cs, k).calls == s.calls,
    decreases k,
{
    lemma_grows_refl(s);
    if k > 0 {
        lemma_emit_checks_grows(env, s, v, cs, k - 1);
        let s1 = emit_checks(env, s, v, cs, k - 1);
        lemma_emit_grows(env, s1, StmtValueView::Check(v, cs[k - 1]));
        lemma_grows_trans(s, s1, emit(env, s1, StmtValueView::Check(v, cs[k - 1])));
    }
}

proof fn lemma_checks_all_grows(env: BuildEnv, s: BuildState, vv: Seq<OrBundleRepeater<(Variable, Seq<Check>)>>, n: int)
    ensures
        grows(s, checks_all(env, s, vv, n)),
        checks_all(env, s, vv, n).registers == s.registers,
        checks_all(env, s, vv, n).calls == s.calls,
    decreases n,
{
    lemma_grows_refl(s);
    if n > 0 {
        lemma_checks_all_grows(env, s, vv, n - 1);
        let s1 = checks_all(env, s, vv, n - 1);
        match vv[n - 1] {
            OrBundleRepeater::Normal((v, cs)) => {
                lemma_emit_checks_grows(env, s1, v, cs, cs.len() as int);
                lemma_grows_trans(s, s1, emit_checks(env, s1, v, cs, cs.len() as int));
            },
            _ => {},
        }
    }
}

proof fn lemma_alloc_temps_mono(env: BuildEnv, s: BuildState, vv: Seq<OrBundleRepeater<(Variable, Seq<Check>)>>, i: int, n: int)
    requires
        0 <= i <= n,
    ensures
        grows(alloc_temps(env, s, vv, i).0, alloc_temps(env, s, vv, n).0),
    decreases n - i,
{
    if i == n {
        lemma_grows_refl(alloc_temps(env, s, vv, i).0);
    } else {
        lemma_alloc_temps_mono(env, s, vv, i, n - 1);
        let s1 = alloc_temps(env, s, vv, n - 1).0;
        lemma_alloc_temps_grows(env, s1, vv, 0);
        let bumped = BuildState { registers: s1.registers + 1, calls: s1.calls, out: s1.out };
        assert(bumped.out.take(s1.out.len() as int) =~= s1.out);
        match vv[n - 1] {
            OrBundleRepeater::Repeater(r) => {
                lemma_emit_grows(env, s1, StmtValueView::Declare(OrBundleRepeater::Repeater(r)));
            },
            _ => {},
        }
        lemma_grows_trans(alloc_temps(env, s, vv, i).0, s1, alloc_temps(env, s, vv, n).0);
    }
}

proof fn lemma_declare_all_mono(env: BuildEnv, s: BuildState, vv: Seq<OrBundleRepeater<(Variable, Seq<Check>)>>, i: int, n: int)
    requires
        0 <= i <= n,
    ensures
        grows(declare_all(env, s, vv, i), declare_all(env, s, vv, n)),
    decreases n - i,
{
    if i == n {
        lemma_grows_refl(declare_all(env, s, vv, i));
    } else {
        lemma_declare_all_mono(env, s, vv, i, n - 1);
        let s1 = declare_all(env, s, vv, n - 1);
        lemma_grows_refl(s1);
        match vv[n - 1] {
            OrBundleRepeater::Repeater(_) => {},
            _ => lemma_emit_grows(env, s1, StmtValueView::Declare(declared(vv[n - 1]))),
        }
        lemma_grows_trans(declare_all(env, s, vv, i), s1, declare_all(env, s, vv, n));
    }
}

proof fn lemma_copy_out_mono(env: BuildEnv, s: BuildState, vv: Seq<OrBundleRepeater<(Variable, Seq<Check>)>>, regs: Seq<OrBundleRepeater<BTLValue>>, i: int, n: int)
    requires
        0 <= i <= n,
    ensures
        grows(copy_out(env, s, vv, regs, i), copy_out(env, s, vv, regs, n)),
    decreases n - i,
{
    if i == n {
        lemma_grows_refl(copy_out(env, s, vv, regs, i));
    } else {
        lemma_copy_out_mono(env, s, vv, regs, i, n - 1);
        let s1 = copy_out(env, s, vv, regs, n - 1);
        lemma_grows_refl(s1);
        match vv[n - 1] {
            OrBundleRepeater::Normal((v, _)) => lemma_call_stmt_grows(
                env,
                s1,
                None,
                seq![rvalue_view(regs[n - 1])],
                Some(seq![OrBundleRepeater::Normal(BTLValue::Variable(v))]),
            ),
            OrBundleRepeater::Bundle(b) => lemma_call_stmt_grows(
                env,
                s1,
                None,
                seq![rvalue_view(regs[n - 1])],
                Some(seq![OrBundleRepeater::Bundle(b)]),
            ),
            OrBundleRepeater::Repeater(_) => {},
        }
        lemma_grows_trans(copy_out(env, s, vv, regs, i), s1, copy_out(env, s, vv, regs, n));
    }
}

proof fn lemma_checks_all_mono(env: BuildEnv, s: BuildState, vv: Seq<OrBundleRepeater<(Variable, Seq<Check>)>>, i: int, n: int)
    requires
        0 <= i <= n,
    ensures
        grows(checks_all(env, s, vv, i), checks_all(env, s, vv, n)),
    decreases n - i,
{
    if i == n {
        lemma_grows_refl(checks_all(env, s, vv, i));
    } else {
        lemma_checks_all_mono(env, s, vv, i, n - 1);
        let s1 = checks_all(env, s, vv, n - 1);
        lemma_grows_refl(s1);
        match vv[n - 1] {
            OrBundleRepeater::Normal((v, cs)) => lemma_emit_checks_grows(env, s1, v, cs, cs.len() as int),
            _ => {},
        }
        lemma_grows_trans(checks_all(env, s, vv, i), s1, checks_all(env, s, vv, n));
    }
}

/// The right-hand sides of an assignment have no operator left in them.
pub open spec fn plain_rhs(xx: Seq<OrBundle<PTExpression>>) -> bool {
    forall|i: int| 0 <= i < xx.len() ==> (#[trigger] xx[i] matches OrBundle::Normal(e) ==> plain_expr(e))
}

/// A copy of a check.
pub fn copy_check(c: &Check) -> (r: Check)
    ensures
        r == *c,
{
    Check { check_type: c.check_type, name: c.name.clone(), force: c.force }
}

/// A copy of something assignable.
fn copy_lvalue(l: &OrBundleRepeater<BTLValue>) -> (r: OrBundleRepeater<BTLValue>)
    ensures
        r == *l,
{
    match l {
        OrBundleRepeater::Normal(BTLValue::Variable(v)) => OrBundleRepeater::Normal(BTLValue::Variable(copy_variable(v))),
        OrBundleRepeater::Normal(BTLValue::Register(r, t)) => OrBundleRepeater::Normal(BTLValue::Register(*r, *t)),
        OrBundleRepeater::Bundle(b) => OrBundleRepeater::Bundle(b.clone()),
        OrBundleRepeater::Repeater(x) => OrBundleRepeater::Repeater(x.clone()),
    }
}

/// A copy of things assignable.
fn copy_lvalues(v: &Vec<OrBundleRepeater<BTLValue>>) -> (r: Vec<OrBundleRepeater<BTLValue>>)
    ensures
        r@ == v@,
{
    let mut r: Vec<OrBundleRepeater<BTLValue>> = Vec::new();
    let mut i: usize = 0;
    while i < v.len()
        invariant
            i <= v@.len(),
            r@ == v@.take(i as int),
        decreases v@.len() - i,
    {
        r.push(copy_lvalue(&v[i]));
        i += 1;
        proof {
            assert(r@ =~= v@.take(i as int));
        }
    }
    proof {
        assert(v@.take(i as int) =~= v@);
    }
    r
}

impl BuildContext {
    /// Puts out the declaration of what a let binds.
    fn build_declare(&mut self, bt: &mut BuildTree, decl: &OrBundleRepeater<(Variable, Vec<Check>)>) -> (r: Result<(), String>)
        requires
            old(self).wf(),
        ensures
            r is Ok,
            final(self).moved_on(*final(bt), *old(self), *old(bt)),
            final(self).state(*final(bt)) == emit(old(self).env(), old(self).state(*old(bt)), StmtValueView::Declare(declared(let_view(*decl)))),
    {
        let d = match decl {
            OrBundleRepeater::Normal((v, _)) => OrBundleRepeater::Normal(copy_variable(v)),
            OrBundleRepeater::Bundle(b) => OrBundleRepeater::Bundle(b.clone()),
            OrBundleRepeater::Repeater(x) => OrBundleRepeater::Repeater(x.clone()),
        };
        self.add_statement(bt, BTStatementValue::Declare(d))
    }

    /// Puts out the checks of a variable a let binds.
    fn build_checks(&mut self, bt: &mut BuildTree, decl: &OrBundleRepeater<(Variable, Vec<Check>)>) -> (r: Result<(), String>)
        requires
            old(self).wf(),
        ensures
            r is Ok,
            final(self).moved_on(*final(bt), *old(self), *old(bt)),
            final(self).state(*final(bt)) == match *decl {
                OrBundleRepeater::Normal((v, cs)) => emit_checks(old(self).env(), old(self).state(*old(bt)), v, cs@, cs@.len() as int),
                _ => old(self).state(*old(bt)),
            },
    {
        let ghost b0 = *self;
        let ghost bt0 = *bt;
        let ghost env = self.env();
        let ghost s0 = self.state(*bt);
        proof {
            self.lemma_moved_on_refl(*bt);
        }
        match decl {
            OrBundleRepeater::Normal((var, checks)) => {
                let mut i: usize = 0;
                while i < checks.len()
                    invariant
                        b0 == *old(self),
                        bt0 == *old(bt),
                        env == old(self).env(),
                        s0 == old(self).state(*old(bt)),
                        i <= checks@.len(),
                        self.wf(),
                        self.moved_on(*bt, b0, bt0),
                        self.env() == env,
                        self.state(*bt) == emit_checks(env, s0, *var, checks@, i as int),
                    decreases checks@.len() - i,
                {
                    let ghost b1 = *self;
                    let ghost bt1 = *bt;
                    let _ = self.add_statement(bt, BTStatementValue::Check(copy_variable(var), copy_check(&checks[i])));
                    proof {
                        self.lemma_moved_on_trans(*bt, b1, bt1, b0, bt0);
                    }
                    i += 1;
                }
                Ok(())
            },
            _ => Ok(()),
        }
    }

    /// Step one of an assignment: the temporaries.
    fn make_temps(&mut self, bt: &mut BuildTree, vv: &Vec<OrBundleRepeater<(Variable, Vec<Check>)>>) -> (r: Vec<OrBundleRepeater<BTLValue>>)
        requires
            old(self).wf(),
            fits(alloc_temps(old(self).env(), old(self).state(*old(bt)), lets_view(vv@), lets_view(vv@).len() as int).0),
        ensures
            final(self).moved_on(*final(bt), *old(self), *old(bt)),
            final(self).state(*final(bt)) == alloc_temps(old(self).env(), old(self).state(*old(bt)), lets_view(vv@), lets_view(vv@).len() as int).0,
            r@ == alloc_temps(old(self).env(), old(self).state(*old(bt)), lets_view(vv@), lets_view(vv@).len() as int).1,
    {
        let ghost b0 = *self;
        let ghost bt0 = *bt;
        let ghost env = self.env();
        let ghost s0 = self.state(*bt);
        proof {
            self.lemma_moved_on_refl(*bt);
        }
        let mut regs: Vec<OrBundleRepeater<BTLValue>> = Vec::new();
        let mut i: usize = 0;
        while i < vv.len()
            invariant
                b0 == *old(self),
                bt0 == *old(bt),
                env == old(self).env(),
                s0 == old(self).state(*old(bt)),
                i <= lets_view(vv@).len(),
                self.wf(),
                self.moved_on(*bt, b0, bt0),
                self.env() == env,
                self.state(*bt) == alloc_temps(env, s0, lets_view(vv@), i as int).0,
                regs@ == alloc_temps(env, s0, lets_view(vv@), i as int).1,
                fits(alloc_temps(env, s0, lets_view(vv@), lets_view(vv@).len() as int).0),
            decreases lets_view(vv@).len() - i,
        {
            let ghost b1 = *self;
            let ghost bt1 = *bt;
            proof {
                lemma_alloc_temps_mono(env, s0, lets_view(vv@), i + 1, lets_view(vv@).len() as int);
            }
            match &vv[i] {
                OrBundleRepeater::Normal(_) => {
                    let reg = self.allocate_register();
                    proof {
                        self.lemma_counter_step(*bt, b1);
                        self.lemma_moved_on_trans(*bt, b1, bt1, b0, bt0);
                    }
                    regs.push(OrBundleRepeater::Normal(BTLValue::Register(reg, BTRegisterType::Normal)));
                },
                OrBundleRepeater::Bundle(_) => {
                    let reg = self.allocate_register();
                    proof {
                        self.lemma_counter_step(*bt, b1);
                        self.lemma_moved_on_trans(*bt, b1, bt1, b0, bt0);
                    }
                    regs.push(OrBundleRepeater::Normal(BTLValue::Register(reg, BTRegisterType::Bundle)));
                },
                OrBundleRepeater::Repeater(x) => {
                    let _ = self.build_declare(bt, &vv[i]);
                    proof {
                        self.lemma_moved_on_trans(*bt, b1, bt1, b0, bt0);
                    }
                    regs.push(OrBundleRepeater::Repeater(x.clone()));
                },
            }
            i += 1;
        }
        regs
    }

    /// Step two of an assignment, pairing right-hand sides with temporaries.
    fn assign_all(&mut self, bt: &mut BuildTree, xx: &Vec<OrBundle<PTExpression>>, regs: &Vec<OrBundleRepeater<BTLValue>>) -> (r: Result<(), String>)
        requires
            old(self).wf(),
            xx@.len() == regs@.len(),
            plain_rhs(xx@),
            fits(assign_pairs(old(self).env(), old(self).state(*old(bt)), xx@, regs@).0),
        ensures
            final(self).moved_on(*final(bt), *old(self), *old(bt)),
            final(self).state(*final(bt)) == assign_pairs(old(self).env(), old(self).state(*old(bt)), xx@, regs@).0,
            match assign_pairs(old(self).env(), old(self).state(*old(bt)), xx@, regs@).1 {
                Ok(_) => r is Ok,
                Err(m) => r matches Err(e) && e@ == m,
            },
    {
        let ghost b0 = *self;
        let ghost bt0 = *bt;
        let ghost env = self.env();
        let ghost whole = assign_pairs(env, self.state(*bt), xx@, regs@);
        proof {
            self.lemma_moved_on_refl(*bt);
            assert(xx@.subrange(0, xx@.len() as int) =~= xx@);
            assert(regs@.subrange(0, regs@.len() as int) =~= regs@);
        }
        let mut i: usize = 0;
        while i < xx.len()
            invariant
                b0 == *old(self),
                bt0 == *old(bt),
                env == old(self).env(),
                whole == assign_pairs(old(self).env(), old(self).state(*old(bt)), xx@, regs@),
                xx@.len() == regs@.len(),
                plain_rhs(xx@),
                i <= xx@.len(),
                self.wf(),
                self.moved_on(*bt, b0, bt0),
                self.env() == env,
                assign_pairs(env, self.state(*bt), xx@.subrange(i as int, xx@.len() as int), regs@.subrange(i as int, regs@.len() as int)) == whole,
                fits(whole.0),
            decreases xx@.len() - i,
        {
            let ghost rest = xx@.subrange(i as int, xx@.len() as int);
            let ghost rrest = regs@.subrange(i as int, regs@.len() as int);
            let ghost b1 = *self;
            let ghost bt1 = *bt;
            let ghost s1 = self.state(*bt);
            proof {
                assert(rest[0] == xx@[i as int]);
                assert(rrest[0] == regs@[i as int]);
                assert(rest.subrange(1, rest.len() as int) =~= xx@.subrange(i + 1, xx@.len() as int));
                assert(rrest.subrange(1, rrest.len() as int) =~= regs@.subrange(i + 1, regs@.len() as int));
                lemma_assign_pairs_grows(env, s1, rest, rrest);
                match rest[0] {
                    OrBundle::Normal(e) => {
                        lemma_build_expr_grows(env, s1, e);
                        let (s2, r2) = build_expr(env, s1, e);
                        if r2 is Ok {
                            let arg = OrBundleRepeater::Normal(r2->Ok_0);
                            lemma_call_stmt_grows(env, s2, None, seq![arg], Some(seq![rrest[0]]));
                            let s3 = call_stmt(env, s2, None, seq![arg], Some(seq![rrest[0]]));
                            lemma_assign_pairs_grows(env, s3, rest.subrange(1, rest.len() as int), rrest.subrange(1, rrest.len() as int));
                        }
                    },
                    OrBundle::Bundle(b) => {
                        let arg = OrBundleRepeater::<ExprView>::Bundle(b);
                        lemma_call_stmt_grows(env, s1, None, seq![arg], Some(seq![rrest[0]]));
                        let s3 = call_stmt(env, s1, None, seq![arg], Some(seq![rrest[0]]));
                        lemma_assign_pairs_grows(env, s3, rest.subrange(1, rest.len() as int), rrest.subrange(1, rrest.len() as int));
                    },
                }
            }
            let arg = match &xx[i] {
                OrBundle::Normal(e) => {
                    let built = self.build_expression(bt, e);
                    proof {
                        self.lemma_moved_on_trans(*bt, b1, bt1, b0, bt0);
                    }
                    match built {
                        Ok(be) => OrBundleRepeater::Normal(be),
                        Err(m) => {
                            return Err(m);
                        },
                    }
                },
                OrBundle::Bundle(b) => OrBundleRepeater::Bundle(b.clone()),
            };
            let ghost b2 = *self;
            let ghost bt2 = *bt;
            let mut args: Vec<OrBundleRepeater<BTExpression>> = Vec::new();
            let ghost e0 = args@;
            args.push(arg);
            let mut rets: Vec<OrBundleRepeater<BTLValue>> = Vec::new();
            rets.push(copy_lvalue(&regs[i]));
            proof {
                lemma_args_view_empty();
                lemma_args_view_push(e0, arg);
                assert(args_view(args@) =~= seq![arg_view(arg)]);
                assert(rets@ =~= seq![regs@[i as int]]);
            }
            self.put_call(bt, None, args, Some(rets));
            proof {
                self.lemma_moved_on_trans(*bt, b2, bt2, b0, bt0);
            }
            i += 1;
        }
        proof {
            assert(xx@.subrange(i as int, xx@.len() as int).len() == 0);
        }
        Ok(())
    }
}

impl BuildContext {
    /// Step three of a let: declares what it binds, but for repeaters.
    fn declare_each(&mut self, bt: &mut BuildTree, vv: &Vec<OrBundleRepeater<(Variable, Vec<Check>)>>)
        requires
            old(self).wf(),
        ensures
            final(self).moved_on(*final(bt), *old(self), *old(bt)),
            final(self).state(*final(bt)) == declare_all(old(self).env(), old(self).state(*old(bt)), lets_view(vv@), lets_view(vv@).len() as int),
    {
        let ghost b0 = *self;
        let ghost bt0 = *bt;
        let ghost env = self.env();
        let ghost s0 = self.state(*bt);
        proof {
            self.lemma_moved_on_refl(*bt);
        }
        let mut i: usize = 0;
        while i < vv.len()
            invariant
                b0 == *old(self),
                bt0 == *old(bt),
                env == old(self).env(),
                s0 == old(self).state(*old(bt)),
                i <= lets_view(vv@).len(),
                self.wf(),
                self.moved_on(*bt, b0, bt0),
                self.env() == env,
                self.state(*bt) == declare_all(env, s0, lets_view(vv@), i as int),
            decreases lets_view(vv@).len() - i,
        {
            let ghost b1 = *self;
            let ghost bt1 = *bt;
            match &vv[i] {
                OrBundleRepeater::Repeater(_) => {},
                _ => {
                    let _ = self.build_declare(bt, &vv[i]);
                    proof {
                        self.lemma_moved_on_trans(*bt, b1, bt1, b0, bt0);
                    }
                },
            }
            i += 1;
        }
    }

    /// Step four of an assignment: sets each variable and bundle from its
    /// temporary.
    fn copy_each(&mut self, bt: &mut BuildTree, vv: &Vec<OrBundleRepeater<(Variable, Vec<Check>)>>, regs: &Vec<OrBundleRepeater<BTLValue>>)
        requires
            old(self).wf(),
            lets_view(vv@).len() == regs@.len(),
            fits(copy_out(old(self).env(), old(self).state(*old(bt)), lets_view(vv@), regs@, lets_view(vv@).len() as int)),
        ensures
            final(self).moved_on(*final(bt), *old(self), *old(bt)),
            final(self).state(*final(bt)) == copy_out(old(self).env(), old(self).state(*old(bt)), lets_view(vv@), regs@, lets_view(vv@).len() as int),
    {
        let ghost b0 = *self;
        let ghost bt0 = *bt;
        let ghost env = self.env();
        let ghost s0 = self.state(*bt);
        proof {
            self.lemma_moved_on_refl(*bt);
        }
        let mut i: usize = 0;
        while i < vv.len()
            invariant
                b0 == *old(self),
                bt0 == *old(bt),
                env == old(self).env(),
                s0 == old(self).state(*old(bt)),
                lets_view(vv@).len() == regs@.len(),
                i <= lets_view(vv@).len(),
                self.wf(),
                self.moved_on(*bt, b0, bt0),
                self.env() == env,
                self.state(*bt) == copy_out(env, s0, lets_view(vv@), regs@, i as int),
                fits(copy_out(env, s0, lets_view(vv@), regs@, lets_view(vv@).len() as int)),
            decreases lets_view(vv@).len() - i,
        {
            let ghost b1 = *self;
            let ghost bt1 = *bt;
            proof {
                lemma_copy_out_mono(env, s0, lets_view(vv@), regs@, i + 1, lets_view(vv@).len() as int);
            }
            let lvalue = match &vv[i] {
                OrBundleRepeater::Normal((v, _)) => Some(OrBundleRepeater::Normal(BTLValue::Variable(copy_variable(v)))),
                OrBundleRepeater::Bundle(b) => Some(OrBundleRepeater::Bundle(b.clone())),
                OrBundleRepeater::Repeater(_) => None,
            };
            match lvalue {
                Some(lv) => {
                    let mut args: Vec<OrBundleRepeater<BTExpression>> = Vec::new();
                    let ghost e0 = args@;
                    let rv = self.lvalue_to_rvalue(&regs[i]);
                    args.push(rv);
                    let mut rets: Vec<OrBundleRepeater<BTLValue>> = Vec::new();
                    rets.push(lv);
                    proof {
                        lemma_args_view_empty();
                        lemma_args_view_push(e0, rv);
                        assert(args_view(args@) =~= seq![rvalue_view(regs@[i as int])]);
                        assert(rets@ =~= seq![lv]);
                    }
                    self.put_call(bt, None, args, Some(rets));
                    proof {
                        self.lemma_moved_on_trans(*bt, b1, bt1, b0, bt0);
                    }
                },
                None => {},
            }
            i += 1;
        }
    }

    /// Step five of an assignment: the checks of each variable bound.
    fn check_each(&mut self, bt: &mut BuildTree, vv: &Vec<OrBundleRepeater<(Variable, Vec<Check>)>>)
        requires
            old(self).wf(),
        ensures
            final(self).moved_on(*final(bt), *old(self), *old(bt)),
            final(self).state(*final(bt)) == checks_all(old(self).env(), old(self).state(*old(bt)), lets_view(vv@), lets_view(vv@).len() as int),
    {
        let ghost b0 = *self;
        let ghost bt0 = *bt;
        let ghost env = self.env();
        let ghost s0 = self.state(*bt);
        proof {
            self.lemma_moved_on_refl(*bt);
        }
        let mut i: usize = 0;
        while i < vv.len()
            invariant
                b0 == *old(self),
                bt0 == *old(bt),
                env == old(self).env(),
                s0 == old(self).state(*old(bt)),
                i <= lets_view(vv@).len(),
                self.wf(),
                self.moved_on(*bt, b0, bt0),
                self.env() == env,
                self.state(*bt) == checks_all(env, s0, lets_view(vv@), i as int),
            decreases lets_view(vv@).len() - i,
        {
            let ghost b1 = *self;
            let ghost bt1 = *bt;
            let _ = self.build_checks(bt, &vv[i]);
            proof {
                self.lemma_moved_on_trans(*bt, b1, bt1, b0, bt0);
            }
            i += 1;
        }
    }

    /// Whether the single right-hand side `x` calls a procedure or code.
    fn is_top(&self, x: &OrBundle<PTExpression>) -> (r: Result<bool, String>)
        requires
            self.wf(),
        ensures
            match is_top_spec(self.env(), *x) {
                Ok(b) => r == Ok::<bool, String>(b),
                Err(m) => r matches Err(e) && e@ == m,
            },
    {
        match x {
            OrBundle::Normal(PTExpression::Call(c)) => match self.lookup(c.name.as_str()) {
                Ok(DefName::Func(_)) => Ok(false),
                Ok(_) => Ok(true),
                Err(e) => Err(e),
            },
            _ => Ok(false),
        }
    }

    /// Puts out a call of the procedure or code named by `call`, returning
    /// into `rets`.
    fn build_top(&mut self, rets: Option<Vec<OrBundleRepeater<BTLValue>>>, bt: &mut BuildTree, call: &PTCall) -> (r: Result<(), String>)
        requires
            old(self).wf(),
            plain_args(call.args@),
            fits(top_call(old(self).env(), old(self).state(*old(bt)), rets_view(rets), *call).0),
        ensures
            final(self).moved_on(*final(bt), *old(self), *old(bt)),
            final(self).state(*final(bt)) == top_call(old(self).env(), old(self).state(*old(bt)), rets_view(rets), *call).0,
            match top_call(old(self).env(), old(self).state(*old(bt)), rets_view(rets), *call).1 {
                Ok(_) => r is Ok,
                Err(m) => r matches Err(e) && e@ == m,
            },
    {
        let ghost b0 = *self;
        let ghost bt0 = *bt;
        let ghost env = self.env();
        let ghost s0 = self.state(*bt);
        proof {
            self.lemma_moved_on_refl(*bt);
        }
        let index = match self.lookup_top(call.name.as_str()) {
            Ok(i) => i,
            Err(e) => {
                return Err(e);
            },
        };
        proof {
            lemma_build_args_grows(env, s0, call.args@);
            let (s1, r1) = build_args(env, s0, call.args@);
            if r1 is Ok {
                lemma_call_stmt_grows(env, s1, Some(index), r1->Ok_0, rets_view(rets));
            }
        }
        let args = match self.build_call_args(bt, &call.args) {
            Ok(a) => a,
            Err(e) => {
                return Err(e);
            },
        };
        let ghost b1 = *self;
        let ghost bt1 = *bt;
        self.put_call(bt, Some(index), args, rets);
        proof {
            self.lemma_moved_on_trans(*bt, b1, bt1, b0, bt0);
        }
        Ok(())
    }

    /// Builds an assignment of `xx` to `vv`, declaring the variables first
    /// when `declare` is set: temporaries first, then the values into them
    /// (all at once from a single procedure call, else pairwise), then the
    /// variables from the temporaries, then the checks.
    pub fn make_statement(&mut self, vv: &Vec<OrBundleRepeater<(Variable, Vec<Check>)>>, xx: &Vec<OrBundle<PTExpression>>, declare: bool, bt: &mut BuildTree) -> (r: Result<(), String>)
        requires
            old(self).wf(),
            plain_rhs(xx@),
            fits(make_stmt(old(self).env(), old(self).state(*old(bt)), lets_view(vv@), xx@, declare).0),
        ensures
            final(self).moved_on(*final(bt), *old(self), *old(bt)),
            final(self).state(*final(bt)) == make_stmt(old(self).env(), old(self).state(*old(bt)), lets_view(vv@), xx@, declare).0,
            match make_stmt(old(self).env(), old(self).state(*old(bt)), lets_view(vv@), xx@, declare).1 {
                Ok(_) => r is Ok,
                Err(m) => r matches Err(e) && e@ == m,
            },
    {
        let ghost b0 = *self;
        let ghost bt0 = *bt;
        let ghost env = self.env();
        let ghost s0 = self.state(*bt);
        let ghost n = lets_view(vv@).len() as int;
        let ghost (s1, regs_s) = alloc_temps(env, s0, lets_view(vv@), n);
        proof {
            self.lemma_moved_on_refl(*bt);
            lemma_alloc_temps_grows(env, s0, lets_view(vv@), n);
        }
        let ghost whole = make_stmt(env, s0, lets_view(vv@), xx@, declare);
        let ghost top = if xx@.len() == 1 { is_top_spec(env, xx@[0]) } else { Ok(false) };
        let ghost (s2, r2) = match top {
            Err(m) => (s1, Err(m)),
            Ok(true) => match xx@[0] {
                OrBundle::Normal(PTExpression::Call(c)) => top_call(env, s1, Some(regs_s), c),
                _ => (s1, Err(tuple_message(lets_view(vv@).len(), xx@.len()))),
            },
            Ok(false) => if lets_view(vv@).len() == xx@.len() {
                assign_pairs(env, s1, xx@, regs_s)
            } else {
                (s1, Err(tuple_message(lets_view(vv@).len(), xx@.len())))
            },
        };
        proof {
            match top {
                Ok(true) => match xx@[0] {
                    OrBundle::Normal(PTExpression::Call(c)) => lemma_top_call_grows(env, s1, Some(regs_s), c),
                    _ => lemma_grows_refl(s1),
                },
                Ok(false) => if lets_view(vv@).len() == xx@.len() {
                    lemma_assign_pairs_grows(env, s1, xx@, regs_s);
                } else {
                    lemma_grows_refl(s1);
                },
                Err(_) => lemma_grows_refl(s1),
            }
            if r2 is Ok {
                let s3 = if declare { declare_all(env, s2, lets_view(vv@), n) } else { s2 };
                lemma_declare_all_grows(env, s2, lets_view(vv@), n);
                lemma_grows_refl(s2);
                let s4 = copy_out(env, s3, lets_view(vv@), regs_s, n);
                lemma_copy_out_grows(env, s3, lets_view(vv@), regs_s, n);
                lemma_checks_all_grows(env, s4, lets_view(vv@), n);
                lemma_grows_trans(s2, s3, s4);
                lemma_grows_trans(s2, s4, checks_all(env, s4, lets_view(vv@), n));
                lemma_grows_trans(s1, s2, whole.0);
            }
        }
        let regs = self.make_temps(bt, vv);
        let ghost b1 = *self;
        let ghost bt1 = *bt;
        proof {
            b1.lemma_moved_on_refl(bt1);
        }
        let top_exec = if xx.len() == 1 {
            self.is_top(&xx[0])
        } else {
            Ok(false)
        };
        let stepped = match top_exec {
            Err(e) => Err(e),
            Ok(true) => match &xx[0] {
                OrBundle::Normal(PTExpression::Call(call)) => {
                    proof {
                        assert(plain_rhs(xx@) ==> plain_expr(PTExpression::Call(*call)));
                    }
                    self.build_top(Some(copy_lvalues(&regs)), bt, call)
                },
                _ => {
                    let mut e = owned("let tuples differ in length: ");
                    push_decimal(&mut e, vv.len() as u64);
                    push_str(&mut e, " lvalues but ");
                    push_decimal(&mut e, xx.len() as u64);
                    push_str(&mut e, " rvalues");
                    proof {
                        reveal_strlit("let tuples differ in length: ");
                        reveal_strlit(" lvalues but ");
                        reveal_strlit(" rvalues");
                    }
                    Err(e)
                },
            },
            Ok(false) => {
                if vv.len() == xx.len() {
                    self.assign_all(bt, xx, &regs)
                } else {
                    let mut e = owned("let tuples differ in length: ");
                    push_decimal(&mut e, vv.len() as u64);
                    push_str(&mut e, " lvalues but ");
                    push_decimal(&mut e, xx.len() as u64);
                    push_str(&mut e, " rvalues");
                    proof {
                        reveal_strlit("let tuples differ in length: ");
                        reveal_strlit(" lvalues but ");
                        reveal_strlit(" rvalues");
                    }
                    Err(e)
                }
            },
        };
        proof {
            self.lemma_moved_on_trans(*bt, b1, bt1, b0, bt0);
        }
        match stepped {
            Err(e) => {
                return Err(e);
            },
            Ok(_) => {},
        }
        let ghost b2 = *self;
        let ghost bt2 = *bt;
        if declare {
            self.declare_each(bt, vv);
            proof {
                self.lemma_moved_on_trans(*bt, b2, bt2, b0, bt0);
            }
        }
        let ghost b3 = *self;
        let ghost bt3 = *bt;
        self.copy_each(bt, vv, &regs);
        proof {
            self.lemma_moved_on_trans(*bt, b3, bt3, b0, bt0);
        }
        let ghost b4 = *self;
        let ghost bt4 = *bt;
        self.check_each(bt, vv);
        proof {
            self.lemma_moved_on_trans(*bt, b4, bt4, b0, bt0);
        }
        Ok(())
    }
}

/// The abstract value of a function or procedure definition.
pub struct FuncProcView {
    pub file: Seq<String>,
    pub line_no: usize,
    pub args: Seq<OrBundle<TypedArgument>>,
    pub captures: Seq<OrBundle<Variable>>,
    pub block: Seq<StmtView>,
    pub ret: Seq<OrBundle<ExprView>>,
    pub ret_type: Option<Seq<ArgTypeSpec>>,
}

/// The abstract value of a definition: code as its blocks and the number
/// of results they share.
pub enum DefView {
    Func(FuncProcView),
    Proc(FuncProcView),
    Code(Seq<CodeBlock>, Option<usize>),
}

/// The abstract value of the function or procedure being defined.
pub struct TargetView {
    pub file: Seq<String>,
    pub line_no: usize,
    pub block: Seq<StmtView>,
    pub name: Seq<char>,
    pub export: bool,
    pub args: Seq<OrBundle<TypedArgument>>,
    pub captures: Seq<OrBundle<Variable>>,
    pub variety: BTDefinitionVariety,
    pub ret_type: Option<Seq<ArgTypeSpec>>,
}

/// Everything a build changes: names, definitions, top-level statements,
/// the definition under way and the counters.
pub struct TreeState {
    pub names: Map<(Option<usize>, Seq<char>), DefName>,
    pub defs: Seq<DefView>,
    pub statements: Seq<StmtView>,
    pub target: Option<TargetView>,
    pub registers: int,
    pub calls: int,
}

/// The abstract value of a returned value.
pub open spec fn ob_view(x: OrBundle<BTExpression>) -> OrBundle<ExprView> {
    match x {
        OrBundle::Normal(e) => OrBundle::Normal(expr_view(e)),
        OrBundle::Bundle(b) => OrBundle::Bundle(b),
    }
}

/// The abstract value of a function or procedure definition.
pub open spec fn fp_view(f: BTFuncProcDefinition) -> FuncProcView {
    FuncProcView {
        file: f.position.0@,
        line_no: f.position.1,
        args: f.args@,
        captures: f.captures@,
        block: stmts_view(f.block@),
        ret: f.ret@.map_values(|x: OrBundle<BTExpression>| ob_view(x)),
        ret_type: rt_view(f.ret_type),
    }
}

/// The abstract value of a definition.
pub open spec fn def_view(d: BTDefinition) -> DefView {
    match d {
        BTDefinition::Func(f) => DefView::Func(fp_view(f)),
        BTDefinition::Proc(f) => DefView::Proc(fp_view(f)),
        BTDefinition::Code(c) => DefView::Code(c.blocks(), c.spec_ret_count()),
    }
}

/// The abstract values of definitions.
pub open spec fn defs_view(d: Seq<BTDefinition>) -> Seq<DefView> {
    d.map_values(|x: BTDefinition| def_view(x))
}

/// The counters and where statements go, in a tree state.
pub open spec fn bstate(ts: TreeState) -> BuildState {
    BuildState {
        registers: ts.registers,
        calls: ts.calls,
        out: match ts.target {
            Some(t) => t.block,
            None => ts.statements,
        },
    }
}

/// `ts` with the counters and statements of `bs`.
pub open spec fn with_bstate(ts: TreeState, bs: BuildState) -> TreeState {
    TreeState {
        registers: bs.registers,
        calls: bs.calls,
        target: match ts.target {
            Some(t) => Some(TargetView { block: bs.out, ..t }),
            None => None,
        },
        statements: match ts.target {
            Some(_) => ts.statements,
            None => bs.out,
        },
        ..ts
    }
}

/// The names of `ts` seen from file context `context` at a location.
pub open spec fn env_at(ts: TreeState, context: usize, file: Seq<String>, line_no: usize) -> BuildEnv {
    BuildEnv { names: ts.names, context, file, line_no }
}

/// The message for a name defined twice.
pub open spec fn duplicate_message(name: Seq<char>) -> Seq<char> {
    "duplicate definition for "@ + name
}

/// Defining code block `block` in file context `context`: the first block
/// of a name creates its code definition.
pub open spec fn define_code_spec(ts: TreeState, context: usize, block: CodeBlock) -> (TreeState, Result<(), Seq<char>>) {
    let key = (Some(context), block.name@);
    let ts1 = if ts.names.contains_key(key) {
        ts
    } else {
        TreeState {
            defs: ts.defs.push(DefView::Code(Seq::empty(), None)),
            names: ts.names.insert(key, DefName::Code(ts.defs.len() as usize)),
            ..ts
        }
    };
    match ts1.names[key] {
        DefName::Code(id) => if id < ts1.defs.len() {
            match ts1.defs[id as int] {
                DefView::Code(blocks, rc) => match rc {
                    Some(n) if n != block.results@.len() => (ts1, Err(crate::codeblocks::ret_count_message(block.results@.len() as usize, n))),
                    _ => (
                        TreeState {
                            defs: ts1.defs.update(id as int, DefView::Code(blocks.push(block), Some(block.results@.len() as usize))),
                            ..ts1
                        },
                        Ok(()),
                    ),
                },
                _ => (ts1, Err(Seq::empty())),
            }
        } else {
            (ts1, Err(Seq::empty()))
        },
        _ => (ts1, Err(duplicate_message(block.name@))),
    }
}

/// Defining a function or procedure named `name`: the definition is added
/// first, then the name, unless it is taken.
pub open spec fn define_funcproc_spec(ts: TreeState, context: usize, name: Seq<char>, fp: FuncProcView, is_proc: bool, export: bool) -> (TreeState, Result<usize, Seq<char>>) {
    let id = ts.defs.len() as usize;
    let ts1 = TreeState { defs: ts.defs.push(if is_proc { DefView::Proc(fp) } else { DefView::Func(fp) }), ..ts };
    let key = (if export { None } else { Some(context) }, name);
    if ts.names.contains_key(key) {
        (ts1, Err(duplicate_message(name)))
    } else {
        (TreeState { names: ts1.names.insert(key, if is_proc { DefName::Proc(id) } else { DefName::Func(id) }), ..ts1 }, Ok(id))
    }
}

/// Ending the definition under way with results `ret`: its types are
/// checked, it is defined, and a statement defining it is put out.
pub open spec fn pop_spec(context: usize, file: Seq<String>, line_no: usize, ts: TreeState, ret: Seq<OrBundle<ExprView>>) -> (TreeState, Result<(), Seq<char>>) {
    match ts.target {
        None => (ts, Err(Seq::empty())),
        Some(t) => {
            let ts1 = TreeState { target: None, ..ts };
            match funcproc_error(t.args, t.ret_type) {
                Some(e) => (ts1, Err(e)),
                None => {
                    let fp = FuncProcView {
                        file: t.file,
                        line_no: t.line_no,
                        args: t.args,
                        captures: t.captures,
                        block: t.block,
                        ret,
                        ret_type: t.ret_type,
                    };
                    let (ts2, r) = define_funcproc_spec(ts1, context, t.name, fp, t.variety == BTDefinitionVariety::Proc, t.export);
                    match r {
                        Err(m) => (ts2, Err(m)),
                        Ok(id) => (
                            TreeState {
                                statements: ts2.statements.push(StmtView { value: StmtValueView::Define(id), file, line_no }),
                                ..ts2
                            },
                            Ok(()),
                        ),
                    }
                },
            }
        },
    }
}

/// Building a returned value.
pub open spec fn build_ob(env: BuildEnv, s: BuildState, x: OrBundle<PTExpression>) -> (BuildState, Result<OrBundle<ExprView>, Seq<char>>) {
    match x {
        OrBundle::Normal(e) => {
            let (s1, r) = build_expr(env, s, e);
            (s1, match r {
                Ok(v) => Ok(OrBundle::Normal(v)),
                Err(m) => Err(m),
            })
        },
        OrBundle::Bundle(b) => (s, Ok(OrBundle::Bundle(b))),
    }
}

/// Building returned values in turn, stopping at the first error.
pub open spec fn build_obs(env: BuildEnv, s: BuildState, xs: Seq<OrBundle<PTExpression>>) -> (BuildState, Result<Seq<OrBundle<ExprView>>, Seq<char>>)
    decreases xs.len(),
{
    if xs.len() == 0 {
        (s, Ok(Seq::empty()))
    } else {
        let (s1, r) = build_ob(env, s, xs[0]);
        match r {
            Err(m) => (s1, Err(m)),
            Ok(v) => {
                let (s2, r2) = build_obs(env, s1, xs.subrange(1, xs.len() as int));
                (s2, match r2 {
                    Ok(rest) => Ok(seq![v] + rest),
                    Err(m) => Err(m),
                })
            },
        }
    }
}

/// Whether the modifiers export a definition.
pub open spec fn exported(mods: Seq<FuncProcModifier>) -> bool {
    mods.contains(FuncProcModifier::Export)
}

/// A modified variable, as a let binds it: with no checks.
pub open spec fn dress_vars(vs: Seq<Variable>) -> Seq<OrBundleRepeater<(Variable, Seq<Check>)>> {
    vs.map_values(|v: Variable| OrBundleRepeater::Normal((v, Seq::<Check>::empty())))
}

/// Expressions assigned to modified variables.
pub open spec fn dress_exprs(xs: Seq<PTExpression>) -> Seq<OrBundle<PTExpression>> {
    xs.map_values(|x: PTExpression| OrBundle::Normal(x))
}

/// Building statement `v` from file context `context` at a location.
pub open spec fn build_stmt(context: usize, file: Seq<String>, line_no: usize, ts: TreeState, v: PTStatementValue) -> (TreeState, Result<(), Seq<char>>)
    decreases v,
{
    let env = env_at(ts, context, file, line_no);
    let bs = bstate(ts);
    match v {
        PTStatementValue::LetStatement(vv, xx) => {
            let (b1, r) = make_stmt(env, bs, lets_view(vv@), xx@, true);
            (with_bstate(ts, b1), r)
        },
        PTStatementValue::ModifyStatement(vv, xx) => {
            let (b1, r) = make_stmt(env, bs, dress_vars(vv@), dress_exprs(xx@), false);
            (with_bstate(ts, b1), r)
        },
        PTStatementValue::BareCall(c) => match lookup_spec(ts.names, context, c.name@) {
            Err(m) => (ts, Err(m)),
            Ok(DefName::Func(_)) => {
                let (b1, r) = build_expr(env, bs, PTExpression::Call(c));
                match r {
                    Err(m) => (with_bstate(ts, b1), Err(m)),
                    Ok(ev) => (with_bstate(ts, call_stmt(env, b1, None, seq![OrBundleRepeater::Normal(ev)], None)), Ok(())),
                }
            },
            Ok(_) => {
                let (b1, r) = top_call(env, bs, None, c);
                (with_bstate(ts, b1), r)
            },
        },
        PTStatementValue::Code(block) => define_code_spec(ts, context, block),
        PTStatementValue::FuncDef(d) => funcdef_spec(context, file, line_no, ts, d),
        PTStatementValue::ProcDef(d) => procdef_spec(context, file, line_no, ts, d),
        _ => (ts, Err(Seq::empty())),
    }
}

/// Building the statements of a definition's body in turn, stopping at the
/// first error.
pub open spec fn build_block(context: usize, file: Seq<String>, line_no: usize, ts: TreeState, stmts: Seq<PTStatement>) -> (TreeState, Result<(), Seq<char>>)
    decreases stmts,
{
    if stmts.len() == 0 {
        (ts, Ok(()))
    } else {
        let (ts1, r) = build_stmt(context, file, line_no, ts, stmts[0].value);
        match r {
            Err(m) => (ts1, Err(m)),
            Ok(_) => build_block(context, file, line_no, ts1, stmts.subrange(1, stmts.len() as int)),
        }
    }
}

/// Building a function definition: its body into the definition under
/// way, then its value, then the definition itself.
pub open spec fn funcdef_spec(context: usize, file: Seq<String>, line_no: usize, ts: TreeState, d: PTFuncDef) -> (TreeState, Result<(), Seq<char>>)
    decreases d,
{
    let t = TargetView {
        file,
        line_no,
        block: Seq::empty(),
        name: d.name@,
        export: exported(d.modifiers@),
        args: d.args@,
        captures: d.captures@,
        variety: BTDefinitionVariety::Func,
        ret_type: match d.value_type {
            Some(x) => Some(seq![x]),
            None => None,
        },
    };
    let ts1 = TreeState { target: Some(t), ..ts };
    let (ts2, r2) = build_block(context, file, line_no, ts1, d.block@);
    match r2 {
        Err(m) => (ts2, Err(m)),
        Ok(_) => {
            let (b3, r3) = build_ob(env_at(ts2, context, file, line_no), bstate(ts2), d.value);
            let ts3 = with_bstate(ts2, b3);
            match r3 {
                Err(m) => (ts3, Err(m)),
                Ok(v) => pop_spec(context, file, line_no, ts3, seq![v]),
            }
        },
    }
}

/// Building a procedure definition: its body into the definition under
/// way, then its results, then the definition itself.
pub open spec fn procdef_spec(context: usize, file: Seq<String>, line_no: usize, ts: TreeState, d: PTProcDef) -> (TreeState, Result<(), Seq<char>>)
    decreases d,
{
    let t = TargetView {
        file,
        line_no,
        block: Seq::empty(),
        name: d.name@,
        export: exported(d.modifiers@),
        args: d.args@,
        captures: d.captures@,
        variety: BTDefinitionVariety::Proc,
        ret_type: rt_view(d.ret_type),
    };
    let ts1 = TreeState { target: Some(t), ..ts };
    let (ts2, r2) = build_block(context, file, line_no, ts1, d.block@);
    match r2 {
        Err(m) => (ts2, Err(m)),
        Ok(_) => {
            let (b3, r3) = build_obs(env_at(ts2, context, file, line_no), bstate(ts2), d.ret@);
            let ts3 = with_bstate(ts2, b3);
            match r3 {
                Err(m) => (ts3, Err(m)),
                Ok(v) => pop_spec(context, file, line_no, ts3, v),
            }
        },
    }
}

/// Every name of code stands for a code definition.
pub open spec fn names_ok(ts: TreeState) -> bool {
    forall|k: (Option<usize>, Seq<char>)| #[trigger] ts.names.contains_key(k) ==> match ts.names[k] {
        DefName::Code(id) => id < ts.defs.len() && ts.defs[id as int] is Code,
        _ => true,
    }
}

/// The counters and the number of definitions of `ts` are below their
/// limits.
pub open spec fn tree_fits(ts: TreeState) -> bool {
    ts.registers < usize::MAX && ts.calls < usize::MAX && ts.defs.len() < usize::MAX
}

/// `b` comes from `a` by moving counters forward and adding definitions,
/// keeping names of code pointing at code.
pub open spec fn tree_grows(a: TreeState, b: TreeState) -> bool {
    &&& a.registers <= b.registers
    &&& a.calls <= b.calls
    &&& a.defs.len() <= b.defs.len()
    &&& names_ok(a) && b.defs.len() <= usize::MAX ==> names_ok(b)
}

proof fn lemma_tree_grows_trans(a: TreeState, b: TreeState, c: TreeState)
    requires
        tree_grows(a, b),
        tree_grows(b, c),
    ensures
        tree_grows(a, c),
{
}

proof fn lemma_with_bstate_grows(ts: TreeState, bs: BuildState)
    requires
        grows(bstate(ts), bs),
    ensures
        tree_grows(ts, with_bstate(ts, bs)),
        bstate(with_bstate(ts, bs)) == bs,
{
}

impl BuildContext {
    /// The definition under way, if any.
    pub closed spec fn target_view(&self) -> Option<TargetView> {
        match self.funcproc_target {
            Some(t) => Some(
                TargetView {
                    file: t.position.0@,
                    line_no: t.position.1,
                    block: stmts_view(t.block@),
                    name: t.name@,
                    export: t.export,
                    args: t.args@,
                    captures: t.captures@,
                    variety: t.variety,
                    ret_type: rt_view(t.ret_type),
                },
            ),
            None => None,
        }
    }

    /// The file context and location of the statement being built.
    pub closed spec fn place(&self) -> (usize, Seq<String>, usize) {
        (self.file_context, self.location.0@, self.location.1)
    }

    /// Everything a build changes, in `bt` and in this context.
    pub open spec fn tree_state(&self, bt: BuildTree) -> TreeState {
        TreeState {
            names: self.env().names,
            defs: defs_view(bt.definitions@),
            statements: stmts_view(bt.statements@),
            target: self.target_view(),
            registers: self.registers() as int,
            calls: self.calls() as int,
        }
    }

    proof fn lemma_env_at(&self, bt: BuildTree)
        ensures
            self.env() == env_at(self.tree_state(bt), self.place().0, self.place().1, self.place().2),
            bstate(self.tree_state(bt)) == self.state(bt),
            self.defining() == (self.tree_state(bt).target is Some),
    {
    }

    /// A step of the expression or assignment builder changes a tree state
    /// only in its counters and statements.
    proof fn lemma_tree_of_moved(&self, bt: BuildTree, old: BuildContext, old_bt: BuildTree)
        requires
            self.moved_on(bt, old, old_bt),
        ensures
            self.tree_state(bt) == with_bstate(old.tree_state(old_bt), self.state(bt)),
            self.place() == old.place(),
    {
        assert(defs_view(bt.definitions@) == defs_view(old_bt.definitions@));
    }
}

/// Viewing definitions one more at a time.
proof fn lemma_defs_view_push(d: Seq<BTDefinition>, x: BTDefinition)
    ensures
        defs_view(d.push(x)) == defs_view(d).push(def_view(x)),
{
    assert(defs_view(d.push(x)) =~= defs_view(d).push(def_view(x)));
}

impl BuildContext {
    /// Defines a function or procedure: the definition is added, then its
    /// name, in the file context or exported.
    pub fn define_funcproc(&mut self, name: &str, definition: BTFuncProcDefinition, is_proc: bool, bt: &mut BuildTree, export: bool) -> (r: Result<BTStatementValue, String>)
        requires
            old(self).wf(),
            old(bt).definitions@.len() < usize::MAX,
        ensures
            final(self).wf(),
            final(self).place() == old(self).place(),
            ({
                let (ts, res) = define_funcproc_spec(old(self).tree_state(*old(bt)), old(self).place().0, name@, fp_view(definition), is_proc, export);
                &&& final(self).tree_state(*final(bt)) == ts
                &&& match res {
                    Ok(id) => r == Ok::<BTStatementValue, String>(BTStatementValue::Define(id)),
                    Err(m) => r matches Err(e) && e@ == m,
                }
            }),
    {
        let ghost d0 = bt.definitions@;
        let d = if is_proc { BTDefinition::Proc(definition) } else { BTDefinition::Func(definition) };
        let ghost dv = d;
        let id = bt.add_definition(d);
        proof {
            lemma_defs_view_push(d0, dv);
        }
        let name_id = if is_proc { DefName::Proc(id) } else { DefName::Func(id) };
        let context = if export { None } else { Some(self.file_context) };
        match find_name(&self.defnames, context, name) {
            Some(_) => {
                let mut e = owned("duplicate definition for ");
                push_str(&mut e, name);
                proof {
                    reveal_strlit("duplicate definition for ");
                }
                Err(e)
            },
            None => {
                insert_name(&mut self.defnames, context, name, name_id);
                Ok(BTStatementValue::Define(id))
            },
        }
    }

    /// Defines a block of code under its name in the file context; the
    /// first block of a name creates its definition.
    pub fn define_code(&mut self, block: CodeBlock, bt: &mut BuildTree) -> (r: Result<(), String>)
        requires
            old(self).wf(),
            old(bt).definitions@.len() < usize::MAX,
            names_ok(old(self).tree_state(*old(bt))),
        ensures
            final(self).wf(),
            final(self).place() == old(self).place(),
            ({
                let (ts, res) = define_code_spec(old(self).tree_state(*old(bt)), old(self).place().0, block);
                &&& final(self).tree_state(*final(bt)) == ts
                &&& match res {
                    Ok(_) => r is Ok,
                    Err(m) => r matches Err(e) && e@ == m,
                }
            }),
    {
        let ghost ts0 = self.tree_state(*bt);
        let ghost key = (Some(self.file_context), block.name@);
        let ghost blk = block;
        let context = Some(self.file_context);
        match find_name(&self.defnames, context, block.name.as_str()) {
            Some(_) => {},
            None => {
                let ghost d0 = bt.definitions@;
                let c = CodeDefinition::new();
                let ghost cv = BTDefinition::Code(c);
                let id = bt.add_definition(BTDefinition::Code(c));
                proof {
                    lemma_defs_view_push(d0, cv);
                }
                insert_name(&mut self.defnames, context, block.name.as_str(), DefName::Code(id));
            },
        }
        let ghost ts1 = self.tree_state(*bt);
        proof {
            assert(ts1 == (if ts0.names.contains_key(key) {
                ts0
            } else {
                TreeState {
                    defs: ts0.defs.push(DefView::Code(Seq::empty(), None)),
                    names: ts0.names.insert(key, DefName::Code(ts0.defs.len() as usize)),
                    ..ts0
                }
            }));
        }
        match find_name(&self.defnames, context, block.name.as_str()) {
            Some(DefName::Code(id)) => {
                proof {
                    assert(ts1.names.contains_key(key));
                    if ts0.names.contains_key(key) {
                        assert(names_ok(ts0));
                        assert(ts0.names.contains_key(key));
                    }
                    assert(ts1.defs[id as int] == def_view(bt.definitions@[id as int]));
                }
                let ghost d0 = bt.definitions@;
                let ghost c0 = code_of(d0[id as int]);
                let r = bt.add_code(id, block);
                proof {
                    let c1 = code_of(bt.definitions@[id as int]);
                    assert(defs_view(bt.definitions@) =~= defs_view(d0).update(id as int, def_view(bt.definitions@[id as int])));
                    assert(def_view(d0[id as int]) == DefView::Code(c0.blocks(), c0.spec_ret_count()));
                    assert(def_view(bt.definitions@[id as int]) == DefView::Code(c1.blocks(), c1.spec_ret_count()));
                    match c0.spec_ret_count() {
                        Some(n) => {
                            if n != blk.results@.len() {
                                assert(defs_view(bt.definitions@) =~= defs_view(d0));
                                assert(self.tree_state(*bt) == ts1);
                            } else {
                                assert(self.tree_state(*bt) == TreeState {
                                    defs: ts1.defs.update(id as int, DefView::Code(c0.blocks().push(blk), Some(blk.results@.len() as usize))),
                                    ..ts1
                                });
                            }
                        },
                        None => {
                            assert(self.tree_state(*bt) == TreeState {
                                defs: ts1.defs.update(id as int, DefView::Code(c0.blocks().push(blk), Some(blk.results@.len() as usize))),
                                ..ts1
                            });
                        },
                    }
                }
                r
            },
            _ => {
                let mut e = owned("duplicate definition for ");
                push_str(&mut e, block.name.as_str());
                proof {
                    reveal_strlit("duplicate definition for ");
                }
                Err(e)
            },
        }
    }
}

proof fn lemma_make_stmt_grows(env: BuildEnv, s: BuildState, vv: Seq<OrBundleRepeater<(Variable, Seq<Check>)>>, xx: Seq<OrBundle<PTExpression>>, declare: bool)
    ensures
        grows(s, make_stmt(env, s, vv, xx, declare).0),
{
    let n = vv.len() as int;
    let (s1, regs) = alloc_temps(env, s, vv, n);
    lemma_alloc_temps_grows(env, s, vv, n);
    let top = if xx.len() == 1 { is_top_spec(env, xx[0]) } else { Ok(false) };
    let (s2, r2) = match top {
        Err(m) => (s1, Err(m)),
        Ok(true) => match xx[0] {
            OrBundle::Normal(PTExpression::Call(c)) => top_call(env, s1, Some(regs), c),
            _ => (s1, Err(tuple_message(vv.len(), xx.len()))),
        },
        Ok(false) => if vv.len() == xx.len() {
            assign_pairs(env, s1, xx, regs)
        } else {
            (s1, Err(tuple_message(vv.len(), xx.len())))
        },
    };
    match top {
        Ok(true) => match xx[0] {
            OrBundle::Normal(PTExpression::Call(c)) => lemma_top_call_grows(env, s1, Some(regs), c),
            _ => lemma_grows_refl(s1),
        },
        Ok(false) => if vv.len() == xx.len() {
            lemma_assign_pairs_grows(env, s1, xx, regs);
        } else {
            lemma_grows_refl(s1);
        },
        Err(_) => lemma_grows_refl(s1),
    }
    lemma_grows_trans(s, s1, s2);
    if r2 is Ok {
        let s3 = if declare { declare_all(env, s2, vv, n) } else { s2 };
        lemma_declare_all_grows(env, s2, vv, n);
        lemma_grows_refl(s2);
        let s4 = copy_out(env, s3, vv, regs, n);
        lemma_copy_out_grows(env, s3, vv, regs, n);
        lemma_checks_all_grows(env, s4, vv, n);
        lemma_grows_trans(s2, s3, s4);
        lemma_grows_trans(s2, s4, checks_all(env, s4, vv, n));
        lemma_grows_trans(s, s2, checks_all(env, s4, vv, n));
    }
}

proof fn lemma_build_ob_grows(env: BuildEnv, s: BuildState, x: OrBundle<PTExpression>)
    ensures
        grows(s, build_ob(env, s, x).0),
{
    lemma_grows_refl(s);
    match x {
        OrBundle::Normal(e) => lemma_build_expr_grows(env, s, e),
        _ => {},
    }
}

proof fn lemma_build_obs_grows(env: BuildEnv, s: BuildState, xs: Seq<OrBundle<PTExpression>>)
    ensures
        grows(s, build_obs(env, s, xs).0),
    decreases xs.len(),
{
    lemma_grows_refl(s);
    if xs.len() > 0 {
        lemma_build_ob_grows(env, s, xs[0]);
        let (s1, r) = build_ob(env, s, xs[0]);
        if r is Ok {
            lemma_build_obs_grows(env, s1, xs.subrange(1, xs.len() as int));
            lemma_grows_trans(s, s1, build_obs(env, s1, xs.subrange(1, xs.len() as int)).0);
        }
    }
}

proof fn lemma_define_funcproc_grows(ts: TreeState, context: usize, name: Seq<char>, fp: FuncProcView, is_proc: bool, export: bool)
    ensures
        tree_grows(ts, define_funcproc_spec(ts, context, name, fp, is_proc, export).0),
{
    let r = define_funcproc_spec(ts, context, name, fp, is_proc, export).0;
    if names_ok(ts) && r.defs.len() <= usize::MAX {
        assert forall|k: (Option<usize>, Seq<char>)| #[trigger] r.names.contains_key(k) implies match r.names[k] {
            DefName::Code(id) => id < r.defs.len() && r.defs[id as int] is Code,
            _ => true,
        } by {
            if ts.names.contains_key(k) && r.names[k] == ts.names[k] {
                match ts.names[k] {
                    DefName::Code(id) => {
                        assert(r.defs[id as int] == ts.defs[id as int]);
                    },
                    _ => {},
                }
            }
        }
    }
}

proof fn lemma_define_code_grows(ts: TreeState, context: usize, block: CodeBlock)
    ensures
        tree_grows(ts, define_code_spec(ts, context, block).0),
{
    let key = (Some(context), block.name@);
    let ts1 = if ts.names.contains_key(key) {
        ts
    } else {
        TreeState {
            defs: ts.defs.push(DefView::Code(Seq::empty(), None)),
            names: ts.names.insert(key, DefName::Code(ts.defs.len() as usize)),
            ..ts
        }
    };
    if names_ok(ts) && define_code_spec(ts, context, block).0.defs.len() <= usize::MAX {
        assert forall|k: (Option<usize>, Seq<char>)| #[trigger] ts1.names.contains_key(k) implies match ts1.names[k] {
            DefName::Code(id) => id < ts1.defs.len() && ts1.defs[id as int] is Code,
            _ => true,
        } by {
            if k != key || ts.names.contains_key(key) {
                assert(ts.names.contains_key(k));
                match ts.names[k] {
                    DefName::Code(id) => {
                        assert(ts1.defs[id as int] == ts.defs[id as int]);
                    },
                    _ => {},
                }
            }
        }
        assert(names_ok(ts1));
        let r = define_code_spec(ts, context, block).0;
        assert forall|k: (Option<usize>, Seq<char>)| #[trigger] r.names.contains_key(k) implies match r.names[k] {
            DefName::Code(id) => id < r.defs.len() && r.defs[id as int] is Code,
            _ => true,
        } by {
            assert(ts1.names.contains_key(k));
        }
    }
}

proof fn lemma_pop_grows(context: usize, file: Seq<String>, line_no: usize, ts: TreeState, ret: Seq<OrBundle<ExprView>>)
    ensures
        tree_grows(ts, pop_spec(context, file, line_no, ts, ret).0),
{
    match ts.target {
        None => {},
        Some(t) => {
            let ts1 = TreeState { target: None, ..ts };
            match funcproc_error(t.args, t.ret_type) {
                Some(e) => {},
                None => {
                    let fp = FuncProcView {
                        file: t.file,
                        line_no: t.line_no,
                        args: t.args,
                        captures: t.captures,
                        block: t.block,
                        ret,
                        ret_type: t.ret_type,
                    };
                    lemma_define_funcproc_grows(ts1, context, t.name, fp, t.variety == BTDefinitionVariety::Proc, t.export);
                },
            }
        },
    }
}

proof fn lemma_build_stmt_grows(context: usize, file: Seq<String>, line_no: usize, ts: TreeState, v: PTStatementValue)
    ensures
        tree_grows(ts, build_stmt(context, file, line_no, ts, v).0),
    decreases v,
{
    let env = env_at(ts, context, file, line_no);
    let bs = bstate(ts);
    match v {
        PTStatementValue::LetStatement(vv, xx) => {
            lemma_make_stmt_grows(env, bs, lets_view(vv@), xx@, true);
            lemma_with_bstate_grows(ts, make_stmt(env, bs, lets_view(vv@), xx@, true).0);
        },
        PTStatementValue::ModifyStatement(vv, xx) => {
            lemma_make_stmt_grows(env, bs, dress_vars(vv@), dress_exprs(xx@), false);
            lemma_with_bstate_grows(ts, make_stmt(env, bs, dress_vars(vv@), dress_exprs(xx@), false).0);
        },
        PTStatementValue::BareCall(c) => match lookup_spec(ts.names, context, c.name@) {
            Err(m) => {},
            Ok(DefName::Func(_)) => {
                lemma_build_expr_grows(env, bs, PTExpression::Call(c));
                let (b1, r) = build_expr(env, bs, PTExpression::Call(c));
                lemma_with_bstate_grows(ts, b1);
                if r is Ok {
                    let a = seq![OrBundleRepeater::Normal(r->Ok_0)];
                    lemma_call_stmt_grows(env, b1, None, a, None);
                    lemma_grows_trans(bs, b1, call_stmt(env, b1, None, a, None));
                    lemma_with_bstate_grows(ts, call_stmt(env, b1, None, a, None));
                }
            },
            Ok(_) => {
                lemma_top_call_grows(env, bs, None, c);
                lemma_with_bstate_grows(ts, top_call(env, bs, None, c).0);
            },
        },
        PTStatementValue::Code(block) => lemma_define_code_grows(ts, context, block),
        PTStatementValue::FuncDef(d) => lemma_funcdef_grows(context, file, line_no, ts, d),
        PTStatementValue::ProcDef(d) => lemma_procdef_grows(context, file, line_no, ts, d),
        _ => {},
    }
}

proof fn lemma_build_block_grows(context: usize, file: Seq<String>, line_no: usize, ts: TreeState, stmts: Seq<PTStatement>)
    ensures
        tree_grows(ts, build_block(context, file, line_no, ts, stmts).0),
    decreases stmts,
{
    if stmts.len() > 0 {
        lemma_build_stmt_grows(context, file, line_no, ts, stmts[0].value);
        let (ts1, r) = build_stmt(context, file, line_no, ts, stmts[0].value);
        if r is Ok {
            lemma_build_block_grows(context, file, line_no, ts1, stmts.subrange(1, stmts.len() as int));
        }
    }
}

proof fn lemma_funcdef_grows(context: usize, file: Seq<String>, line_no: usize, ts: TreeState, d: PTFuncDef)
    ensures
        tree_grows(ts, funcdef_spec(context, file, line_no, ts, d).0),
    decreases d,
{
    let t = TargetView {
        file,
        line_no,
        block: Seq::empty(),
        name: d.name@,
        export: exported(d.modifiers@),
        args: d.args@,
        captures: d.captures@,
        variety: BTDefinitionVariety::Func,
        ret_type: match d.value_type {
            Some(x) => Some(seq![x]),
            None => None,
        },
    };
    let ts1 = TreeState { target: Some(t), ..ts };
    lemma_build_block_grows(context, file, line_no, ts1, d.block@);
    let (ts2, r2) = build_block(context, file, line_no, ts1, d.block@);
    if r2 is Ok {
        lemma_build_ob_grows(env_at(ts2, context, file, line_no), bstate(ts2), d.value);
        let (b3, r3) = build_ob(env_at(ts2, context, file, line_no), bstate(ts2), d.value);
        lemma_with_bstate_grows(ts2, b3);
        let ts3 = with_bstate(ts2, b3);
        if r3 is Ok {
            lemma_pop_grows(context, file, line_no, ts3, seq![r3->Ok_0]);
        }
    }
}

proof fn lemma_procdef_grows(context: usize, file: Seq<String>, line_no: usize, ts: TreeState, d: PTProcDef)
    ensures
        tree_grows(ts, procdef_spec(context, file, line_no, ts, d).0),
    decreases d,
{
    let t = TargetView {
        file,
        line_no,
        block: Seq::empty(),
        name: d.name@,
        export: exported(d.modifiers@),
        args: d.args@,
        captures: d.captures@,
        variety: BTDefinitionVariety::Proc,
        ret_type: rt_view(d.ret_type),
    };
    let ts1 = TreeState { target: Some(t), ..ts };
    lemma_build_block_grows(context, file, line_no, ts1, d.block@);
    let (ts2, r2) = build_block(context, file, line_no, ts1, d.block@);
    if r2 is Ok {
        lemma_build_obs_grows(env_at(ts2, context, file, line_no), bstate(ts2), d.ret@);
        let (b3, r3) = build_obs(env_at(ts2, context, file, line_no), bstate(ts2), d.ret@);
        lemma_with_bstate_grows(ts2, b3);
        let ts3 = with_bstate(ts2, b3);
        if r3 is Ok {
            lemma_pop_grows(context, file, line_no, ts3, r3->Ok_0);
        }
    }
}

impl BuildContext {
    /// Starts the definition of a function or procedure at the current
    /// location; its statements go into it until it ends.
    pub fn push_funcproc_target(&mut self, is_proc: bool, name: &str, args: Vec<OrBundle<TypedArgument>>, ret_type: Option<Vec<ArgTypeSpec>>, captures: Vec<OrBundle<Variable>>, export: bool, bt: &BuildTree)
        ensures
            final(self).wf() == old(self).wf(),
            final(self).place() == old(self).place(),
            final(self).tree_state(*bt) == (TreeState {
                target: Some(
                    TargetView {
                        file: old(self).place().1,
                        line_no: old(self).place().2,
                        block: Seq::empty(),
                        name: name@,
                        export,
                        args: args@,
                        captures: captures@,
                        variety: if is_proc { BTDefinitionVariety::Proc } else { BTDefinitionVariety::Func },
                        ret_type: rt_view(ret_type),
                    },
                ),
                ..old(self).tree_state(*bt)
            }),
    {
        let variety = if is_proc { BTDefinitionVariety::Proc } else { BTDefinitionVariety::Func };
        self.funcproc_target = Some(CurrentFuncProcDefinition {
            position: (copy_files(&self.location.0), self.location.1),
            block: Vec::new(),
            name: owned(name),
            export,
            args,
            captures,
            variety,
            ret_type,
        });
        proof {
            assert(stmts_view(Seq::<BTStatement>::empty()) =~= Seq::<StmtView>::empty());
        }
    }

    /// Ends the definition under way with results `ret`: its types are
    /// checked, it is defined under its name, and a statement defining it is
    /// put out at the top level.
    pub fn pop_funcproc_target(&mut self, ret: Vec<OrBundle<BTExpression>>, bt: &mut BuildTree) -> (r: Result<(), String>)
        requires
            old(self).wf(),
            old(self).defining(),
            old(bt).definitions@.len() < usize::MAX,
        ensures
            final(self).wf(),
            final(self).place() == old(self).place(),
            final(self).tree_state(*final(bt)) == pop_spec(
                old(self).place().0,
                old(self).place().1,
                old(self).place().2,
                old(self).tree_state(*old(bt)),
                ret@.map_values(|x: OrBundle<BTExpression>| ob_view(x)),
            ).0,
            match pop_spec(
                old(self).place().0,
                old(self).place().1,
                old(self).place().2,
                old(self).tree_state(*old(bt)),
                ret@.map_values(|x: OrBundle<BTExpression>| ob_view(x)),
            ).1 {
                Ok(_) => r is Ok,
                Err(m) => r matches Err(e) && e@ == m,
            },
    {
        let ctx = self.funcproc_target.take();
        let t = match ctx {
            Some(t) => t,
            None => unreached(),
        };
        let name = owned(t.name.as_str());
        let export = t.export;
        let is_proc = match t.variety {
            BTDefinitionVariety::Proc => true,
            BTDefinitionVariety::Func => false,
        };
        let defn = match t.to_funcproc(ret) {
            Ok(d) => d,
            Err(e) => {
                return Err(e);
            },
        };
        let v = match self.define_funcproc(name.as_str(), defn, is_proc, bt, export) {
            Ok(v) => v,
            Err(e) => {
                return Err(e);
            },
        };
        let ghost b1 = *self;
        let ghost bt1 = *bt;
        let _ = self.add_statement(bt, v);
        proof {
            self.lemma_tree_of_moved(*bt, b1, bt1);
        }
        Ok(())
    }

    /// Builds a returned value.
    fn build_expr_ob(&mut self, bt: &mut BuildTree, expr: &OrBundle<PTExpression>) -> (r: Result<OrBundle<BTExpression>, String>)
        requires
            old(self).wf(),
            *expr matches OrBundle::Normal(e) ==> plain_expr(e),
            fits(build_ob(old(self).env(), old(self).state(*old(bt)), *expr).0),
        ensures
            final(self).moved_on(*final(bt), *old(self), *old(bt)),
            final(self).state(*final(bt)) == build_ob(old(self).env(), old(self).state(*old(bt)), *expr).0,
            match build_ob(old(self).env(), old(self).state(*old(bt)), *expr).1 {
                Ok(v) => r matches Ok(x) && ob_view(x) == v,
                Err(m) => r matches Err(e) && e@ == m,
            },
    {
        proof {
            self.lemma_moved_on_refl(*bt);
        }
        match expr {
            OrBundle::Normal(n) => match self.build_expression(bt, n) {
                Ok(e) => Ok(OrBundle::Normal(e)),
                Err(e) => Err(e),
            },
            OrBundle::Bundle(b) => Ok(OrBundle::Bundle(b.clone())),
        }
    }

    /// Builds returned values in turn, stopping at the first error.
    fn build_ret_values(&mut self, bt: &mut BuildTree, xs: &Vec<OrBundle<PTExpression>>) -> (r: Result<Vec<OrBundle<BTExpression>>, String>)
        requires
            old(self).wf(),
            forall|i: int| 0 <= i < xs@.len() ==> (#[trigger] xs@[i] matches OrBundle::Normal(e) ==> plain_expr(e)),
            fits(build_obs(old(self).env(), old(self).state(*old(bt)), xs@).0),
        ensures
            final(self).moved_on(*final(bt), *old(self), *old(bt)),
            final(self).state(*final(bt)) == build_obs(old(self).env(), old(self).state(*old(bt)), xs@).0,
            match build_obs(old(self).env(), old(self).state(*old(bt)), xs@).1 {
                Ok(v) => r matches Ok(a) && a@.map_values(|x: OrBundle<BTExpression>| ob_view(x)) == v,
                Err(m) => r matches Err(e) && e@ == m,
            },
    {
        let ghost b0 = *self;
        let ghost bt0 = *bt;
        let ghost env = self.env();
        let ghost whole = build_obs(env, self.state(*bt), xs@);
        proof {
            self.lemma_moved_on_refl(*bt);
            assert(xs@.subrange(0, xs@.len() as int) =~= xs@);
        }
        let mut out: Vec<OrBundle<BTExpression>> = Vec::new();
        let mut i: usize = 0;
        while i < xs.len()
            invariant
                b0 == *old(self),
                bt0 == *old(bt),
                env == old(self).env(),
                whole == build_obs(old(self).env(), old(self).state(*old(bt)), xs@),
                forall|j: int| 0 <= j < xs@.len() ==> (#[trigger] xs@[j] matches OrBundle::Normal(e) ==> plain_expr(e)),
                i <= xs@.len(),
                self.wf(),
                self.moved_on(*bt, b0, bt0),
                self.env() == env,
                build_obs(env, self.state(*bt), xs@.subrange(i as int, xs@.len() as int)).0 == whole.0,
                match build_obs(env, self.state(*bt), xs@.subrange(i as int, xs@.len() as int)).1 {
                    Ok(rest) => whole.1 == Ok::<Seq<OrBundle<ExprView>>, Seq<char>>(out@.map_values(|x: OrBundle<BTExpression>| ob_view(x)) + rest),
                    Err(m) => whole.1 == Err::<Seq<OrBundle<ExprView>>, Seq<char>>(m),
                },
                fits(whole.0),
            decreases xs@.len() - i,
        {
            let ghost rest = xs@.subrange(i as int, xs@.len() as int);
            let ghost b1 = *self;
            let ghost bt1 = *bt;
            let ghost s1 = self.state(*bt);
            proof {
                assert(rest[0] == xs@[i as int]);
                assert(rest.subrange(1, rest.len() as int) =~= xs@.subrange(i + 1, xs@.len() as int));
                lemma_build_ob_grows(env, s1, rest[0]);
                let (s2, r2) = build_ob(env, s1, rest[0]);
                if r2 is Ok {
                    lemma_build_obs_grows(env, s2, rest.subrange(1, rest.len() as int));
                }
            }
            let a = self.build_expr_ob(bt, &xs[i]);
            proof {
                self.lemma_moved_on_trans(*bt, b1, bt1, b0, bt0);
            }
            match a {
                Ok(a) => {
                    let ghost before = out@;
                    out.push(a);
                    proof {
                        assert(out@.map_values(|x: OrBundle<BTExpression>| ob_view(x)) =~= before.map_values(|x: OrBundle<BTExpression>| ob_view(x)).push(ob_view(a)));
                        let (s2, r2) = build_obs(env, self.state(*bt), xs@.subrange(i + 1, xs@.len() as int));
                        match r2 {
                            Ok(rest2) => {
                                assert(before.map_values(|x: OrBundle<BTExpression>| ob_view(x)) + (seq![ob_view(a)] + rest2) =~= out@.map_values(|x: OrBundle<BTExpression>| ob_view(x)) + rest2);
                            },
                            Err(m) => {},
                        }
                    }
                },
                Err(e) => {
                    proof {
                        assert(whole.0 == build_ob(env, s1, rest[0]).0);
                    }
                    return Err(e);
                },
            }
            i += 1;
        }
        proof {
            assert(xs@.subrange(i as int, xs@.len() as int).len() == 0);
            assert(out@.map_values(|x: OrBundle<BTExpression>| ob_view(x)) + Seq::<OrBundle<ExprView>>::empty() =~= out@.map_values(|x: OrBundle<BTExpression>| ob_view(x)));
        }
        Ok(out)
    }
}


/// A statement the builder takes: includes and flags were dealt with
/// before, every operator was replaced, and definitions stand only where
/// `top` allows them, never inside another definition.
pub open spec fn plain_stmt(v: PTStatementValue, top: bool) -> bool
    decreases v,
{
    match v {
        PTStatementValue::Include(_) => false,
        PTStatementValue::Flag(_) => false,
        PTStatementValue::Code(_) => true,
        PTStatementValue::LetStatement(_, xx) => plain_rhs(xx@),
        PTStatementValue::ModifyStatement(_, xx) => plain_rhs(dress_exprs(xx@)),
        PTStatementValue::BareCall(c) => plain_args(c.args@),
        PTStatementValue::FuncDef(d) => top && plain_body(d.block@) && (d.value matches OrBundle::Normal(e) ==> plain_expr(e)),
        PTStatementValue::ProcDef(d) => top && plain_body(d.block@) && plain_rhs(d.ret@),
    }
}

/// The statements of a definition's body, each one the builder takes
/// inside a definition.
pub open spec fn plain_body(s: Seq<PTStatement>) -> bool
    decreases s,
{
    if s.len() == 0 {
        true
    } else {
        plain_stmt(s[0].value, false) && plain_body(s.subrange(1, s.len() as int))
    }
}

/// A statement of a body leaves the definition under way in place.
proof fn lemma_stmt_keeps_target(context: usize, file: Seq<String>, line_no: usize, ts: TreeState, v: PTStatementValue)
    requires
        plain_stmt(v, false),
        ts.target is Some,
    ensures
        build_stmt(context, file, line_no, ts, v).0.target is Some,
{
}

/// The statements of a body leave the definition under way in place.
proof fn lemma_block_keeps_target(context: usize, file: Seq<String>, line_no: usize, ts: TreeState, stmts: Seq<PTStatement>)
    requires
        plain_body(stmts),
        ts.target is Some,
    ensures
        build_block(context, file, line_no, ts, stmts).0.target is Some,
    decreases stmts.len(),
{
    if stmts.len() > 0 {
        lemma_stmt_keeps_target(context, file, line_no, ts, stmts[0].value);
        let (ts1, r) = build_stmt(context, file, line_no, ts, stmts[0].value);
        if r is Ok {
            lemma_block_keeps_target(context, file, line_no, ts1, stmts.subrange(1, stmts.len() as int));
        }
    }
}

/// A top-level statement that succeeds leaves no definition under way.
proof fn lemma_top_ends_target(context: usize, file: Seq<String>, line_no: usize, ts: TreeState, v: PTStatementValue)
    requires
        plain_stmt(v, true),
        ts.target is None,
        build_stmt(context, file, line_no, ts, v).1 is Ok,
    ensures
        build_stmt(context, file, line_no, ts, v).0.target is None,
{
}

/// The file chain of a location, as text.
pub open spec fn files_text(f: Seq<String>) -> Seq<Seq<char>> {
    f.map_values(|s: String| s@)
}

/// Building a program's statements in turn from `ts`, each at its own
/// location and in its own file context, stopping at the first error, which
/// is located at the statement that raised it.
#[verifier::opaque]
pub open spec fn build_program(ts: TreeState, stmts: Seq<PTStatement>) -> (TreeState, Result<(), Seq<char>>)
    decreases stmts.len(),
{
    if stmts.len() == 0 {
        (ts, Ok(()))
    } else {
        let s = stmts[0];
        let (ts1, r) = build_stmt(s.context, s.file@, s.line_no, ts, s.value);
        match r {
            Err(m) => (ts1, Err(at_text(m, Some((files_text(s.file@), s.line_no))))),
            Ok(_) => build_program(ts1, stmts.subrange(1, stmts.len() as int)),
        }
    }
}

/// The state a build starts from: nothing defined, nothing put out.
pub open spec fn initial_tree() -> TreeState {
    TreeState {
        names: Map::empty(),
        defs: Seq::empty(),
        statements: Seq::empty(),
        target: None,
        registers: 0,
        calls: 0,
    }
}

/// Building a program only adds: the register and call counters move
/// forward, definitions are only added, and every name of code keeps
/// standing for code.
pub proof fn lemma_build_program_grows(ts: TreeState, stmts: Seq<PTStatement>)
    ensures
        tree_grows(ts, build_program(ts, stmts).0),
    decreases stmts.len(),
{
    reveal(build_program);
    if stmts.len() > 0 {
        let s = stmts[0];
        lemma_build_stmt_grows(s.context, s.file@, s.line_no, ts, s.value);
        let (ts1, r) = build_stmt(s.context, s.file@, s.line_no, ts, s.value);
        if r is Ok {
            lemma_build_program_grows(ts1, stmts.subrange(1, stmts.len() as int));
            lemma_tree_grows_trans(ts, ts1, build_program(ts1, stmts.subrange(1, stmts.len() as int)).0);
        }
    }
}

/// Whether `mods` exports a definition.
fn is_exported(mods: &Vec<FuncProcModifier>) -> (r: bool)
    ensures
        r == exported(mods@),
{
    let mut i: usize = 0;
    while i < mods.len()
        invariant
            i <= mods@.len(),
            forall|j: int| 0 <= j < i ==> mods@[j] != FuncProcModifier::Export,
        decreases mods@.len() - i,
    {
        if mods[i] == FuncProcModifier::Export {
            return true;
        }
        i += 1;
    }
    false
}

/// Modified variables, as a let would bind them: with no checks.
fn dress_variables(vv: &Vec<Variable>) -> (r: Vec<OrBundleRepeater<(Variable, Vec<Check>)>>)
    ensures
        lets_view(r@) == dress_vars(vv@),
{
    let mut out: Vec<OrBundleRepeater<(Variable, Vec<Check>)>> = Vec::new();
    let mut i: usize = 0;
    while i < vv.len()
        invariant
            i <= vv@.len(),
            lets_view(out@) =~= dress_vars(vv@).take(i as int),
        decreases vv@.len() - i,
    {
        let ghost before = out@;
        out.push(OrBundleRepeater::Normal((copy_variable(&vv[i]), Vec::new())));
        proof {
            assert(lets_view(out@) =~= lets_view(before).push(let_view(out@[i as int])));
            assert(dress_vars(vv@).take(i + 1) =~= dress_vars(vv@).take(i as int).push(dress_vars(vv@)[i as int]));
        }
        i += 1;
    }
    proof {
        assert(dress_vars(vv@).take(vv@.len() as int) =~= dress_vars(vv@));
    }
    out
}

/// Expressions assigned to modified variables, each as a right-hand side.
fn dress_expressions(xx: Vec<PTExpression>) -> (r: Vec<OrBundle<PTExpression>>)
    ensures
        r@ == dress_exprs(xx@),
{
    let ghost all = xx@;
    let mut rest = xx;
    let mut out: Vec<OrBundle<PTExpression>> = Vec::new();
    while rest.len() > 0
        invariant
            out@.len() + rest@.len() == all.len(),
            out@ =~= dress_exprs(all).take(out@.len() as int),
            rest@ =~= all.subrange(out@.len() as int, all.len() as int),
        decreases rest@.len(),
    {
        let ghost k = out@.len() as int;
        let x = rest.remove(0);
        out.push(OrBundle::Normal(x));
        proof {
            assert(dress_exprs(all).take(k + 1) =~= dress_exprs(all).take(k).push(dress_exprs(all)[k]));
        }
    }
    proof {
        assert(dress_exprs(all).take(all.len() as int) =~= dress_exprs(all));
    }
    out
}

impl BuildContext {
    /// Builds statement `stmt` at the current location: definitions,
    /// code blocks, assignments and calls whose results are dropped.
    pub fn build_statement(&mut self, bt: &mut BuildTree, stmt: PTStatement) -> (r: Result<(), String>)
        requires
            old(self).wf(),
            plain_stmt(stmt.value, !old(self).defining()),
            names_ok(old(self).tree_state(*old(bt))),
            tree_fits(build_stmt(old(self).place().0, old(self).place().1, old(self).place().2, old(self).tree_state(*old(bt)), stmt.value).0),
        ensures
            final(self).wf(),
            final(self).place() == old(self).place(),
            ({
                let (ts, res) = build_stmt(old(self).place().0, old(self).place().1, old(self).place().2, old(self).tree_state(*old(bt)), stmt.value);
                &&& final(self).tree_state(*final(bt)) == ts
                &&& match res {
                    Ok(_) => r is Ok,
                    Err(m) => r matches Err(e) && e@ == m,
                }
            }),
        decreases stmt,
    {
        let ghost ts0 = self.tree_state(*bt);
        let ghost p = self.place();
        let ghost b0 = *self;
        let ghost bt0 = *bt;
        proof {
            self.lemma_env_at(*bt);
            lemma_build_stmt_grows(p.0, p.1, p.2, ts0, stmt.value);
        }
        match stmt.value {
            PTStatementValue::Include(_) => unreached(),
            PTStatementValue::Flag(_) => unreached(),
            PTStatementValue::FuncDef(d) => self.build_funcdef(bt, d),
            PTStatementValue::ProcDef(d) => self.build_procdef(bt, d),
            PTStatementValue::Code(c) => self.define_code(c, bt),
            PTStatementValue::LetStatement(vv, xx) => {
                let r = self.make_statement(&vv, &xx, true, bt);
                proof {
                    self.lemma_tree_of_moved(*bt, b0, bt0);
                }
                r
            },
            PTStatementValue::ModifyStatement(vv, xx) => {
                let vv2 = dress_variables(&vv);
                let xx2 = dress_expressions(xx);
                let r = self.make_statement(&vv2, &xx2, false, bt);
                proof {
                    self.lemma_tree_of_moved(*bt, b0, bt0);
                }
                r
            },
            PTStatementValue::BareCall(c) => match self.lookup(c.name.as_str()) {
                Err(e) => Err(e),
                Ok(DefName::Func(_)) => {
                    let expr = PTExpression::Call(c);
                    let ghost s0 = self.state(*bt);
                    proof {
                        lemma_build_expr_grows(self.env(), s0, expr);
                        let (b1, r1) = build_expr(self.env(), s0, expr);
                        if r1 is Ok {
                            lemma_call_stmt_grows(self.env(), b1, None, seq![OrBundleRepeater::Normal(r1->Ok_0)], None);
                        }
                    }
                    match self.build_expression(bt, &expr) {
                        Err(e) => {
                            proof {
                                self.lemma_tree_of_moved(*bt, b0, bt0);
                            }
                            Err(e)
                        },
                        Ok(e) => {
                            let ghost b1 = *self;
                            let ghost bt1 = *bt;
                            let ghost ev = expr_view(e);
                            let mut args: Vec<OrBundleRepeater<BTExpression>> = Vec::new();
                            args.push(OrBundleRepeater::Normal(e));
                            proof {
                                assert(args_view(args@) =~= seq![OrBundleRepeater::Normal(ev)]) by {
                                    reveal_with_fuel(args_view, 2);
                                    assert(args@.drop_last() =~= Seq::<OrBundleRepeater<BTExpression>>::empty());
                                }
                                b1.lemma_frame_env(b0);
                            }
                            self.put_call(bt, None, args, None);
                            proof {
                                self.lemma_moved_on_trans(*bt, b1, bt1, b0, bt0);
                                self.lemma_tree_of_moved(*bt, b0, bt0);
                            }
                            Ok(())
                        },
                    }
                },
                Ok(_) => {
                    let r = self.build_top(None, bt, &c);
                    proof {
                        self.lemma_tree_of_moved(*bt, b0, bt0);
                    }
                    r
                },
            },
        }
    }

    /// Builds the statements of a definition's body in turn, stopping at
    /// the first error.
    fn build_body(&mut self, bt: &mut BuildTree, stmts: Vec<PTStatement>) -> (r: Result<(), String>)
        requires
            old(self).wf(),
            old(self).defining(),
            plain_body(stmts@),
            names_ok(old(self).tree_state(*old(bt))),
            tree_fits(build_block(old(self).place().0, old(self).place().1, old(self).place().2, old(self).tree_state(*old(bt)), stmts@).0),
        ensures
            final(self).wf(),
            final(self).place() == old(self).place(),
            ({
                let (ts, res) = build_block(old(self).place().0, old(self).place().1, old(self).place().2, old(self).tree_state(*old(bt)), stmts@);
                &&& final(self).tree_state(*final(bt)) == ts
                &&& match res {
                    Ok(_) => r is Ok,
                    Err(m) => r matches Err(e) && e@ == m,
                }
            }),
        decreases stmts@,
    {
        let ghost s0 = stmts@;
        let ghost ts0 = self.tree_state(*bt);
        let ghost p = self.place();
        if stmts.len() == 0 {
            return Ok(());
        }
        let mut rest = stmts;
        let first = rest.remove(0);
        proof {
            assert(rest@ =~= s0.subrange(1, s0.len() as int));
            lemma_build_stmt_grows(p.0, p.1, p.2, ts0, first.value);
            let (ts1, r1) = build_stmt(p.0, p.1, p.2, ts0, first.value);
            if r1 is Ok {
                lemma_build_block_grows(p.0, p.1, p.2, ts1, rest@);
            }
            self.lemma_env_at(*bt);
        }
        match self.build_statement(bt, first) {
            Ok(_) => {},
            Err(e) => {
                return Err(e);
            },
        }
        proof {
            lemma_stmt_keeps_target(p.0, p.1, p.2, ts0, first.value);
            self.lemma_env_at(*bt);
        }
        self.build_body(bt, rest)
    }

    /// Builds a function definition: its body, then its value, then the
    /// definition itself.
    fn build_funcdef(&mut self, bt: &mut BuildTree, def: PTFuncDef) -> (r: Result<(), String>)
        requires
            old(self).wf(),
            !old(self).defining(),
            plain_body(def.block@),
            def.value matches OrBundle::Normal(e) ==> plain_expr(e),
            names_ok(old(self).tree_state(*old(bt))),
            tree_fits(funcdef_spec(old(self).place().0, old(self).place().1, old(self).place().2, old(self).tree_state(*old(bt)), def).0),
        ensures
            final(self).wf(),
            final(self).place() == old(self).place(),
            ({
                let (ts, res) = funcdef_spec(old(self).place().0, old(self).place().1, old(self).place().2, old(self).tree_state(*old(bt)), def);
                &&& final(self).tree_state(*final(bt)) == ts
                &&& match res {
                    Ok(_) => r is Ok,
                    Err(m) => r matches Err(e) && e@ == m,
                }
            }),
        decreases def,
    {
        let ghost d = def;
        let ghost ts0 = self.tree_state(*bt);
        let ghost p = self.place();
        let PTFuncDef { name, modifiers, args, captures, block, value, value_type } = def;
        let ret_type = match value_type {
            Some(x) => {
                let mut v: Vec<ArgTypeSpec> = Vec::new();
                v.push(x);
                Some(v)
            },
            None => None,
        };
        let export = is_exported(&modifiers);
        self.push_funcproc_target(false, name.as_str(), args, ret_type, captures, export, bt);
        let ghost ts1 = self.tree_state(*bt);
        proof {
            assert(rt_view(ret_type) == (match d.value_type {
                Some(x) => Some(seq![x]),
                None => None::<Seq<ArgTypeSpec>>,
            })) by {
                match ret_type {
                    Some(v) => {
                        assert(v@ =~= seq![d.value_type->0]);
                    },
                    None => {},
                }
            }
            lemma_block_keeps_target(p.0, p.1, p.2, ts1, block@);
            lemma_build_block_grows(p.0, p.1, p.2, ts1, block@);
            let (ts2, r2) = build_block(p.0, p.1, p.2, ts1, block@);
            if r2 is Ok {
                let env2 = env_at(ts2, p.0, p.1, p.2);
                lemma_build_ob_grows(env2, bstate(ts2), value);
                let (b3, r3) = build_ob(env2, bstate(ts2), value);
                lemma_with_bstate_grows(ts2, b3);
                if r3 is Ok {
                    lemma_pop_grows(p.0, p.1, p.2, with_bstate(ts2, b3), seq![r3->Ok_0]);
                }
            }
            self.lemma_env_at(*bt);
        }
        match self.build_body(bt, block) {
            Ok(_) => {},
            Err(e) => {
                return Err(e);
            },
        }
        let ghost b2 = *self;
        let ghost bt2 = *bt;
        proof {
            self.lemma_env_at(*bt);
        }
        let v = match self.build_expr_ob(bt, &value) {
            Ok(v) => v,
            Err(e) => {
                proof {
                    self.lemma_tree_of_moved(*bt, b2, bt2);
                }
                return Err(e);
            },
        };
        proof {
            self.lemma_tree_of_moved(*bt, b2, bt2);
            self.lemma_env_at(*bt);
        }
        let ghost vv = ob_view(v);
        let mut ret: Vec<OrBundle<BTExpression>> = Vec::new();
        ret.push(v);
        proof {
            assert(ret@.map_values(|x: OrBundle<BTExpression>| ob_view(x)) =~= seq![vv]);
        }
        self.pop_funcproc_target(ret, bt)
    }

    /// Builds a procedure definition: its body, then its results, then the
    /// definition itself.
    fn build_procdef(&mut self, bt: &mut BuildTree, def: PTProcDef) -> (r: Result<(), String>)
        requires
            old(self).wf(),
            !old(self).defining(),
            plain_body(def.block@),
            plain_rhs(def.ret@),
            names_ok(old(self).tree_state(*old(bt))),
            tree_fits(procdef_spec(old(self).place().0, old(self).place().1, old(self).place().2, old(self).tree_state(*old(bt)), def).0),
        ensures
            final(self).wf(),
            final(self).place() == old(self).place(),
            ({
                let (ts, res) = procdef_spec(old(self).place().0, old(self).place().1, old(self).place().2, old(self).tree_state(*old(bt)), def);
                &&& final(self).tree_state(*final(bt)) == ts
                &&& match res {
                    Ok(_) => r is Ok,
                    Err(m) => r matches Err(e) && e@ == m,
                }
            }),
        decreases def,
    {
        let ghost d = def;
        let ghost ts0 = self.tree_state(*bt);
        let ghost p = self.place();
        let PTProcDef { name, modifiers, args, captures, block, ret, ret_type } = def;
        let export = is_exported(&modifiers);
        self.push_funcproc_target(true, name.as_str(), args, ret_type, captures, export, bt);
        let ghost ts1 = self.tree_state(*bt);
        proof {
            lemma_block_keeps_target(p.0, p.1, p.2, ts1, block@);
            lemma_build_block_grows(p.0, p.1, p.2, ts1, block@);
            let (ts2, r2) = build_block(p.0, p.1, p.2, ts1, block@);
            if r2 is Ok {
                let env2 = env_at(ts2, p.0, p.1, p.2);
                lemma_build_obs_grows(env2, bstate(ts2), ret@);
                let (b3, r3) = build_obs(env2, bstate(ts2), ret@);
                lemma_with_bstate_grows(ts2, b3);
                if r3 is Ok {
                    lemma_pop_grows(p.0, p.1, p.2, with_bstate(ts2, b3), r3->Ok_0);
                }
            }
            self.lemma_env_at(*bt);
        }
        match self.build_body(bt, block) {
            Ok(_) => {},
            Err(e) => {
                return Err(e);
            },
        }
        let ghost b2 = *self;
        let ghost bt2 = *bt;
        proof {
            self.lemma_env_at(*bt);
        }
        let values = match self.build_ret_values(bt, &ret) {
            Ok(v) => v,
            Err(e) => {
                proof {
                    self.lemma_tree_of_moved(*bt, b2, bt2);
                }
                return Err(e);
            },
        };
        proof {
            self.lemma_tree_of_moved(*bt, b2, bt2);
            self.lemma_env_at(*bt);
        }
        self.pop_funcproc_target(values, bt)
    }
}

impl BuildContext {
    /// Builds `stmt` at its own location and in its own file context; an
    /// error is located at the statement.
    fn build_located(&mut self, bt: &mut BuildTree, stmt: PTStatement) -> (r: Result<(), String>)
        requires
            old(self).wf(),
            plain_stmt(stmt.value, !old(self).defining()),
            names_ok(old(self).tree_state(*old(bt))),
            tree_fits(build_stmt(stmt.context, stmt.file@, stmt.line_no, old(self).tree_state(*old(bt)), stmt.value).0),
        ensures
            final(self).wf(),
            ({
                let (ts, res) = build_stmt(stmt.context, stmt.file@, stmt.line_no, old(self).tree_state(*old(bt)), stmt.value);
                &&& final(self).tree_state(*final(bt)) == ts
                &&& match res {
                    Ok(_) => r is Ok,
                    Err(m) => r matches Err(e) && e@ == at_text(m, Some((files_text(stmt.file@), stmt.line_no))),
                }
            }),
    {
        let ghost sv = stmt;
        let ghost ts0 = self.tree_state(*bt);
        self.set_location(&stmt.file, stmt.line_no);
        self.set_file_context(stmt.context);
        proof {
            assert(self.tree_state(*bt) == ts0);
        }
        match self.build_statement(bt, stmt) {
            Ok(_) => Ok(()),
            Err(e) => {
                let (files, line_no) = self.location();
                Err(at(e.as_str(), Some((files, line_no))))
            },
        }
    }
}

impl PTStatement {
    /// Builds the tree of a program: each statement at its own location
    /// and in its own file context, stopping at the first error, which is
    /// located at its statement.
    pub fn to_build_tree(this: Vec<PTStatement>) -> (r: Result<BuildTree, String>)
        requires
            forall|i: int| 0 <= i < this@.len() ==> plain_stmt(#[trigger] this@[i].value, true),
            tree_fits(build_program(initial_tree(), this@).0),
        ensures
            match build_program(initial_tree(), this@) {
                (ts, Ok(_)) => r matches Ok(bt) && defs_view(bt.definitions@) == ts.defs && stmts_view(bt.statements@) == ts.statements,
                (_, Err(m)) => r matches Err(e) && e@ == m,
            },
    {
        let ghost all = this@;
        let ghost whole = build_program(initial_tree(), all);
        let mut bt = BuildTree::new();
        let mut bc = BuildContext::new();
        let mut rest = this;
        proof {
            assert(bc.tree_state(bt) =~= initial_tree()) by {
                assert(defs_view(bt.definitions@) =~= Seq::<DefView>::empty());
                assert(stmts_view(bt.statements@) =~= Seq::<StmtView>::empty());
                bc.lemma_env_at(bt);
            }
            lemma_build_program_grows(initial_tree(), all);
        }
        while rest.len() > 0
            invariant
                all == this@,
                whole == build_program(initial_tree(), all),
                bc.wf(),
                bc.tree_state(bt).target is None,
                names_ok(bc.tree_state(bt)),
                build_program(bc.tree_state(bt), rest@) == whole,
                forall|i: int| 0 <= i < rest@.len() ==> plain_stmt(#[trigger] rest@[i].value, true),
                tree_fits(whole.0),
                tree_grows(bc.tree_state(bt), whole.0),
            decreases rest@.len(),
        {
            let ghost r0 = rest@;
            let ghost ts0 = bc.tree_state(bt);
            let stmt = rest.remove(0);
            let ghost sv = stmt;
            proof {
                lemma_program_step(ts0, r0, whole.0);
                assert(sv == r0[0]);
                assert(rest@ =~= r0.subrange(1, r0.len() as int));
                assert forall|i: int| 0 <= i < rest@.len() implies plain_stmt(#[trigger] rest@[i].value, true) by {
                    assert(rest@[i] == r0[i + 1]);
                }
                bc.lemma_env_at(bt);
            }
            match bc.build_located(&mut bt, stmt) {
                Ok(_) => {
                    proof {
                        lemma_top_ends_target(sv.context, sv.file@, sv.line_no, ts0, sv.value);
                    }
                },
                Err(e) => {
                    proof {
                        let (ts1, r1) = build_stmt(sv.context, sv.file@, sv.line_no, ts0, sv.value);
                        assert(r1 is Err);
                        assert(whole == (ts1, Err::<(), Seq<char>>(at_text(r1->Err_0, Some((files_text(sv.file@), sv.line_no))))));
                        assert(e@ == at_text(r1->Err_0, Some((files_text(sv.file@), sv.line_no))));
                    }
                    return Err(e);
                },
            }
        }
        proof {
            bc.lemma_env_at(bt);
            reveal(build_program);
        }
        Ok(bt)
    }
}

/// One statement of a program: what its build needs holds, and the rest
/// grows on from it.
proof fn lemma_program_step(ts: TreeState, stmts: Seq<PTStatement>, last: TreeState)
    requires
        stmts.len() > 0,
        tree_fits(last),
        tree_grows(ts, last),
        build_program(ts, stmts).0 == last,
    ensures
        ({
            let s = stmts[0];
            let (ts1, r1) = build_stmt(s.context, s.file@, s.line_no, ts, s.value);
            &&& tree_fits(ts1)
            &&& tree_grows(ts, ts1)
            &&& r1 is Ok ==> tree_grows(ts1, last) && build_program(ts1, stmts.subrange(1, stmts.len() as int)) == build_program(ts, stmts)
            &&& r1 matches Err(m) ==> build_program(ts, stmts) == (ts1, Err::<(), Seq<char>>(at_text(m, Some((files_text(s.file@), s.line_no)))))
        }),
{
    reveal(build_program);
    let s = stmts[0];
    lemma_build_stmt_grows(s.context, s.file@, s.line_no, ts, s.value);
    let (ts1, r1) = build_stmt(s.context, s.file@, s.line_no, ts, s.value);
    if r1 is Ok {
        lemma_build_program_grows(ts1, stmts.subrange(1, stmts.len() as int));
    }
}

/// A function or procedure defined under a name that is free is found
/// under it: from its own file context, and, when exported and not hidden
/// by a name of that context, from every other. A name already taken is
/// refused, with the definition added all the same.
pub proof fn lemma_defined_found(ts: TreeState, context: usize, name: Seq<char>, fp: FuncProcView, is_proc: bool, export: bool, other: usize)
    ensures
        ({
            let (ts1, r) = define_funcproc_spec(ts, context, name, fp, is_proc, export);
            let key = (if export { None } else { Some(context) }, name);
            let id = ts.defs.len() as usize;
            let d = if is_proc { DefName::Proc(id) } else { DefName::Func(id) };
            &&& ts1.defs == ts.defs.push(if is_proc { DefView::Proc(fp) } else { DefView::Func(fp) })
            &&& ts.names.contains_key(key) ==> r == Err::<usize, Seq<char>>(duplicate_message(name)) && ts1.names == ts.names
            &&& !ts.names.contains_key(key) ==> {
                &&& r == Ok::<usize, Seq<char>>(id)
                &&& !export ==> lookup_spec(ts1.names, context, name) == Ok::<DefName, Seq<char>>(d)
                &&& export && !ts.names.contains_key((Some(other), name)) ==> lookup_spec(ts1.names, other, name) == Ok::<DefName, Seq<char>>(d)
            }
        }),
{
}

} // verus!
