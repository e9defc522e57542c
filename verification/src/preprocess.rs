//! The last preprocessing pass over a parse tree: every infix and prefix
//! operator becomes a call of the function that implements it, and flags
//! are taken out of the program and recorded.

use vstd::prelude::*;
use vstd::pervasive::unreached;
use crate::buildtreebuilder::{dress_exprs, files_text, plain_arg, plain_args, plain_body, plain_expr, plain_items, plain_rhs, plain_stmt};
use crate::model::{Check, OrBundle, OrBundleRepeater, Variable};
use crate::parsetree::{PTCall, PTExpression, PTFuncDef, PTProcDef, PTStatement, PTStatementValue, at, at_text};
use crate::text::{owned, push_str, same_text};

verus! {

/// The function implementing infix operator `f`, if it is one.
pub open spec fn infix_function(f: Seq<char>) -> Option<Seq<char>> {
    if f == "*"@ {
        Some("__operator_mul"@)
    } else if f == "/"@ {
        Some("__operator_div"@)
    } else if f == "+"@ {
        Some("__operator_add"@)
    } else if f == "-"@ {
        Some("__operator_sub"@)
    } else if f == ">"@ {
        Some("__operator_gt"@)
    } else if f == ">="@ {
        Some("__operator_ge"@)
    } else if f == "<"@ {
        Some("__operator_lt"@)
    } else if f == "<="@ {
        Some("__operator_le"@)
    } else if f == "=="@ {
        Some("__operator_eq"@)
    } else if f == "!="@ {
        Some("__operator_ne"@)
    } else if f == "&&"@ {
        Some("__operator_and"@)
    } else if f == "||"@ {
        Some("__operator_or"@)
    } else {
        None
    }
}

/// The function implementing prefix operator `f`, if it is one.
pub open spec fn prefix_function(f: Seq<char>) -> Option<Seq<char>> {
    if f == "-"@ {
        Some("__operator_minus"@)
    } else if f == "!"@ {
        Some("__operator_not"@)
    } else {
        None
    }
}

/// The function implementing infix operator `f`, if it is one.
fn infix_name(f: &String) -> (r: Option<&'static str>)
    ensures
        match infix_function(f@) {
            Some(n) => r matches Some(x) && x@ == n,
            None => r is None,
        },
{
    proof {
        reveal_strlit("*");
        reveal_strlit("/");
        reveal_strlit("+");
        reveal_strlit("-");
        reveal_strlit(">");
        reveal_strlit(">=");
        reveal_strlit("<");
        reveal_strlit("<=");
        reveal_strlit("==");
        reveal_strlit("!=");
        reveal_strlit("&&");
        reveal_strlit("||");
    }
    if same_text(f, "*") {
        Some("__operator_mul")
    } else if same_text(f, "/") {
        Some("__operator_div")
    } else if same_text(f, "+") {
        Some("__operator_add")
    } else if same_text(f, "-") {
        Some("__operator_sub")
    } else if same_text(f, ">") {
        Some("__operator_gt")
    } else if same_text(f, ">=") {
        Some("__operator_ge")
    } else if same_text(f, "<") {
        Some("__operator_lt")
    } else if same_text(f, "<=") {
        Some("__operator_le")
    } else if same_text(f, "==") {
        Some("__operator_eq")
    } else if same_text(f, "!=") {
        Some("__operator_ne")
    } else if same_text(f, "&&") {
        Some("__operator_and")
    } else if same_text(f, "||") {
        Some("__operator_or")
    } else {
        None
    }
}

/// The function implementing prefix operator `f`, if it is one.
fn prefix_name(f: &String) -> (r: Option<&'static str>)
    ensures
        match prefix_function(f@) {
            Some(n) => r matches Some(x) && x@ == n,
            None => r is None,
        },
{
    proof {
        reveal_strlit("-");
        reveal_strlit("!");
    }
    if same_text(f, "-") {
        Some("__operator_minus")
    } else if same_text(f, "!") {
        Some("__operator_not")
    } else {
        None
    }
}

/// Every operator in `e` is one the pass knows.
pub open spec fn ops_known(e: PTExpression) -> bool
    decreases e,
{
    match e {
        PTExpression::FiniteSequence(xs) => ops_known_items(xs@),
        PTExpression::InfiniteSequence(x) => ops_known(*x),
        PTExpression::Infix(a, f, b) => infix_function(f@) is Some && ops_known(*a) && ops_known(*b),
        PTExpression::Prefix(f, a) => prefix_function(f@) is Some && ops_known(*a),
        PTExpression::Call(c) => ops_known_args(c.args@),
        _ => true,
    }
}

/// Every operator in `xs` is one the pass knows.
pub open spec fn ops_known_items(xs: Seq<PTExpression>) -> bool
    decreases xs,
{
    if xs.len() == 0 {
        true
    } else {
        ops_known(xs[0]) && ops_known_items(xs.subrange(1, xs.len() as int))
    }
}

/// Every operator in the call arguments `xs` is one the pass knows.
pub open spec fn ops_known_args(xs: Seq<OrBundleRepeater<PTExpression>>) -> bool
    decreases xs,
{
    if xs.len() == 0 {
        true
    } else {
        (xs[0] matches OrBundleRepeater::Normal(x) ==> ops_known(x)) && ops_known_args(xs.subrange(1, xs.len() as int))
    }
}

/// `b` is `a` with every operator replaced by a call of its function, the
/// operands replaced in turn.
pub open spec fn replaced(a: PTExpression, b: PTExpression) -> bool
    decreases a,
{
    match a {
        PTExpression::FiniteSequence(xs) => b matches PTExpression::FiniteSequence(ys) && replaced_items(xs@, ys@),
        PTExpression::InfiniteSequence(x) => b matches PTExpression::InfiniteSequence(y) && replaced(*x, *y),
        PTExpression::Infix(x, f, y) => match infix_function(f@) {
            Some(n) => {
                &&& b matches PTExpression::Call(c)
                &&& c.name@ == n
                &&& !c.is_macro
                &&& c.args@.len() == 2
                &&& c.args@[0] matches OrBundleRepeater::Normal(x2) && replaced(*x, x2)
                &&& c.args@[1] matches OrBundleRepeater::Normal(y2) && replaced(*y, y2)
            },
            None => false,
        },
        PTExpression::Prefix(f, x) => match prefix_function(f@) {
            Some(n) => {
                &&& b matches PTExpression::Call(c)
                &&& c.name@ == n
                &&& !c.is_macro
                &&& c.args@.len() == 1
                &&& c.args@[0] matches OrBundleRepeater::Normal(x2) && replaced(*x, x2)
            },
            None => false,
        },
        PTExpression::Call(c) => b matches PTExpression::Call(d) && replaced_call(c, d),
        _ => b == a,
    }
}

/// `d` is call `c` with the operators of its arguments replaced.
pub open spec fn replaced_call(c: PTCall, d: PTCall) -> bool
    decreases c,
{
    &&& d.name == c.name
    &&& d.is_macro == c.is_macro
    &&& replaced_args(c.args@, d.args@)
}

/// `ys` is `xs` with the operators of each replaced.
pub open spec fn replaced_items(xs: Seq<PTExpression>, ys: Seq<PTExpression>) -> bool
    decreases xs,
{
    &&& xs.len() == ys.len()
    &&& xs.len() > 0 ==> replaced(xs[0], ys[0]) && replaced_items(xs.subrange(1, xs.len() as int), ys.subrange(1, ys.len() as int))
}

/// `ys` is the call arguments `xs` with the operators of each replaced;
/// bundles and repeaters stay as they are.
pub open spec fn replaced_args(xs: Seq<OrBundleRepeater<PTExpression>>, ys: Seq<OrBundleRepeater<PTExpression>>) -> bool
    decreases xs,
{
    &&& xs.len() == ys.len()
    &&& xs.len() > 0 ==> replaced_arg(xs[0], ys[0]) && replaced_args(xs.subrange(1, xs.len() as int), ys.subrange(1, ys.len() as int))
}

/// `y` is call argument `x` with its operators replaced.
pub open spec fn replaced_arg(x: OrBundleRepeater<PTExpression>, y: OrBundleRepeater<PTExpression>) -> bool
    decreases x,
{
    match x {
        OrBundleRepeater::Normal(e) => y matches OrBundleRepeater::Normal(f) && replaced(e, f),
        _ => y == x,
    }
}

impl PTExpression {
    /// `self` with every operator replaced by a call of the function that
    /// implements it, operands first.
    pub fn replace_operators(self) -> (r: PTExpression)
        requires
            ops_known(self),
        ensures
            replaced(self, r),
        decreases self,
    {
        match self {
            PTExpression::FiniteSequence(xs) => PTExpression::FiniteSequence(replace_items(xs)),
            PTExpression::InfiniteSequence(x) => PTExpression::InfiniteSequence(Box::new((*x).replace_operators())),
            PTExpression::Infix(a, f, b) => {
                let a2 = (*a).replace_operators();
                let b2 = (*b).replace_operators();
                let name = match infix_name(&f) {
                    Some(n) => n,
                    None => unreached(),
                };
                let mut args: Vec<OrBundleRepeater<PTExpression>> = Vec::new();
                args.push(OrBundleRepeater::Normal(a2));
                args.push(OrBundleRepeater::Normal(b2));
                PTExpression::Call(PTCall { name: owned(name), args, is_macro: false })
            },
            PTExpression::Prefix(f, a) => {
                let a2 = (*a).replace_operators();
                let name = match prefix_name(&f) {
                    Some(n) => n,
                    None => unreached(),
                };
                let mut args: Vec<OrBundleRepeater<PTExpression>> = Vec::new();
                args.push(OrBundleRepeater::Normal(a2));
                PTExpression::Call(PTCall { name: owned(name), args, is_macro: false })
            },
            PTExpression::Call(c) => PTExpression::Call(c.replace_operators()),
            x => x,
        }
    }
}

impl PTCall {
    /// The call with the operators of its arguments replaced.
    pub fn replace_operators(self) -> (r: PTCall)
        requires
            ops_known_args(self.args@),
        ensures
            replaced_call(self, r),
        decreases self,
    {
        let PTCall { name, args, is_macro } = self;
        PTCall { name, args: replace_args(args), is_macro }
    }
}

/// Expressions with their operators replaced, in order.
fn replace_items(xs: Vec<PTExpression>) -> (r: Vec<PTExpression>)
    requires
        ops_known_items(xs@),
    ensures
        replaced_items(xs@, r@),
    decreases xs@,
{
    let ghost s0 = xs@;
    if xs.len() == 0 {
        return Vec::new();
    }
    let mut rest = xs;
    let first = rest.remove(0);
    proof {
        assert(rest@ =~= s0.subrange(1, s0.len() as int));
    }
    let head = first.replace_operators();
    let tail = replace_items(rest);
    let ghost tv = tail@;
    let mut out: Vec<PTExpression> = Vec::new();
    out.push(head);
    let mut tail = tail;
    out.append(&mut tail);
    proof {
        assert(out@.subrange(1, out@.len() as int) =~= tv);
    }
    out
}

/// Call arguments with their operators replaced, in order.
fn replace_args(xs: Vec<OrBundleRepeater<PTExpression>>) -> (r: Vec<OrBundleRepeater<PTExpression>>)
    requires
        ops_known_args(xs@),
    ensures
        replaced_args(xs@, r@),
    decreases xs@,
{
    let ghost s0 = xs@;
    if xs.len() == 0 {
        return Vec::new();
    }
    let mut rest = xs;
    let first = rest.remove(0);
    proof {
        assert(rest@ =~= s0.subrange(1, s0.len() as int));
    }
    let head = match first {
        OrBundleRepeater::Normal(x) => OrBundleRepeater::Normal(x.replace_operators()),
        other => other,
    };
    let tail = replace_args(rest);
    let ghost tv = tail@;
    let mut out: Vec<OrBundleRepeater<PTExpression>> = Vec::new();
    out.push(head);
    let mut tail = tail;
    out.append(&mut tail);
    proof {
        assert(out@.subrange(1, out@.len() as int) =~= tv);
        assert(out@[0] == head);
        assert(replaced_arg(s0[0], out@[0]));
    }
    out
}

/// Replacing operators leaves none: the expression is one the builder
/// takes.
pub proof fn lemma_replaced_plain(a: PTExpression, b: PTExpression)
    requires
        replaced(a, b),
    ensures
        plain_expr(b),
    decreases a,
{
    match a {
        PTExpression::FiniteSequence(xs) => {
            let ys = b->FiniteSequence_0;
            lemma_replaced_items_plain(xs@, ys@);
        },
        PTExpression::InfiniteSequence(x) => {
            lemma_replaced_plain(*x, *(b->InfiniteSequence_0));
        },
        PTExpression::Infix(x, f, y) => {
            let c = b->Call_0;
            let s = c.args@;
            lemma_replaced_plain(*x, s[0]->Normal_0);
            lemma_replaced_plain(*y, s[1]->Normal_0);
            let s1 = s.subrange(1, 2);
            let s2 = s1.subrange(1, 1);
            assert(s1[0] == s[1]);
            assert(s2 =~= Seq::<OrBundleRepeater<PTExpression>>::empty());
            assert(plain_arg(s[0]));
            assert(plain_arg(s1[0]));
            assert(plain_args(s2));
            assert(plain_args(s1));
            assert(plain_args(s));
        },
        PTExpression::Prefix(f, x) => {
            let c = b->Call_0;
            let s = c.args@;
            lemma_replaced_plain(*x, s[0]->Normal_0);
            assert(s.subrange(1, 1) =~= Seq::<OrBundleRepeater<PTExpression>>::empty());
            assert(plain_arg(s[0]));
            assert(plain_args(s.subrange(1, 1)));
            assert(plain_args(s));
        },
        PTExpression::Call(c) => {
            let d = b->Call_0;
            assert(replaced_call(c, d));
            lemma_replaced_args_plain(c.args@, d.args@);
        },
        _ => {},
    }
}

proof fn lemma_replaced_items_plain(xs: Seq<PTExpression>, ys: Seq<PTExpression>)
    requires
        replaced_items(xs, ys),
    ensures
        plain_items(ys),
    decreases xs,
{
    if xs.len() > 0 {
        lemma_replaced_plain(xs[0], ys[0]);
        lemma_replaced_items_plain(xs.subrange(1, xs.len() as int), ys.subrange(1, ys.len() as int));
    }
}

proof fn lemma_replaced_args_plain(xs: Seq<OrBundleRepeater<PTExpression>>, ys: Seq<OrBundleRepeater<PTExpression>>)
    requires
        replaced_args(xs, ys),
    ensures
        plain_args(ys),
    decreases xs,
{
    if xs.len() > 0 {
        assert(replaced_arg(xs[0], ys[0]));
        match xs[0] {
            OrBundleRepeater::Normal(e) => {
                assert(ys[0] is Normal);
                assert(replaced(e, ys[0]->Normal_0));
                lemma_replaced_plain(e, ys[0]->Normal_0);
            },
            _ => {},
        }
        assert(plain_arg(ys[0]));
        lemma_replaced_args_plain(xs.subrange(1, xs.len() as int), ys.subrange(1, ys.len() as int));
    }
}

/// The flags met so far, each recorded once.
pub struct Phase2Misc {
    flags: Vec<String>,
}

impl View for Phase2Misc {
    type V = Set<Seq<char>>;

    closed spec fn view(&self) -> Set<Seq<char>> {
        Set::new(|f: Seq<char>| exists|i: int| 0 <= i < self.flags@.len() && #[trigger] self.flags@[i]@ == f)
    }
}

impl Phase2Misc {
    /// No flag met yet.
    pub fn new() -> (r: Phase2Misc)
        ensures
            r@ == Set::<Seq<char>>::empty(),
    {
        let r = Phase2Misc { flags: Vec::new() };
        proof {
            assert(r@ =~= Set::<Seq<char>>::empty());
        }
        r
    }

    /// Whether flag `flag` was met.
    pub fn has_flag(&self, flag: &str) -> (r: bool)
        ensures
            r == self@.contains(flag@),
    {
        let mut i: usize = 0;
        while i < self.flags.len()
            invariant
                i <= self.flags@.len(),
                forall|j: int| 0 <= j < i ==> self.flags@[j]@ != flag@,
            decreases self.flags@.len() - i,
        {
            if same_text(&self.flags[i], flag) {
                assert(self.flags@[i as int]@ == flag@);
                return true;
            }
            i += 1;
        }
        false
    }

    /// Records flag `flag`.
    pub fn set_flag(&mut self, flag: &str)
        ensures
            final(self)@ == old(self)@.insert(flag@),
    {
        if !self.has_flag(flag) {
            let ghost before = self.flags@;
            self.flags.push(owned(flag));
            proof {
                assert forall|f: Seq<char>| old(self)@.insert(flag@).contains(f) implies #[trigger] self@.contains(f) by {
                    if f == flag@ {
                        assert(self.flags@[before.len() as int]@ == f);
                    } else {
                        assert(old(self)@.contains(f));
                        assert(exists|i: int| 0 <= i < old(self).flags@.len() && #[trigger] old(self).flags@[i]@ == f);
                        let i = choose|i: int| 0 <= i < old(self).flags@.len() && #[trigger] old(self).flags@[i]@ == f;
                        assert(self.flags@[i]@ == f);
                    }
                }
                assert forall|f: Seq<char>| #[trigger] self@.contains(f) implies old(self)@.insert(flag@).contains(f) by {
                    {
                        let i = choose|i: int| 0 <= i < self.flags@.len() && #[trigger] self.flags@[i]@ == f;
                        if i < before.len() {
                            assert(before[i]@ == f);
                        }
                    }
                }
                assert(self@ =~= old(self)@.insert(flag@));
            }
        } else {
            proof {
                assert(self@ =~= old(self)@.insert(flag@));
            }
        }
    }
}

/// How many of the things a let binds are repeaters.
pub open spec fn repeat_count(lv: Seq<OrBundleRepeater<(Variable, Vec<Check>)>>) -> nat
    decreases lv.len(),
{
    if lv.len() == 0 {
        0
    } else {
        (if lv.last() is Repeater { 1nat } else { 0nat }) + repeat_count(lv.drop_last())
    }
}

/// The message for a let with more than one repeater.
pub open spec fn repeat_message() -> Seq<char> {
    "only one repeat permitted per statement"@
}

/// The message for a file that includes itself, located at the include.
pub open spec fn include_message(path: Seq<char>, file: Seq<String>, line_no: usize) -> Seq<char> {
    at_text("recursive include of "@ + path, Some((files_text(file), line_no)))
}

/// A returned value or right-hand side with its operators replaced.
pub open spec fn replaced_ob(x: OrBundle<PTExpression>, y: OrBundle<PTExpression>) -> bool {
    match x {
        OrBundle::Normal(e) => y matches OrBundle::Normal(f) && replaced(e, f),
        _ => y == x,
    }
}

/// Returned values or right-hand sides with their operators replaced.
pub open spec fn replaced_obs(xs: Seq<OrBundle<PTExpression>>, ys: Seq<OrBundle<PTExpression>>) -> bool {
    &&& xs.len() == ys.len()
    &&& forall|i: int| 0 <= i < xs.len() ==> #[trigger] replaced_ob(xs[i], ys[i])
}

/// Every operator of a returned value or right-hand side is known.
pub open spec fn ops_known_ob(x: OrBundle<PTExpression>) -> bool {
    x matches OrBundle::Normal(e) ==> ops_known(e)
}

/// Every operator of returned values or right-hand sides is known.
pub open spec fn ops_known_obs(xs: Seq<OrBundle<PTExpression>>) -> bool {
    forall|i: int| 0 <= i < xs.len() ==> #[trigger] ops_known_ob(xs[i])
}

/// The flags the pass meets in statement `s`, and the error that stops it
/// there, if any.
pub open spec fn scan_stmt(s: PTStatement) -> (Set<Seq<char>>, Option<Seq<char>>)
    decreases s,
{
    match s.value {
        PTStatementValue::LetStatement(lv, _) => (Set::empty(), if repeat_count(lv@) > 1 { Some(repeat_message()) } else { None }),
        PTStatementValue::FuncDef(d) => scan_list(d.block@),
        PTStatementValue::ProcDef(d) => scan_list(d.block@),
        _ => (Set::empty(), None),
    }
}

/// The flags the pass meets in `stmts` before its first error, and that
/// error, if any: an include of a file that includes it, or a let with
/// more than one repeater.
pub open spec fn scan_list(stmts: Seq<PTStatement>) -> (Set<Seq<char>>, Option<Seq<char>>)
    decreases stmts,
{
    if stmts.len() == 0 {
        (Set::empty(), None)
    } else {
        let s = stmts[0];
        let (f1, e1) = match s.value {
            PTStatementValue::Include(path) => (
                Set::empty(),
                if files_text(s.file@).contains(path@) { Some(include_message(path@, s.file@, s.line_no)) } else { None },
            ),
            PTStatementValue::Flag(f) => (Set::empty().insert(f@), None),
            _ => scan_stmt(s),
        };
        match e1 {
            Some(m) => (f1, Some(m)),
            None => {
                let (f2, e2) = scan_list(stmts.subrange(1, stmts.len() as int));
                (f1.union(f2), e2)
            },
        }
    }
}

/// Every operator the pass meets in `s` before an error is known.
pub open spec fn known_stmt(s: PTStatement) -> bool
    decreases s,
{
    match s.value {
        PTStatementValue::LetStatement(lv, rv) => repeat_count(lv@) > 1 || ops_known_obs(rv@),
        PTStatementValue::ModifyStatement(_, xs) => ops_known_items(xs@),
        PTStatementValue::BareCall(c) => ops_known_args(c.args@),
        PTStatementValue::FuncDef(d) => known_list(d.block@) && (scan_list(d.block@).1 is Some || ops_known_ob(d.value)),
        PTStatementValue::ProcDef(d) => known_list(d.block@) && (scan_list(d.block@).1 is Some || ops_known_obs(d.ret@)),
        _ => true,
    }
}

/// Every operator the pass meets in `stmts` before an error is known.
pub open spec fn known_list(stmts: Seq<PTStatement>) -> bool
    decreases stmts,
{
    if stmts.len() == 0 {
        true
    } else {
        let s = stmts[0];
        let (known, stops) = match s.value {
            PTStatementValue::Include(path) => (true, files_text(s.file@).contains(path@)),
            PTStatementValue::Flag(_) => (true, false),
            _ => (known_stmt(s), scan_stmt(s).1 is Some),
        };
        known && (stops || known_list(stmts.subrange(1, stmts.len() as int)))
    }
}

/// `b` is statement `a` with the operators in it replaced and the flags in
/// the bodies of its definitions taken out.
pub open spec fn replaced_stmt(a: PTStatement, b: PTStatement) -> bool
    decreases a,
{
    &&& b.file == a.file
    &&& b.line_no == a.line_no
    &&& b.context == a.context
    &&& match a.value {
        PTStatementValue::LetStatement(lv, rv) => b.value matches PTStatementValue::LetStatement(lv2, rv2) && lv2 == lv && replaced_obs(rv@, rv2@),
        PTStatementValue::ModifyStatement(vs, xs) => b.value matches PTStatementValue::ModifyStatement(vs2, xs2) && vs2 == vs && replaced_items(xs@, xs2@),
        PTStatementValue::BareCall(c) => b.value matches PTStatementValue::BareCall(d) && replaced_call(c, d),
        PTStatementValue::FuncDef(d) => b.value matches PTStatementValue::FuncDef(e) && replaced_funcdef(d, e),
        PTStatementValue::ProcDef(d) => b.value matches PTStatementValue::ProcDef(e) && replaced_procdef(d, e),
        _ => b.value == a.value,
    }
}

/// `e` is function definition `d` with its body and value passed over.
pub open spec fn replaced_funcdef(d: PTFuncDef, e: PTFuncDef) -> bool
    decreases d,
{
    &&& e.name == d.name
    &&& e.modifiers == d.modifiers
    &&& e.args == d.args
    &&& e.captures == d.captures
    &&& replaced_list(d.block@, e.block@)
    &&& replaced_ob(d.value, e.value)
    &&& e.value_type == d.value_type
}

/// `e` is procedure definition `d` with its body and results passed over.
pub open spec fn replaced_procdef(d: PTProcDef, e: PTProcDef) -> bool
    decreases d,
{
    &&& e.name == d.name
    &&& e.modifiers == d.modifiers
    &&& e.args == d.args
    &&& e.captures == d.captures
    &&& replaced_list(d.block@, e.block@)
    &&& replaced_obs(d.ret@, e.ret@)
    &&& e.ret_type == d.ret_type
}

/// `b` is `a` with its flags taken out and the operators of the other
/// statements replaced.
pub open spec fn replaced_list(a: Seq<PTStatement>, b: Seq<PTStatement>) -> bool
    decreases a,
{
    if a.len() == 0 {
        b.len() == 0
    } else if a[0].value is Flag {
        replaced_list(a.subrange(1, a.len() as int), b)
    } else {
        &&& b.len() > 0
        &&& replaced_stmt(a[0], b[0])
        &&& replaced_list(a.subrange(1, a.len() as int), b.subrange(1, b.len() as int))
    }
}

/// How many of the things `lv` binds are repeaters.
fn count_repeaters(lv: &Vec<OrBundleRepeater<(Variable, Vec<Check>)>>) -> (r: usize)
    ensures
        r == repeat_count(lv@),
{
    let mut n: usize = 0;
    let mut i: usize = 0;
    while i < lv.len()
        invariant
            i <= lv@.len(),
            n == repeat_count(lv@.take(i as int)),
            n <= i,
        decreases lv@.len() - i,
    {
        proof {
            assert(lv@.take(i + 1).drop_last() =~= lv@.take(i as int));
        }
        if lv[i].is_repeater() {
            n += 1;
        }
        i += 1;
    }
    proof {
        assert(lv@.take(lv@.len() as int) =~= lv@);
    }
    n
}

/// A returned value or right-hand side with its operators replaced.
fn replace_ob(x: OrBundle<PTExpression>) -> (r: OrBundle<PTExpression>)
    requires
        ops_known_ob(x),
    ensures
        replaced_ob(x, r),
{
    match x {
        OrBundle::Normal(e) => OrBundle::Normal(e.replace_operators()),
        other => other,
    }
}

/// Returned values or right-hand sides with their operators replaced, in
/// order.
fn replace_obs(xs: Vec<OrBundle<PTExpression>>) -> (r: Vec<OrBundle<PTExpression>>)
    requires
        ops_known_obs(xs@),
    ensures
        replaced_obs(xs@, r@),
{
    let ghost all = xs@;
    let mut rest = xs;
    let mut out: Vec<OrBundle<PTExpression>> = Vec::new();
    while rest.len() > 0
        invariant
            ops_known_obs(all),
            out@.len() + rest@.len() == all.len(),
            rest@ =~= all.subrange(out@.len() as int, all.len() as int),
            forall|i: int| 0 <= i < out@.len() ==> #[trigger] replaced_ob(all[i], out@[i]),
        decreases rest@.len(),
    {
        let ghost k = out@.len() as int;
        let x = rest.remove(0);
        proof {
            assert(x == all[k]);
            assert(ops_known_ob(all[k]));
        }
        out.push(replace_ob(x));
    }
    out
}

impl PTFuncDef {
    /// The definition with its body passed over and the operators of its
    /// value replaced.
    pub fn transform(self, transformer: &mut Phase2Misc) -> (r: Result<PTFuncDef, String>)
        requires
            known_list(self.block@),
            scan_list(self.block@).1 is Some || ops_known_ob(self.value),
        ensures
            final(transformer)@ == old(transformer)@.union(scan_list(self.block@).0),
            match scan_list(self.block@).1 {
                Some(m) => r matches Err(e) && e@ == m,
                None => r matches Ok(e) && replaced_funcdef(self, e),
            },
        decreases self,
    {
        let PTFuncDef { name, modifiers, args, captures, block, value, value_type } = self;
        let block = match PTStatement::transform_list(block, transformer) {
            Ok(b) => b,
            Err(e) => {
                return Err(e);
            },
        };
        let value = replace_ob(value);
        Ok(PTFuncDef { name, modifiers, args, captures, block, value, value_type })
    }
}

impl PTProcDef {
    /// The definition with its body passed over and the operators of its
    /// results replaced.
    pub fn transform(self, transformer: &mut Phase2Misc) -> (r: Result<PTProcDef, String>)
        requires
            known_list(self.block@),
            scan_list(self.block@).1 is Some || ops_known_obs(self.ret@),
        ensures
            final(transformer)@ == old(transformer)@.union(scan_list(self.block@).0),
            match scan_list(self.block@).1 {
                Some(m) => r matches Err(e) && e@ == m,
                None => r matches Ok(e) && replaced_procdef(self, e),
            },
        decreases self,
    {
        let PTProcDef { name, modifiers, args, captures, block, ret, ret_type } = self;
        let block = match PTStatement::transform_list(block, transformer) {
            Ok(b) => b,
            Err(e) => {
                return Err(e);
            },
        };
        let ret = replace_obs(ret);
        Ok(PTProcDef { name, modifiers, args, captures, block, ret, ret_type })
    }
}

/// Whether the file chain `files` holds `path`.
fn chain_contains(files: &Vec<String>, path: &String) -> (r: bool)
    ensures
        r == files_text(files@).contains(path@),
{
    let mut i: usize = 0;
    while i < files.len()
        invariant
            i <= files@.len(),
            forall|j: int| 0 <= j < i ==> files@[j]@ != path@,
        decreases files@.len() - i,
    {
        if same_text(path, files[i].as_str()) {
            proof {
                assert(files_text(files@)[i as int] == path@);
            }
            return true;
        }
        i += 1;
    }
    proof {
        if files_text(files@).contains(path@) {
            let j = choose|j: int| 0 <= j < files_text(files@).len() && files_text(files@)[j] == path@;
            assert(files@[j]@ == path@);
        }
    }
    false
}

impl PTStatement {
    /// The statement with its operators replaced, as the one statement it
    /// becomes; a let that binds more than one repeater is refused.
    pub fn transform(self, transformer: &mut Phase2Misc) -> (r: Result<Vec<PTStatement>, String>)
        requires
            known_stmt(self),
        ensures
            final(transformer)@ == old(transformer)@.union(scan_stmt(self).0),
            match scan_stmt(self).1 {
                Some(m) => r matches Err(e) && e@ == m,
                None => r matches Ok(v) && v@.len() == 1 && replaced_stmt(self, v@[0]),
            },
        decreases self,
    {
        let ghost me = self;
        proof {
            assert(old(transformer)@.union(Set::empty()) =~= old(transformer)@);
        }
        let PTStatement { value, file, line_no, context } = self;
        let value = match value {
            PTStatementValue::LetStatement(lv, rv) => {
                if count_repeaters(&lv) > 1 {
                    proof {
                        reveal_strlit("only one repeat permitted per statement");
                    }
                    return Err(owned("only one repeat permitted per statement"));
                }
                PTStatementValue::LetStatement(lv, replace_obs(rv))
            },
            PTStatementValue::ModifyStatement(vs, xs) => PTStatementValue::ModifyStatement(vs, replace_items(xs)),
            PTStatementValue::BareCall(c) => PTStatementValue::BareCall(c.replace_operators()),
            PTStatementValue::FuncDef(d) => match d.transform(transformer) {
                Ok(d2) => PTStatementValue::FuncDef(d2),
                Err(e) => {
                    return Err(e);
                },
            },
            PTStatementValue::ProcDef(d) => match d.transform(transformer) {
                Ok(d2) => PTStatementValue::ProcDef(d2),
                Err(e) => {
                    return Err(e);
                },
            },
            other => other,
        };
        let mut out: Vec<PTStatement> = Vec::new();
        out.push(PTStatement { value, file, line_no, context });
        Ok(out)
    }

    /// The statements with their flags recorded and taken out and the
    /// operators of the others replaced; an include of a file by itself, or
    /// a let that binds more than one repeater, stops the pass.
    pub fn transform_list(this: Vec<PTStatement>, transformer: &mut Phase2Misc) -> (r: Result<Vec<PTStatement>, String>)
        requires
            known_list(this@),
        ensures
            final(transformer)@ == old(transformer)@.union(scan_list(this@).0),
            match scan_list(this@).1 {
                Some(m) => r matches Err(e) && e@ == m,
                None => r matches Ok(v) && replaced_list(this@, v@),
            },
        decreases this@,
    {
        let ghost s0 = this@;
        proof {
            assert(old(transformer)@.union(Set::empty()) =~= old(transformer)@);
        }
        if this.len() == 0 {
            return Ok(Vec::new());
        }
        let mut rest = this;
        let first = rest.remove(0);
        proof {
            assert(rest@ =~= s0.subrange(1, s0.len() as int));
        }
        let ghost t0 = transformer@;
        let head: Vec<PTStatement> = match first.value {
            PTStatementValue::Include(path) => {
                if chain_contains(&first.file, &path) {
                    let mut msg = owned("recursive include of ");
                    push_str(&mut msg, path.as_str());
                    let files = first.file.as_slice();
                    proof {
                        reveal_strlit("recursive include of ");
                        assert(files@.map_values(|s: String| s@) =~= files_text(first.file@));
                    }
                    return Err(at(msg.as_str(), Some((files, first.line_no))));
                }
                let mut v: Vec<PTStatement> = Vec::new();
                v.push(PTStatement { value: PTStatementValue::Include(path), file: first.file, line_no: first.line_no, context: first.context });
                proof {
                    assert(v@[0] == s0[0]);
                    assert(replaced_stmt(s0[0], v@[0]));
                }
                v
            },
            PTStatementValue::Flag(f) => {
                transformer.set_flag(f.as_str());
                proof {
                    assert(Set::<Seq<char>>::empty().insert(f@) =~= set![f@]);
                    assert(t0.insert(f@) =~= t0.union(Set::<Seq<char>>::empty().insert(f@)));
                }
                Vec::new()
            },
            other => {
                let stmt = PTStatement { value: other, file: first.file, line_no: first.line_no, context: first.context };
                proof {
                    assert(stmt == s0[0]);
                }
                match stmt.transform(transformer) {
                    Ok(v) => v,
                    Err(e) => {
                        return Err(e);
                    },
                }
            },
        };
        let ghost t1 = transformer@;
        let ghost hv = head@;
        let tail = match PTStatement::transform_list(rest, transformer) {
            Ok(v) => v,
            Err(e) => {
                proof {
                    assert(transformer@ =~= t0.union(scan_list(s0).0));
                }
                return Err(e);
            },
        };
        let ghost tv = tail@;
        proof {
            assert(s0[0].value is Flag ==> hv.len() == 0);
            assert(!(s0[0].value is Flag) ==> hv.len() == 1 && replaced_stmt(s0[0], hv[0]));
            assert(replaced_list(s0.subrange(1, s0.len() as int), tv));
        }
        let mut out = head;
        let mut tail = tail;
        out.append(&mut tail);
        proof {
            assert(transformer@ =~= t0.union(scan_list(s0).0));
            if !(s0[0].value is Flag) {
                assert(out@.subrange(1, out@.len() as int) =~= tv);
            } else {
                assert(out@ =~= tv);
            }
        }
        Ok(out)
    }
}

/// The pass leaves no flag among the statements it puts out.
pub proof fn lemma_no_flags_left(a: Seq<PTStatement>, b: Seq<PTStatement>)
    requires
        replaced_list(a, b),
    ensures
        forall|i: int| 0 <= i < b.len() ==> !(#[trigger] b[i].value is Flag),
    decreases a,
{
    if a.len() > 0 {
        let rest = a.subrange(1, a.len() as int);
        if a[0].value is Flag {
            lemma_no_flags_left(rest, b);
        } else {
            let tail = b.subrange(1, b.len() as int);
            lemma_no_flags_left(rest, tail);
            assert(replaced_stmt(a[0], b[0]));
            match a[0].value {
                PTStatementValue::Include(_) => assert(b[0].value == a[0].value),
                PTStatementValue::Code(_) => assert(b[0].value == a[0].value),
                _ => {},
            }
            assert(!(b[0].value is Flag));
            assert forall|i: int| 0 <= i < b.len() implies !(#[trigger] b[i].value is Flag) by {
                if i > 0 {
                    assert(b[i] == tail[i - 1]);
                }
            }
        }
    }
}

/// A statement as the passes before this one leave it: no include is
/// left, and definitions stand only where `top` allows them.
pub open spec fn settled_stmt(s: PTStatement, top: bool) -> bool
    decreases s,
{
    match s.value {
        PTStatementValue::Include(_) => false,
        PTStatementValue::FuncDef(d) => top && settled_list(d.block@, false),
        PTStatementValue::ProcDef(d) => top && settled_list(d.block@, false),
        _ => true,
    }
}

/// Statements as the passes before this one leave them.
pub open spec fn settled_list(s: Seq<PTStatement>, top: bool) -> bool
    decreases s,
{
    s.len() == 0 || (settled_stmt(s[0], top) && settled_list(s.subrange(1, s.len() as int), top))
}

proof fn lemma_plain_items_all(s: Seq<PTExpression>)
    requires
        plain_items(s),
    ensures
        forall|i: int| 0 <= i < s.len() ==> plain_expr(#[trigger] s[i]),
    decreases s.len(),
{
    if s.len() > 0 {
        let rest = s.subrange(1, s.len() as int);
        lemma_plain_items_all(rest);
        assert forall|i: int| 0 <= i < s.len() implies plain_expr(#[trigger] s[i]) by {
            if i > 0 {
                assert(s[i] == rest[i - 1]);
            }
        }
    }
}

proof fn lemma_replaced_obs_plain(xs: Seq<OrBundle<PTExpression>>, ys: Seq<OrBundle<PTExpression>>)
    requires
        replaced_obs(xs, ys),
    ensures
        plain_rhs(ys),
{
    assert forall|i: int| 0 <= i < ys.len() implies (#[trigger] ys[i] matches OrBundle::Normal(e) ==> plain_expr(e)) by {
        assert(replaced_ob(xs[i], ys[i]));
        match xs[i] {
            OrBundle::Normal(e) => lemma_replaced_plain(e, ys[i]->Normal_0),
            _ => {},
        }
    }
}

proof fn lemma_all_plain_body(s: Seq<PTStatement>)
    requires
        forall|i: int| 0 <= i < s.len() ==> plain_stmt(#[trigger] s[i].value, false),
    ensures
        plain_body(s),
    decreases s.len(),
{
    if s.len() > 0 {
        let rest = s.subrange(1, s.len() as int);
        assert forall|i: int| 0 <= i < rest.len() implies plain_stmt(#[trigger] rest[i].value, false) by {
            assert(rest[i] == s[i + 1]);
        }
        lemma_all_plain_body(rest);
        assert(plain_stmt(s[0].value, false));
    }
}

proof fn lemma_stmt_feeds_builder(a: PTStatement, b: PTStatement, top: bool)
    requires
        replaced_stmt(a, b),
        settled_stmt(a, top),
        !(a.value is Flag),
    ensures
        plain_stmt(b.value, top),
    decreases a,
{
    match a.value {
        PTStatementValue::LetStatement(lv, rv) => {
            let rv2 = b.value->LetStatement_1;
            lemma_replaced_obs_plain(rv@, rv2@);
        },
        PTStatementValue::ModifyStatement(vs, xs) => {
            let xs2 = b.value->ModifyStatement_1;
            lemma_replaced_items_plain(xs@, xs2@);
            lemma_plain_items_all(xs2@);
            let d = dress_exprs(xs2@);
            assert forall|i: int| 0 <= i < d.len() implies (#[trigger] d[i] matches OrBundle::Normal(e) ==> plain_expr(e)) by {
                assert(d[i] == OrBundle::Normal(xs2@[i]));
            }
        },
        PTStatementValue::BareCall(c) => {
            let d = b.value->BareCall_0;
            assert(replaced_call(c, d));
            lemma_replaced_args_plain(c.args@, d.args@);
        },
        PTStatementValue::FuncDef(d) => {
            let e = b.value->FuncDef_0;
            assert(replaced_funcdef(d, e));
            lemma_list_feeds_builder(d.block@, e.block@, false);
            lemma_all_plain_body(e.block@);
            match d.value {
                OrBundle::Normal(x) => lemma_replaced_plain(x, e.value->Normal_0),
                _ => {},
            }
        },
        PTStatementValue::ProcDef(d) => {
            let e = b.value->ProcDef_0;
            assert(replaced_procdef(d, e));
            lemma_list_feeds_builder(d.block@, e.block@, false);
            lemma_all_plain_body(e.block@);
            lemma_replaced_obs_plain(d.ret@, e.ret@);
        },
        _ => {
            assert(b.value == a.value);
        },
    }
}

proof fn lemma_list_feeds_builder(a: Seq<PTStatement>, b: Seq<PTStatement>, top: bool)
    requires
        replaced_list(a, b),
        settled_list(a, top),
    ensures
        forall|i: int| 0 <= i < b.len() ==> plain_stmt(#[trigger] b[i].value, top),
    decreases a,
{
    if a.len() > 0 {
        let rest = a.subrange(1, a.len() as int);
        if a[0].value is Flag {
            lemma_list_feeds_builder(rest, b, top);
        } else {
            let tail = b.subrange(1, b.len() as int);
            lemma_stmt_feeds_builder(a[0], b[0], top);
            lemma_list_feeds_builder(rest, tail, top);
            assert forall|i: int| 0 <= i < b.len() implies plain_stmt(#[trigger] b[i].value, top) by {
                if i > 0 {
                    assert(b[i] == tail[i - 1]);
                }
            }
        }
    }
}

/// What the pass puts out, from statements with no include left and
/// definitions only at the top level, is a program the tree builder takes:
/// no flag and no operator is left in it.
pub proof fn lemma_pass_feeds_builder(a: Seq<PTStatement>, b: Seq<PTStatement>)
    requires
        replaced_list(a, b),
        settled_list(a, true),
    ensures
        forall|i: int| 0 <= i < b.len() ==> plain_stmt(#[trigger] b[i].value, true),
{
    lemma_list_feeds_builder(a, b, true);
}

} // verus!
