//! Helpers of the unbundling pass: sorting the name sets of bundles,
//! checking whether a caller expects one, and finding the repeaters of a
//! call.

use vstd::prelude::*;
use std::collections::HashMap;
use crate::names::{names, distinct, copy_names};
use crate::unbundleaux::{sort_names, sorted_names, BundleNamespace, BundleView, Transits, TransitsBuilder, TransitKey, Position};
use crate::text::{owned, chars_before};
use crate::parsetree::at;
use crate::buildtree::{
    BTDefinition, BTExpression, BTFuncCall, BTFuncProcDefinition, BTLValue, BTProcCall, BTRegisterType, BTStatement,
    BTStatementValue, BuildTree, ExprView, args_view, arg_view, not_function_message,
};
use crate::model::{OrBundle, OrBundleRepeater, TypedArgument, Variable};

verus! {

/// The names of a set in the order of strings, if there is a set.
pub fn sorted(set: Option<&Vec<String>>) -> (r: Option<Vec<String>>)
    requires
        set matches Some(s) ==> distinct(s@),
    ensures
        set is None <==> r is None,
        set matches Some(s) ==> sorted_names(r.unwrap()@) && distinct(r.unwrap()@) && names(r.unwrap()@)
            == names(s@),
{
    match set {
        Some(s) => Some(sort_names(s)),
        None => None,
    }
}

/// Each optional set sorted as by `sorted`.
pub fn all_sorted(list: &[Option<Vec<String>>]) -> (r: Vec<Option<Vec<String>>>)
    requires
        forall|i: int| 0 <= i < list@.len() ==> (#[trigger] list@[i] matches Some(s) ==> distinct(s@)),
    ensures
        r@.len() == list@.len(),
        forall|i: int| 0 <= i < list@.len() ==> {
            &&& (#[trigger] list@[i] is None <==> r@[i] is None)
            &&& list@[i] matches Some(s) ==> sorted_names(r@[i].unwrap()@) && names(r@[i].unwrap()@) == names(s@)
        },
{
    let mut r: Vec<Option<Vec<String>>> = Vec::new();
    let mut i: usize = 0;
    while i < list.len()
        invariant
            i <= list@.len(),
            r@.len() == i,
            forall|j: int| 0 <= j < list@.len() ==> (#[trigger] list@[j] matches Some(s) ==> distinct(s@)),
            forall|j: int| 0 <= j < i ==> {
                &&& (#[trigger] list@[j] is None <==> r@[j] is None)
                &&& list@[j] matches Some(s) ==> sorted_names(r@[j].unwrap()@) && names(r@[j].unwrap()@) == names(s@)
            },
        decreases list@.len() - i,
    {
        let s = sorted(list[i].as_ref());
        r.push(s);
        i += 1;
    }
    r
}

/// Fails when the caller expects a bundle.
pub fn non_bundle(caller_expects: Option<&Vec<String>>) -> (r: Result<(), String>)
    ensures
        caller_expects is None <==> r is Ok,
        r matches Err(e) ==> e@ == "unexpected bundle"@,
{
    if caller_expects.is_some() {
        Err(owned("unexpected bundle"))
    } else {
        Ok(())
    }
}

/// The bundle the caller expects; fails when it expects none.
pub fn bundle(caller_expects: Option<&Vec<String>>) -> (r: Result<&Vec<String>, String>)
    ensures
        match caller_expects {
            Some(x) => r == Ok::<&Vec<String>, String>(x),
            None => r matches Err(e) && e@ == "expected bundle"@,
        },
{
    match caller_expects {
        Some(x) => Ok(x),
        None => Err(owned("expected bundle")),
    }
}

/// The repeaters among the things a call returns into, in order.
pub open spec fn lhs_repeaters(rets: Seq<OrBundleRepeater<BTLValue>>) -> Seq<Seq<char>>
    decreases rets.len(),
{
    if rets.len() == 0 {
        Seq::empty()
    } else {
        lhs_repeaters(rets.drop_last()) + match rets.last() {
            OrBundleRepeater::Repeater(r) => seq![r@],
            _ => Seq::<Seq<char>>::empty(),
        }
    }
}

/// The repeaters among call arguments, in order, looking into the
/// arguments of the functions called in them.
pub open spec fn rhs_repeaters(args: Seq<OrBundleRepeater<ExprView>>) -> Seq<Seq<char>>
    decreases args,
{
    if args.len() == 0 {
        Seq::empty()
    } else {
        rhs_repeaters(args.drop_last()) + match args.last() {
            OrBundleRepeater::Normal(ExprView::Function(_, fargs, _)) => rhs_repeaters(fargs),
            OrBundleRepeater::Repeater(r) => seq![r@],
            _ => Seq::<Seq<char>>::empty(),
        }
    }
}

/// The repeater pair of a call: the one repeater it returns into and the
/// one its arguments hold, or none when neither side has one; a call with
/// a repeater on one side only, or with more than one on a side, or whose
/// repeater result stands beside others, is refused.
pub open spec fn repeater_pair(rets: Option<Seq<OrBundleRepeater<BTLValue>>>, args: Seq<OrBundleRepeater<ExprView>>) -> Result<Option<(Seq<char>, Seq<char>)>, Seq<char>> {
    let lhs: Result<Option<Seq<char>>, Seq<char>> = match rets {
        None => Ok(None),
        Some(x) => {
            let l = lhs_repeaters(x);
            if l.len() > 1 {
                Err("too many repeaters in lvalue"@)
            } else if l.len() == 0 {
                Ok(None)
            } else if x.len() != 1 {
                Err("repeater must be the only result in lvalue"@)
            } else {
                Ok(Some(l[0]))
            }
        },
    };
    match lhs {
        Err(m) => Err(m),
        Ok(lhs) => {
            let rr = rhs_repeaters(args);
            if rr.len() > 1 {
                Err("too many repeaters in rvalue"@)
            } else {
                match (lhs, if rr.len() == 1 { Some(rr[0]) } else { None }) {
                    (Some(a), Some(b)) => Ok(Some((a, b))),
                    (None, None) => Ok(None),
                    _ => Err("must be single repeater on left and right"@),
                }
            }
        },
    }
}

/// The repeaters among the things a call returns into, in order.
pub fn list_lhs_repeaters(rets: &Vec<OrBundleRepeater<BTLValue>>) -> (r: Result<Vec<String>, String>)
    ensures
        r matches Ok(v) && v@.map_values(|s: String| s@) == lhs_repeaters(rets@),
{
    let mut out: Vec<String> = Vec::new();
    let mut i: usize = 0;
    while i < rets.len()
        invariant
            i <= rets@.len(),
            out@.map_values(|s: String| s@) == lhs_repeaters(rets@.take(i as int)),
        decreases rets@.len() - i,
    {
        let ghost before = out@;
        proof {
            assert(rets@.take(i + 1).drop_last() =~= rets@.take(i as int));
            assert(rets@.take(i + 1).last() == rets@[i as int]);
        }
        match &rets[i] {
            OrBundleRepeater::Repeater(r) => {
                out.push(r.clone());
                proof {
                    assert(out@.map_values(|s: String| s@) =~= before.map_values(|s: String| s@) + seq![r@]);
                }
            },
            _ => {
                proof {
                    assert(before.map_values(|s: String| s@) + Seq::<Seq<char>>::empty() =~= before.map_values(|s: String| s@));
                }
            },
        }
        i += 1;
    }
    proof {
        assert(rets@.take(rets@.len() as int) =~= rets@);
    }
    Ok(out)
}

/// The repeaters among call arguments, in order, looking into the
/// arguments of the functions called in them.
pub fn list_rhs_repeaters(args: &Vec<OrBundleRepeater<BTExpression>>) -> (r: Result<Vec<String>, String>)
    ensures
        r matches Ok(v) && v@.map_values(|s: String| s@) == rhs_repeaters(args_view(args@)),
    decreases args@,
{
    let mut out: Vec<String> = Vec::new();
    let mut i: usize = 0;
    while i < args.len()
        invariant
            i <= args@.len(),
            out@.map_values(|s: String| s@) == rhs_repeaters(args_view(args@.take(i as int))),
        decreases args@.len() - i,
    {
        let ghost before = out@;
        let ghost t = args@.take(i + 1);
        proof {
            assert(t.drop_last() =~= args@.take(i as int));
            assert(t.last() == args@[i as int]);
            let v = args_view(t);
            assert(v == args_view(args@.take(i as int)).push(arg_view(args@[i as int])));
            assert(v.drop_last() =~= args_view(args@.take(i as int)));
            assert(v.last() == arg_view(args@[i as int]));
            assert(rhs_repeaters(v) == rhs_repeaters(args_view(args@.take(i as int))) + match arg_view(args@[i as int]) {
                OrBundleRepeater::Normal(ExprView::Function(_, fargs, _)) => rhs_repeaters(fargs),
                OrBundleRepeater::Repeater(r) => seq![r@],
                _ => Seq::<Seq<char>>::empty(),
            });
        }
        match &args[i] {
            OrBundleRepeater::Normal(BTExpression::Function(f)) => {
                proof {
                    assert(decreases_to!(args@ => args@[i as int]));
                }
                let inner = match list_rhs_repeaters(&f.args) {
                    Ok(v) => v,
                    Err(e) => {
                        return Err(e);
                    },
                };
                let ghost iv = inner@;
                let mut inner = inner;
                out.append(&mut inner);
                proof {
                    assert(out@.map_values(|s: String| s@) =~= before.map_values(|s: String| s@) + iv.map_values(|s: String| s@));
                }
            },
            OrBundleRepeater::Repeater(r) => {
                out.push(r.clone());
                proof {
                    assert(out@.map_values(|s: String| s@) =~= before.map_values(|s: String| s@) + seq![r@]);
                }
            },
            _ => {
                proof {
                    assert(before.map_values(|s: String| s@) + Seq::<Seq<char>>::empty() =~= before.map_values(|s: String| s@));
                }
            },
        }
        i += 1;
    }
    proof {
        assert(args@.take(args@.len() as int) =~= args@);
    }
    Ok(out)
}

/// The repeater pair of a call, as `repeater_pair` says.
pub fn find_repeater_arguments(call: &BTProcCall<OrBundleRepeater<BTLValue>>) -> (r: Result<Option<(String, String)>, String>)
    ensures
        match repeater_pair(
            match call.rets {
                Some(x) => Some(x@),
                None => None,
            },
            args_view(call.args@),
        ) {
            Ok(None) => r matches Ok(None),
            Ok(Some((a, b))) => r matches Ok(Some((x, y))) && x@ == a && y@ == b,
            Err(m) => r matches Err(e) && e@ == m,
        },
{
    proof {
        reveal_strlit("too many repeaters in lvalue");
        reveal_strlit("repeater must be the only result in lvalue");
        reveal_strlit("too many repeaters in rvalue");
        reveal_strlit("must be single repeater on left and right");
    }
    let lhs: Option<String> = match &call.rets {
        Some(x) => {
            let l = match list_lhs_repeaters(x) {
                Ok(v) => v,
                Err(e) => {
                    return Err(e);
                },
            };
            if l.len() > 1 {
                return Err(owned("too many repeaters in lvalue"));
            } else if l.len() == 0 {
                None
            } else if x.len() != 1 {
                return Err(owned("repeater must be the only result in lvalue"));
            } else {
                Some(l[0].clone())
            }
        },
        None => None,
    };
    let rr = match list_rhs_repeaters(&call.args) {
        Ok(v) => v,
        Err(e) => {
            return Err(e);
        },
    };
    if rr.len() > 1 {
        return Err(owned("too many repeaters in rvalue"));
    }
    let rhs: Option<String> = if rr.len() == 1 { Some(rr[0].clone()) } else { None };
    match (lhs, rhs) {
        (Some(a), Some(b)) => Ok(Some((a, b))),
        (None, None) => Ok(None),
        _ => Err(owned("must be single repeater on left and right")),
    }
}


/// The levels of a bundle namespace, bottom first.
pub type NsView = Seq<Map<Seq<char>, BundleView>>;

/// The names each bundle register is expected to carry.
pub type RegView = Map<usize, Set<Seq<char>>>;

/// Whether the top level of `ns` has a bundle for `p`.
pub open spec fn top_has(ns: NsView, p: Seq<char>) -> bool {
    ns.len() > 0 && ns.last().contains_key(p)
}

/// The names used by the bundle `p` of the top level; none where there is
/// no such bundle.
pub open spec fn used_in(ns: NsView, p: Seq<char>) -> Set<Seq<char>> {
    if top_has(ns, p) { ns.last()[p].1 } else { Set::empty() }
}

/// `ns` with the bundle `p` of the top level emptied.
pub open spec fn ns_clear(ns: NsView, p: Seq<char>) -> NsView {
    if top_has(ns, p) {
        ns.drop_last().push(ns.last().insert(p, (ns.last()[p].0, Set::empty())))
    } else {
        ns
    }
}

/// `ns` with `name` taken out of the bundle `p` of the top level.
pub open spec fn ns_remove(ns: NsView, p: Seq<char>, name: Seq<char>) -> NsView {
    if top_has(ns, p) {
        ns.drop_last().push(ns.last().insert(p, (ns.last()[p].0, ns.last()[p].1.remove(name))))
    } else {
        ns
    }
}

/// `ns` with the names of the bundle `from` added to the bundle `to` of
/// the top level, which is made if missing.
pub open spec fn ns_merge(ns: NsView, to: Seq<char>, from: Seq<char>) -> NsView {
    if ns.len() == 0 {
        ns
    } else {
        let top = ns.last();
        let start: BundleView = if top.contains_key(to) { top[to] } else { (to, Set::empty()) };
        ns.drop_last().push(top.insert(to, (start.0, start.1.union(used_in(ns, from)))))
    }
}

/// The namespace after a declaration: a prefixed variable leaves its
/// bundle, and a declared bundle or repeater starts empty.
pub open spec fn declare_effect(ns: NsView, var: OrBundleRepeater<Variable>) -> NsView {
    match var {
        OrBundleRepeater::Normal(v) => match v.prefix {
            Some(p) => ns_remove(ns, p@, v.name@),
            None => ns,
        },
        OrBundleRepeater::Bundle(p) => ns_clear(ns, p@),
        OrBundleRepeater::Repeater(p) => ns_clear(ns, p@),
    }
}

/// The results of a call as a sequence (none for a call without them).
pub open spec fn rets_of(stmt: BTProcCall<OrBundleRepeater<BTLValue>>) -> Seq<OrBundleRepeater<BTLValue>> {
    match stmt.rets {
        Some(v) => v@,
        None => Seq::empty(),
    }
}

/// The effect of assigning to one result: a prefixed variable leaves its
/// bundle, a bundle register forgets its names, and a bundle or repeater
/// is emptied.
pub open spec fn clear_ret(s: (NsView, RegView), ret: OrBundleRepeater<BTLValue>) -> (NsView, RegView) {
    match ret {
        OrBundleRepeater::Normal(BTLValue::Variable(v)) => match v.prefix {
            Some(p) => (ns_remove(s.0, p@, v.name@), s.1),
            None => s,
        },
        OrBundleRepeater::Normal(BTLValue::Register(r, BTRegisterType::Bundle)) => (s.0, s.1.remove(r)),
        OrBundleRepeater::Normal(BTLValue::Register(_, BTRegisterType::Normal)) => s,
        OrBundleRepeater::Bundle(p) => (ns_clear(s.0, p@), s.1),
        OrBundleRepeater::Repeater(p) => (ns_clear(s.0, p@), s.1),
    }
}

/// The effect of assigning to each of `rets`, in order.
pub open spec fn clear_rets(s: (NsView, RegView), rets: Seq<OrBundleRepeater<BTLValue>>) -> (NsView, RegView)
    decreases rets.len(),
{
    if rets.len() == 0 {
        s
    } else {
        clear_ret(clear_rets(s, rets.drop_last()), rets.last())
    }
}

/// The names a caller expects back through one result: those of a bundle
/// register or of a bundle; nothing for another result.
pub open spec fn ret_bundle(ns: NsView, regs: RegView, ret: OrBundleRepeater<BTLValue>) -> Option<Set<Seq<char>>> {
    match ret {
        OrBundleRepeater::Normal(BTLValue::Register(r, BTRegisterType::Bundle)) => Some(
            if regs.contains_key(r) { regs[r] } else { Set::empty() },
        ),
        OrBundleRepeater::Normal(_) => None,
        OrBundleRepeater::Bundle(p) => Some(used_in(ns, p@)),
        OrBundleRepeater::Repeater(_) => None,
    }
}

/// The names a definition expects through one argument: those of its
/// bundle for a bundle argument.
pub open spec fn arg_bundle(ns: NsView, arg: OrBundle<TypedArgument>) -> Option<Set<Seq<char>>> {
    match arg {
        OrBundle::Normal(_) => None,
        OrBundle::Bundle(p) => Some(used_in(ns, p@)),
    }
}

/// A list of names as a set, if there is one.
pub open spec fn opt_names(o: Option<Vec<String>>) -> Option<Set<Seq<char>>> {
    match o {
        Some(v) => Some(names(v@)),
        None => None,
    }
}

/// The state of the unbundling pass, which walks a program backwards: the
/// bundles of each scope with the names found used, the names expected of
/// each bundle register, and the transits recorded so far.
pub struct BuildUnbundle {
    namespace: BundleNamespace,
    register_bundles: HashMap<usize, Vec<String>>,
    transits: TransitsBuilder,
}

impl BuildUnbundle {
    /// The bundle namespace.
    pub closed spec fn ns(&self) -> NsView {
        self.namespace.view()
    }

    /// The names expected of each bundle register.
    pub closed spec fn regs(&self) -> RegView {
        self.register_bundles@.map_values(|v: Vec<String>| names(v@))
    }

    /// The transits recorded.
    pub closed spec fn transits(&self) -> Map<TransitKey, Set<Seq<char>>> {
        self.transits.view()
    }

    /// The current call stack.
    pub closed spec fn stack(&self) -> Seq<usize> {
        self.transits.stack()
    }

    /// The internal invariant.
    pub closed spec fn wf(&self) -> bool {
        &&& self.namespace.wf()
        &&& self.transits.wf()
        &&& forall|k: usize| #[trigger] self.register_bundles@.contains_key(k) ==> distinct(self.register_bundles@[k]@)
    }

    /// One empty scope, no registers, nothing recorded.
    pub fn new() -> (r: BuildUnbundle)
        ensures
            r.wf(),
            r.ns() == seq![Map::<Seq<char>, BundleView>::empty()],
            r.regs() == RegView::empty(),
            r.transits() == Map::<TransitKey, Set<Seq<char>>>::empty(),
            r.stack() == Seq::<usize>::empty(),
    {
        let r = BuildUnbundle {
            namespace: BundleNamespace::new(),
            register_bundles: HashMap::new(),
            transits: TransitsBuilder::new(),
        };
        proof {
            assert(r.regs() =~= RegView::empty());
        }
        r
    }

    /// A declaration met on the way back: before it, the declared names
    /// were not in use.
    pub fn declare(&mut self, var: &OrBundleRepeater<Variable>) -> (r: Result<(), String>)
        requires
            old(self).wf(),
        ensures
            final(self).wf(),
            r is Ok,
            final(self).ns() == declare_effect(old(self).ns(), *var),
            final(self).regs() == old(self).regs(),
            final(self).transits() == old(self).transits(),
            final(self).stack() == old(self).stack(),
    {
        match var {
            OrBundleRepeater::Normal(v) => {
                if let Some(prefix) = &v.prefix {
                    self.namespace.remove(prefix.as_str(), v.name.as_str());
                }
            },
            OrBundleRepeater::Bundle(prefix) => {
                self.namespace.clear(prefix.as_str());
            },
            OrBundleRepeater::Repeater(prefix) => {
                self.namespace.clear(prefix.as_str());
            },
        }
        Ok(())
    }

    /// The results of a call, met on the way back: before the call, what
    /// they are assigned was not in use.
    pub fn clear_lvalue_bundles(&mut self, stmt: &BTProcCall<OrBundleRepeater<BTLValue>>) -> (r: Result<(), String>)
        requires
            old(self).wf(),
        ensures
            final(self).wf(),
            r is Ok,
            (final(self).ns(), final(self).regs()) == clear_rets((old(self).ns(), old(self).regs()), rets_of(*stmt)),
            final(self).transits() == old(self).transits(),
            final(self).stack() == old(self).stack(),
    {
        let ghost start = (self.ns(), self.regs());
        let ghost rets = rets_of(*stmt);
        if let Some(list) = &stmt.rets {
            let mut i: usize = 0;
            while i < list.len()
                invariant
                    self.wf(),
                    rets == list@,
                    i <= list@.len(),
                    (self.ns(), self.regs()) == clear_rets(start, rets.take(i as int)),
                    self.transits() == old(self).transits(),
                    self.stack() == old(self).stack(),
                decreases list@.len() - i,
            {
                let ghost before = (self.ns(), self.regs());
                let ghost old_map = self.register_bundles@;
                match &list[i] {
                    OrBundleRepeater::Normal(lvalue) => {
                        match lvalue {
                            BTLValue::Variable(v) => {
                                if let Some(prefix) = &v.prefix {
                                    self.namespace.remove(prefix.as_str(), v.name.as_str());
                                }
                            },
                            BTLValue::Register(_, BTRegisterType::Normal) => {},
                            BTLValue::Register(reg, BTRegisterType::Bundle) => {
                                self.register_bundles.remove(reg);
                                proof {
                                    assert(self.regs() =~= before.1.remove(*reg));
                                }
                            },
                        }
                    },
                    OrBundleRepeater::Bundle(prefix) => {
                        self.namespace.clear(prefix.as_str());
                    },
                    OrBundleRepeater::Repeater(prefix) => {
                        self.namespace.clear(prefix.as_str());
                    },
                }
                proof {
                    assert(rets.take(i + 1).drop_last() =~= rets.take(i as int));
                    assert(rets.take(i + 1).last() == list@[i as int]);
                    assert((self.ns(), self.regs()) == clear_ret(before, list@[i as int]));
                }
                i += 1;
            }
            proof {
                assert(rets.take(list@.len() as int) =~= rets);
            }
        }
        Ok(())
    }

    /// The names the caller expects back through each result of `stmt`.
    pub fn return_bundles(&self, stmt: &BTProcCall<OrBundleRepeater<BTLValue>>) -> (r: Vec<Option<Vec<String>>>)
        requires
            self.wf(),
        ensures
            r@.len() == rets_of(*stmt).len(),
            forall|i: int| 0 <= i < r@.len() ==> {
                &&& opt_names(#[trigger] r@[i]) == ret_bundle(self.ns(), self.regs(), rets_of(*stmt)[i])
                &&& r@[i] matches Some(v) ==> distinct(v@)
            },
    {
        let mut out: Vec<Option<Vec<String>>> = Vec::new();
        if let Some(list) = &stmt.rets {
            let mut i: usize = 0;
            while i < list.len()
                invariant
                    self.wf(),
                    rets_of(*stmt) == list@,
                    i <= list@.len(),
                    out@.len() == i,
                    forall|j: int| 0 <= j < i ==> {
                        &&& opt_names(#[trigger] out@[j]) == ret_bundle(self.ns(), self.regs(), list@[j])
                        &&& out@[j] matches Some(v) ==> distinct(v@)
                    },
                decreases list@.len() - i,
            {
                let item: Option<Vec<String>> = match &list[i] {
                    OrBundleRepeater::Normal(value) => match value {
                        BTLValue::Register(reg, BTRegisterType::Bundle) => {
                            match self.register_bundles.get(reg) {
                                Some(v) => {
                                    proof {
                                        assert(self.register_bundles@.contains_key(*reg));
                                    }
                                    Some(copy_names(v))
                                },
                                None => {
                                    let e: Vec<String> = Vec::new();
                                    proof {
                                        assert(names(e@) =~= Set::<Seq<char>>::empty());
                                    }
                                    Some(e)
                                },
                            }
                        },
                        _ => None,
                    },
                    OrBundleRepeater::Bundle(prefix) => {
                        match self.namespace.get(prefix.as_str()) {
                            Some(b) => Some(copy_names(b.get_used())),
                            None => {
                                let e: Vec<String> = Vec::new();
                                proof {
                                    assert(names(e@) =~= Set::<Seq<char>>::empty());
                                }
                                Some(e)
                            },
                        }
                    },
                    OrBundleRepeater::Repeater(_) => None,
                };
                out.push(item);
                i += 1;
            }
        }
        out
    }

    /// The names the definition expects through each of its arguments `args`.
    pub fn arg_bundles(&self, args: &[OrBundle<TypedArgument>]) -> (r: Result<Vec<Option<Vec<String>>>, String>)
        requires
            self.wf(),
        ensures
            r matches Ok(v) && v@.len() == args@.len() && forall|i: int| 0 <= i < v@.len() ==> {
                &&& opt_names(#[trigger] v@[i]) == arg_bundle(self.ns(), args@[i])
                &&& v@[i] matches Some(x) ==> distinct(x@)
            },
    {
        let mut out: Vec<Option<Vec<String>>> = Vec::new();
        let mut i: usize = 0;
        while i < args.len()
            invariant
                self.wf(),
                i <= args@.len(),
                out@.len() == i,
                forall|j: int| 0 <= j < i ==> {
                    &&& opt_names(#[trigger] out@[j]) == arg_bundle(self.ns(), args@[j])
                    &&& out@[j] matches Some(x) ==> distinct(x@)
                },
            decreases args@.len() - i,
        {
            let item: Option<Vec<String>> = match &args[i] {
                OrBundle::Normal(_) => None,
                OrBundle::Bundle(prefix) => {
                    match self.namespace.get(prefix.as_str()) {
                        Some(b) => Some(copy_names(b.get_used())),
                        None => {
                            let e: Vec<String> = Vec::new();
                            proof {
                                assert(names(e@) =~= Set::<Seq<char>>::empty());
                            }
                            Some(e)
                        },
                    }
                },
            };
            out.push(item);
            i += 1;
        }
        Ok(out)
    }

    /// The transits recorded, each list of names sorted.
    pub fn finish(self) -> (r: Transits)
        requires
            self.wf(),
        ensures
            r.wf(),
            r.view().dom() == self.transits().dom(),
            forall|k: TransitKey| #[trigger] r.view().contains_key(k) ==> {
                &&& r.view()[k].to_set() == self.transits()[k]
                &&& forall|i: int, j: int| 0 <= i < j < r.view()[k].len() ==> chars_before(
                    #[trigger] r.view()[k][i],
                    #[trigger] r.view()[k][j],
                )
            },
    {
        self.transits.build()
    }

    /// A repeater statement, met on the way back: the names used through
    /// the repeater on the left are recorded as its transit, inside the
    /// call, and become used by the repeater on the right; the left one is
    /// then emptied. A call without a repeater pair changes nothing, and
    /// a malformed one is refused.
    pub fn check_for_repeater(&mut self, stmt: &BTProcCall<OrBundleRepeater<BTLValue>>) -> (r: Result<(), String>)
        requires
            old(self).wf(),
        ensures
            final(self).wf(),
            final(self).regs() == old(self).regs(),
            final(self).stack() == old(self).stack(),
            match repeater_pair(
                match stmt.rets {
                    Some(x) => Some(x@),
                    None => None,
                },
                args_view(stmt.args@),
            ) {
                Ok(None) => r is Ok && final(self).ns() == old(self).ns() && final(self).transits() == old(self).transits(),
                Ok(Some((left, right))) => {
                    &&& r is Ok
                    &&& final(self).transits() == old(self).transits().insert(
                        (old(self).stack().push(stmt.call_index), Position::Repeater),
                        used_in(old(self).ns(), left),
                    )
                    &&& final(self).ns() == ns_clear(ns_merge(old(self).ns(), right, left), left)
                },
                Err(m) => r matches Err(e) && e@ == m && final(self).ns() == old(self).ns()
                    && final(self).transits() == old(self).transits(),
            },
    {
        let pair = match find_repeater_arguments(stmt) {
            Ok(p) => p,
            Err(e) => {
                return Err(e);
            },
        };
        if let Some((left, right)) = pair {
            self.transits.push(stmt.call_index);
            let copied: Vec<String> = match self.namespace.get(left.as_str()) {
                Some(b) => copy_names(b.get_used()),
                None => {
                    let e: Vec<String> = Vec::new();
                    proof {
                        assert(names(e@) =~= Set::<Seq<char>>::empty());
                    }
                    e
                },
            };
            self.transits.add(Position::Repeater, copied);
            self.transits.pop();
            proof {
                assert(self.stack() =~= old(self).stack());
            }
            self.namespace.merge(right.as_str(), left.as_str());
            self.namespace.clear(left.as_str());
        }
        Ok(())
    }
}
} // verus!

verus! {

/// The state of the pass seen as values: namespace, register names,
/// transits recorded and call stack.
pub type UState = (NsView, RegView, Map<TransitKey, Set<Seq<char>>>, Seq<usize>);

/// The outcome of a step: the new state, or a message and whether it
/// already names the statement where it arose.
pub type UResult = Result<UState, (Seq<char>, bool)>;

/// `ns` with `name` added to the bundle `p` of the top level, which is
/// made (called `name`) if missing.
pub open spec fn ns_add(ns: NsView, p: Seq<char>, name: Seq<char>) -> NsView {
    if ns.len() == 0 {
        ns
    } else {
        let top = ns.last();
        let start: BundleView = if top.contains_key(p) { top[p] } else { (name, Set::empty()) };
        ns.drop_last().push(top.insert(p, (start.0, start.1.insert(name))))
    }
}

/// `ns` with the names `from` added to the bundle `to` of the top level,
/// which is made if missing.
pub open spec fn ns_add_all(ns: NsView, to: Seq<char>, from: Set<Seq<char>>) -> NsView {
    if ns.len() == 0 {
        ns
    } else {
        let top = ns.last();
        let start: BundleView = if top.contains_key(to) { top[to] } else { (to, Set::empty()) };
        ns.drop_last().push(top.insert(to, (start.0, start.1.union(from))))
    }
}

/// `s` without its last element, if any.
pub open spec fn pop_last<A>(s: Seq<A>) -> Seq<A> {
    if s.len() == 0 { s } else { s.drop_last() }
}

/// `st` with `names` recorded for the current call stack at `pos`.
pub open spec fn u_record(st: UState, pos: Position, names: Set<Seq<char>>) -> UState {
    (st.0, st.1, st.2.insert((st.3, pos), names), st.3)
}

/// `st` inside a definition entered by call `call`: a new scope, and the
/// call on the stack.
pub open spec fn u_enter(st: UState, call: usize) -> UState {
    (st.0.push(Map::empty()), st.1, st.2, st.3.push(call))
}

/// Each optional list of names as an optional set.
pub open spec fn opt_names_seq(v: Seq<Option<Vec<String>>>) -> Seq<Option<Set<Seq<char>>>> {
    v.map_values(|o: Option<Vec<String>>| opt_names(o))
}

/// A list of names as an optional set.
pub open spec fn opt_ref_names(o: Option<&Vec<String>>) -> Option<Set<Seq<char>>> {
    match o {
        Some(v) => Some(names(v@)),
        None => None,
    }
}

/// The message for a bundle where none was expected.
pub open spec fn unexpected_bundle() -> Seq<char> {
    "unexpected bundle"@
}

/// The message for a missing bundle.
pub open spec fn expected_bundle() -> Seq<char> {
    "expected bundle"@
}

/// The message for a definition entered again within itself, where the
/// walk would never end.
pub open spec fn recursive_definition() -> Seq<char> {
    "recursive definition"@
}

/// The message for a call of a definition the tree does not hold.
pub open spec fn unknown_definition() -> Seq<char> {
    "unknown definition"@
}

/// The message for a function without a result expression.
pub open spec fn no_result() -> Seq<char> {
    "definition without a result"@
}

/// The message for an assignment without a value.
pub open spec fn no_value() -> Seq<char> {
    "assignment without a value"@
}

/// The function definition `index`, or the message for it.
pub open spec fn sp_get_function(tree: BuildTree, index: usize) -> Result<BTFuncProcDefinition, Seq<char>> {
    if index >= tree.definitions@.len() {
        Err(unknown_definition())
    } else {
        match tree.definitions@[index as int] {
            BTDefinition::Func(d) => Ok(d),
            _ => Err(not_function_message()),
        }
    }
}

/// Whether an expression gives a bundle: a bundle register does, and a
/// function call does when the result of the function does. `fuel`
/// bounds the definitions entered.
pub open spec fn sp_returns_bundle(tree: BuildTree, fuel: nat, e: BTExpression) -> Result<bool, Seq<char>>
    decreases fuel,
{
    match e {
        BTExpression::RegisterValue(_, BTRegisterType::Bundle) => Ok(true),
        BTExpression::Function(func) => match sp_get_function(tree, func.func_index) {
            Err(m) => Err(m),
            Ok(d) => if fuel == 0 {
                Err(recursive_definition())
            } else if d.ret@.len() == 0 {
                Err(no_result())
            } else {
                match d.ret@[0] {
                    OrBundle::Normal(x) => sp_returns_bundle(tree, (fuel - 1) as nat, x),
                    OrBundle::Bundle(_) => Ok(true),
                }
            },
        },
        _ => Ok(false),
    }
}

/// An expression met on the way back, given what the consumer of its value
/// expects: a prefixed variable becomes used in its bundle, a bundle
/// register takes the expected names, and a call is walked into.
pub open spec fn sp_expr(tree: BuildTree, fuel: nat, st: UState, e: BTExpression, expects: Option<Set<Seq<char>>>) -> UResult
    decreases fuel, 1nat, e, 0nat,
{
    match e {
        BTExpression::Constant(_) => if expects is Some { Err((unexpected_bundle(), false)) } else { Ok(st) },
        BTExpression::Variable(v) => if expects is Some {
            Err((unexpected_bundle(), false))
        } else {
            match v.prefix {
                Some(p) => Ok((ns_add(st.0, p@, v.name@), st.1, st.2, st.3)),
                None => Ok(st),
            }
        },
        BTExpression::RegisterValue(_, BTRegisterType::Normal) => if expects is Some {
            Err((unexpected_bundle(), false))
        } else {
            Ok(st)
        },
        BTExpression::RegisterValue(r, BTRegisterType::Bundle) => match expects {
            Some(x) => Ok((st.0, st.1.insert(r, x), st.2, st.3)),
            None => Err((expected_bundle(), false)),
        },
        BTExpression::Function(func) => sp_function(tree, fuel, st, func, expects),
    }
}

/// A bundle passed where `expects` is expected: it uses those names.
pub open spec fn sp_bundle_expr(st: UState, p: Seq<char>, expects: Option<Set<Seq<char>>>) -> UResult {
    match expects {
        None => Err((unexpected_bundle(), false)),
        Some(x) => Ok((ns_add_all(st.0, p, x), st.1, st.2, st.3)),
    }
}

/// A function call met on the way back: in its own scope, its result
/// expression (recording the return transit when it gives a bundle) and
/// its statements, last first; then, back in the caller's scope, its
/// arguments against the bundles its definition takes.
pub open spec fn sp_function(tree: BuildTree, fuel: nat, st: UState, func: BTFuncCall, expects: Option<Set<Seq<char>>>) -> UResult
    decreases fuel, 1nat, func, 0nat,
{
    let st1 = u_enter(st, func.call_index);
    match sp_get_function(tree, func.func_index) {
        Err(m) => Err((m, false)),
        Ok(d) => if fuel == 0 {
            Err((recursive_definition(), false))
        } else if d.ret@.len() == 0 {
            Err((no_result(), false))
        } else {
            let inner = (fuel - 1) as nat;
            let r1: UResult = match d.ret@[0] {
                OrBundle::Normal(x) => match sp_returns_bundle(tree, inner, x) {
                    Err(m) => Err((m, false)),
                    Ok(true) => match expects {
                        None => Err((expected_bundle(), false)),
                        Some(b) => match sp_expr(tree, inner, st1, x, Some(b)) {
                            Ok(s2) => Ok(u_record(s2, Position::Return(0), b)),
                            Err(e) => Err(e),
                        },
                    },
                    Ok(false) => sp_expr(tree, inner, st1, x, None),
                },
                OrBundle::Bundle(p) => match expects {
                    None => Err((expected_bundle(), false)),
                    Some(b) => match sp_bundle_expr(st1, p@, Some(b)) {
                        Ok(s2) => Ok(u_record(s2, Position::Return(0), b)),
                        Err(e) => Err(e),
                    },
                },
            };
            match r1 {
                Err(e) => Err(e),
                Ok(s2) => match sp_stmts(tree, inner, s2, d.block@, d.block@.len()) {
                    Err(e) => Err(e),
                    Ok(s3) => {
                        let expected = d.args@.map_values(|a: OrBundle<TypedArgument>| arg_bundle(s3.0, a));
                        let s4 = (pop_last(s3.0), s3.1, s3.2, s3.3);
                        match sp_args(tree, fuel, s4, expected, func.args@, 0) {
                            Err(e) => Err(e),
                            Ok(s5) => Ok((s5.0, s5.1, s5.2, pop_last(s5.3))),
                        }
                    },
                },
            }
        },
    }
}

/// The arguments from `i` on, each against the bundle expected of it: an
/// expected bundle is recorded as the argument's transit, and the
/// argument's expression is walked; repeaters are passed over.
pub open spec fn sp_args(
    tree: BuildTree,
    fuel: nat,
    st: UState,
    expected: Seq<Option<Set<Seq<char>>>>,
    args: Seq<OrBundleRepeater<BTExpression>>,
    i: nat,
) -> UResult
    decreases fuel, 1nat, args, args.len() - i,
{
    if i >= args.len() || i >= expected.len() {
        Ok(st)
    } else {
        let st1 = match expected[i as int] {
            Some(x) => u_record(st, Position::Arg(i as usize), x),
            None => st,
        };
        let r: UResult = match args[i as int] {
            OrBundleRepeater::Repeater(_) => Ok(st),
            OrBundleRepeater::Normal(e) => sp_expr(tree, fuel, st1, e, expected[i as int]),
            OrBundleRepeater::Bundle(p) => sp_bundle_expr(st1, p@, expected[i as int]),
        };
        match r {
            Err(e) => Err(e),
            Ok(s) => sp_args(tree, fuel, s, expected, args, i + 1),
        }
    }
}

/// What the caller expects back through result `i`: nothing past its
/// results.
pub open spec fn caller_bundle_at(crb: Seq<Option<Set<Seq<char>>>>, i: nat) -> Option<Option<Set<Seq<char>>>> {
    if i < crb.len() { Some(crb[i as int]) } else { None }
}

/// The names expected back through a result that gives a bundle, or the
/// message when the caller takes a plain value there.
pub open spec fn ret_expects(cb: Option<Option<Set<Seq<char>>>>) -> Result<Set<Seq<char>>, Seq<char>> {
    match cb {
        Some(Some(x)) => Ok(x),
        Some(None) => Err("return argument expected to be bundle"@),
        None => Ok(Set::empty()),
    }
}

/// Result expression `i`, a plain expression `e`, against the caller's
/// expectation.
pub open spec fn sp_ret_normal(
    tree: BuildTree,
    fuel: nat,
    st: UState,
    e: BTExpression,
    i: nat,
    crb: Seq<Option<Set<Seq<char>>>>,
) -> UResult
    decreases fuel, 1nat, e, 1nat,
{
    let cb = caller_bundle_at(crb, i);
    match sp_returns_bundle(tree, fuel, e) {
        Err(m) => Err((m, false)),
        Ok(true) => match ret_expects(cb) {
            Err(m) => Err((m, false)),
            Ok(x) => sp_expr(tree, fuel, u_record(st, Position::Return(i as usize), x), e, Some(x)),
        },
        Ok(false) => if cb matches Some(Some(_)) {
            Err(("return argument expected to be non-bundle"@, false))
        } else {
            sp_expr(tree, fuel, st, e, None)
        },
    }
}

/// Result `i`, a bundle `p`, against the caller's expectation.
pub open spec fn sp_ret_bundle(st: UState, p: Seq<char>, i: nat, crb: Seq<Option<Set<Seq<char>>>>) -> UResult {
    match ret_expects(caller_bundle_at(crb, i)) {
        Err(m) => Err((m, false)),
        Ok(x) => sp_bundle_expr(u_record(st, Position::Return(i as usize), x), p, Some(x)),
    }
}

/// A caller with no result at position `i` discards what the callee gives
/// back there; when that is a bundle, it is an empty, anonymous one. The
/// walk goes on: it records the transit (call stack, `Return(i)`) with no
/// names, and a plain expression giving a bundle is walked expecting no
/// names, while a bundle result is left as it was.
pub proof fn discarded_bundle_result_is_empty(
    tree: BuildTree,
    fuel: nat,
    st: UState,
    e: BTExpression,
    p: Seq<char>,
    i: nat,
    crb: Seq<Option<Set<Seq<char>>>>,
)
    requires
        i >= crb.len(),
    ensures
        sp_ret_bundle(st, p, i, crb) == Ok::<UState, (Seq<char>, bool)>((
            ns_add_all(st.0, p, Set::empty()),
            st.1,
            st.2.insert((st.3, Position::Return(i as usize)), Set::empty()),
            st.3,
        )),
        sp_returns_bundle(tree, fuel, e) == Ok::<bool, Seq<char>>(true) ==> sp_ret_normal(tree, fuel, st, e, i, crb)
            == sp_expr(
            tree,
            fuel,
            (st.0, st.1, st.2.insert((st.3, Position::Return(i as usize)), Set::empty()), st.3),
            e,
            Some(Set::empty()),
        ),
{
}

/// A bundle result at a position where the caller takes a bundle gets the
/// caller's names: the transit (call stack, `Return(i)`) records them and
/// the callee's bundle becomes using them; where the caller takes a plain
/// value there, the bundle result is refused.
pub proof fn returned_bundle_takes_caller_names(st: UState, p: Seq<char>, i: nat, crb: Seq<Option<Set<Seq<char>>>>)
    requires
        i < crb.len(),
    ensures
        crb[i as int] matches Some(x) ==> sp_ret_bundle(st, p, i, crb) == Ok::<UState, (Seq<char>, bool)>((
            ns_add_all(st.0, p, x),
            st.1,
            st.2.insert((st.3, Position::Return(i as usize)), x),
            st.3,
        )),
        crb[i as int] is None ==> sp_ret_bundle(st, p, i, crb) is Err,
{
}

/// The result expressions from `i` on, against the caller's expectations.
pub open spec fn sp_return_exprs(
    tree: BuildTree,
    fuel: nat,
    st: UState,
    exprs: Seq<OrBundle<BTExpression>>,
    crb: Seq<Option<Set<Seq<char>>>>,
    i: nat,
) -> UResult
    decreases fuel, 1nat, exprs, exprs.len() - i,
{
    if i >= exprs.len() {
        Ok(st)
    } else {
        let r: UResult = match exprs[i as int] {
            OrBundle::Normal(e) => sp_ret_normal(tree, fuel, st, e, i, crb),
            OrBundle::Bundle(p) => sp_ret_bundle(st, p@, i, crb),
        };
        match r {
            Err(e) => Err(e),
            Ok(s) => sp_return_exprs(tree, fuel, s, exprs, crb, i + 1),
        }
    }
}

/// The statements `stmts[..k]`, last first.
pub open spec fn sp_stmts(tree: BuildTree, fuel: nat, st: UState, stmts: Seq<BTStatement>, k: nat) -> UResult
    decreases fuel, 4nat, stmts, k,
{
    if k == 0 || k > stmts.len() {
        Ok(st)
    } else {
        match sp_statement(tree, fuel, st, stmts[k - 1]) {
            Err(e) => Err(e),
            Ok(s) => sp_stmts(tree, fuel, s, stmts, (k - 1) as nat),
        }
    }
}

/// A statement: a declaration, or a call walked as `sp_procedure`; a
/// message arising within it is located at it.
pub open spec fn sp_statement(tree: BuildTree, fuel: nat, st: UState, stmt: BTStatement) -> UResult
    decreases fuel, 3nat, stmt, 0nat,
{
    let r: UResult = match stmt.value {
        BTStatementValue::Declare(d) => Ok((declare_effect(st.0, d), st.1, st.2, st.3)),
        BTStatementValue::BundledStatement(s) => sp_procedure(tree, fuel, st, s),
        _ => Ok(st),
    };
    match r {
        Err((m, false)) => Err((
            crate::parsetree::at_text(m, Some((stmt.file@.map_values(|s: String| s@), stmt.line_no))),
            true,
        )),
        _ => r,
    }
}

/// The state after the repeater step of a call.
pub open spec fn repeater_step(st: UState, stmt: BTProcCall<OrBundleRepeater<BTLValue>>) -> Result<UState, Seq<char>> {
    match repeater_pair(
        match stmt.rets {
            Some(x) => Some(x@),
            None => None,
        },
        args_view(stmt.args@),
    ) {
        Err(m) => Err(m),
        Ok(None) => Ok(st),
        Ok(Some((left, right))) => Ok((
            ns_clear(ns_merge(st.0, right, left), left),
            st.1,
            st.2.insert((st.3.push(stmt.call_index), Position::Repeater), used_in(st.0, left)),
            st.3,
        )),
    }
}

/// A call statement met on the way back: its repeater pair, then what the
/// caller expects back through each result, then the results are cleared.
/// Inside the call, a procedure's result expressions and statements are
/// walked in its own scope and its arguments against the bundles it takes;
/// a plain assignment walks its value as its one result and its arguments
/// against the results.
pub open spec fn sp_procedure(tree: BuildTree, fuel: nat, st: UState, stmt: BTProcCall<OrBundleRepeater<BTLValue>>) -> UResult
    decreases fuel, 2nat, stmt, 0nat,
{
    match repeater_step(st, stmt) {
        Err(m) => Err((m, false)),
        Ok(st1) => {
            let crb = rets_of(stmt).map_values(|ret: OrBundleRepeater<BTLValue>| ret_bundle(st1.0, st1.1, ret));
            let cleared = clear_rets((st1.0, st1.1), rets_of(stmt));
            let st2 = (cleared.0, cleared.1, st1.2, st1.3.push(stmt.call_index));
            match stmt.proc_index {
                Some(index) => if index >= tree.definitions@.len() {
                    Err((unknown_definition(), false))
                } else {
                    match tree.definitions@[index as int] {
                        BTDefinition::Proc(d) => if fuel == 0 {
                            Err((recursive_definition(), false))
                        } else {
                            let inner = (fuel - 1) as nat;
                            let st3 = (st2.0.push(Map::empty()), st2.1, st2.2, st2.3);
                            match sp_return_exprs(tree, inner, st3, d.ret@, crb, 0) {
                                Err(e) => Err(e),
                                Ok(s4) => match sp_stmts(tree, inner, s4, d.block@, d.block@.len()) {
                                    Err(e) => Err(e),
                                    Ok(s5) => {
                                        let expected = d.args@.map_values(|a: OrBundle<TypedArgument>| arg_bundle(s5.0, a));
                                        let s6 = (pop_last(s5.0), s5.1, s5.2, s5.3);
                                        match sp_args(tree, fuel, s6, expected, stmt.args@, 0) {
                                            Err(e) => Err(e),
                                            Ok(s7) => Ok((s7.0, s7.1, s7.2, pop_last(s7.3))),
                                        }
                                    },
                                },
                            }
                        },
                        _ => Err((not_function_message(), false)),
                    }
                },
                None => if stmt.args@.len() == 0 {
                    Err((no_value(), false))
                } else {
                    let r1: UResult = match stmt.args@[0] {
                        OrBundleRepeater::Repeater(_) => Ok(st2),
                        OrBundleRepeater::Normal(e) => sp_ret_normal(tree, fuel, st2, e, 0, crb),
                        OrBundleRepeater::Bundle(p) => sp_ret_bundle(st2, p@, 0, crb),
                    };
                    match r1 {
                        Err(e) => Err(e),
                        Ok(s) => match sp_args(tree, fuel, s, crb, stmt.args@, 0) {
                            Err(e) => Err(e),
                            Ok(s7) => Ok((s7.0, s7.1, s7.2, pop_last(s7.3))),
                        },
                    }
                },
            }
        },
    }
}

/// The state the pass starts from.
pub open spec fn u_start() -> UState {
    (seq![Map::<Seq<char>, BundleView>::empty()], RegView::empty(), Map::empty(), Seq::empty())
}

/// The pass over a whole tree: its statements, last first, with as many
/// nested definitions allowed as the tree has definitions.
pub open spec fn sp_build_unbundle(tree: BuildTree) -> UResult {
    sp_stmts(tree, tree.definitions@.len(), u_start(), tree.statements@, tree.statements@.len())
}


/// Whether `r` is the outcome `spec` describes, `after` being the state
/// left when it succeeds.
pub open spec fn outcome(r: Result<(), (String, bool)>, spec: UResult, after: UState) -> bool {
    match spec {
        Ok(s) => r is Ok && after == s,
        Err((m, located)) => r matches Err((e, c)) && e@ == m && c == located,
    }
}

/// The function definition `index` of `tree`.
fn function_def(tree: &BuildTree, index: usize) -> (r: Result<&BTFuncProcDefinition, String>)
    ensures
        match sp_get_function(*tree, index) {
            Ok(d) => r matches Ok(x) && *x == d,
            Err(m) => r matches Err(e) && e@ == m,
        },
{
    if index >= tree.definitions.len() {
        return Err(owned("unknown definition"));
    }
    match &tree.definitions[index] {
        BTDefinition::Func(d) => Ok(d),
        _ => Err(owned("expected function, got non-function")),
    }
}

/// Whether `e` gives a bundle, as `sp_returns_bundle` says.
fn returns_bundle(tree: &BuildTree, fuel: usize, e: &BTExpression) -> (r: Result<bool, String>)
    ensures
        match sp_returns_bundle(*tree, fuel as nat, *e) {
            Ok(b) => r == Ok::<bool, String>(b),
            Err(m) => r matches Err(x) && x@ == m,
        },
    decreases fuel,
{
    match e {
        BTExpression::RegisterValue(_, BTRegisterType::Bundle) => Ok(true),
        BTExpression::Function(func) => {
            let d = match function_def(tree, func.func_index) {
                Ok(d) => d,
                Err(m) => {
                    return Err(m);
                },
            };
            if fuel == 0 {
                return Err(owned("recursive definition"));
            }
            if d.ret.len() == 0 {
                return Err(owned("definition without a result"));
            }
            match &d.ret[0] {
                OrBundle::Normal(x) => returns_bundle(tree, fuel - 1, x),
                OrBundle::Bundle(_) => Ok(true),
            }
        },
        _ => Ok(false),
    }
}

impl BuildUnbundle {
    /// The whole state as values.
    pub closed spec fn st(&self) -> UState {
        (self.ns(), self.regs(), self.transits(), self.stack())
    }

    /// A bundle `p` passed where `expects` is expected.
    fn walk_bundle_expr(&mut self, p: &str, expects: Option<&Vec<String>>) -> (r: Result<(), (String, bool)>)
        requires
            old(self).wf(),
            expects matches Some(x) ==> distinct(x@),
        ensures
            final(self).wf(),
            outcome(r, sp_bundle_expr(old(self).st(), p@, opt_ref_names(expects)), final(self).st()),
    {
        match expects {
            None => Err((owned("unexpected bundle"), false)),
            Some(x) => {
                self.namespace.add_all(p, x);
                Ok(())
            },
        }
    }

    /// An expression, as `sp_expr` says.
    fn walk_expr(&mut self, tree: &BuildTree, fuel: usize, e: &BTExpression, expects: Option<&Vec<String>>) -> (r: Result<(), (String, bool)>)
        requires
            old(self).wf(),
            expects matches Some(x) ==> distinct(x@),
        ensures
            final(self).wf(),
            outcome(r, sp_expr(*tree, fuel as nat, old(self).st(), *e, opt_ref_names(expects)), final(self).st()),
        decreases fuel, 1nat, *e, 0nat,
    {
        match e {
            BTExpression::Constant(_) => {
                if expects.is_some() {
                    return Err((owned("unexpected bundle"), false));
                }
                Ok(())
            },
            BTExpression::Variable(v) => {
                if expects.is_some() {
                    return Err((owned("unexpected bundle"), false));
                }
                if let Some(p) = &v.prefix {
                    self.namespace.add(p.as_str(), v.name.as_str());
                }
                Ok(())
            },
            BTExpression::RegisterValue(_, BTRegisterType::Normal) => {
                if expects.is_some() {
                    return Err((owned("unexpected bundle"), false));
                }
                Ok(())
            },
            BTExpression::RegisterValue(reg, BTRegisterType::Bundle) => match expects {
                Some(x) => {
                    let ghost before = self.regs();
                    let c = copy_names(x);
                    self.register_bundles.insert(*reg, c);
                    proof {
                        assert(self.regs() =~= before.insert(*reg, names(x@)));
                    }
                    Ok(())
                },
                None => Err((owned("expected bundle"), false)),
            },
            BTExpression::Function(func) => self.walk_function(tree, fuel, func, expects),
        }
    }

    /// A function call, as `sp_function` says.
    fn walk_function(&mut self, tree: &BuildTree, fuel: usize, func: &BTFuncCall, expects: Option<&Vec<String>>) -> (r: Result<(), (String, bool)>)
        requires
            old(self).wf(),
            expects matches Some(x) ==> distinct(x@),
        ensures
            final(self).wf(),
            outcome(r, sp_function(*tree, fuel as nat, old(self).st(), *func, opt_ref_names(expects)), final(self).st()),
        decreases fuel, 1nat, *func, 0nat,
    {
        self.transits.push(func.call_index);
        self.namespace.push();
        let d = match function_def(tree, func.func_index) {
            Ok(d) => d,
            Err(m) => {
                return Err((m, false));
            },
        };
        if fuel == 0 {
            return Err((owned("recursive definition"), false));
        }
        if d.ret.len() == 0 {
            return Err((owned("definition without a result"), false));
        }
        let inner = fuel - 1;
        match &d.ret[0] {
            OrBundle::Normal(x) => {
                let rb = match returns_bundle(tree, inner, x) {
                    Ok(b) => b,
                    Err(m) => {
                        return Err((m, false));
                    },
                };
                if rb {
                    let b = match expects {
                        Some(b) => b,
                        None => {
                            return Err((owned("expected bundle"), false));
                        },
                    };
                    match self.walk_expr(tree, inner, x, Some(b)) {
                        Ok(()) => {},
                        Err(e) => {
                            return Err(e);
                        },
                    }
                    self.transits.add(Position::Return(0), copy_names(b));
                } else {
                    match self.walk_expr(tree, inner, x, None) {
                        Ok(()) => {},
                        Err(e) => {
                            return Err(e);
                        },
                    }
                }
            },
            OrBundle::Bundle(p) => {
                let b = match expects {
                    Some(b) => b,
                    None => {
                        return Err((owned("expected bundle"), false));
                    },
                };
                match self.walk_bundle_expr(p.as_str(), Some(b)) {
                    Ok(()) => {},
                    Err(e) => {
                        return Err(e);
                    },
                }
                self.transits.add(Position::Return(0), copy_names(b));
            },
        }
        match self.walk_stmts(tree, inner, &d.block, d.block.len()) {
            Ok(()) => {},
            Err(e) => {
                return Err(e);
            },
        }
        let expected = match self.arg_bundles(d.args.as_slice()) {
            Ok(v) => v,
            Err(m) => {
                return Err((m, false));
            },
        };
        let ghost s3 = self.st();
        proof {
            assert(opt_names_seq(expected@) =~= d.args@.map_values(|a: OrBundle<TypedArgument>| arg_bundle(s3.0, a)));
        }
        self.namespace.pop();
        match self.walk_args(tree, fuel, &expected, &func.args, 0) {
            Ok(()) => {},
            Err(e) => {
                return Err(e);
            },
        }
        self.transits.pop();
        Ok(())
    }

    /// The arguments from `i` on, as `sp_args` says.
    fn walk_args(
        &mut self,
        tree: &BuildTree,
        fuel: usize,
        expected: &Vec<Option<Vec<String>>>,
        args: &Vec<OrBundleRepeater<BTExpression>>,
        i: usize,
    ) -> (r: Result<(), (String, bool)>)
        requires
            old(self).wf(),
            forall|j: int| 0 <= j < expected@.len() ==> (#[trigger] expected@[j] matches Some(x) ==> distinct(x@)),
        ensures
            final(self).wf(),
            outcome(r, sp_args(*tree, fuel as nat, old(self).st(), opt_names_seq(expected@), args@, i as nat), final(self).st()),
        decreases fuel, 1nat, args@, args@.len() - i,
    {
        if i >= args.len() || i >= expected.len() {
            return Ok(());
        }
        let exp: Option<&Vec<String>> = match &expected[i] {
            Some(x) => Some(x),
            None => None,
        };
        proof {
            assert(opt_ref_names(exp) == opt_names_seq(expected@)[i as int]);
        }
        match &args[i] {
            OrBundleRepeater::Repeater(_) => {},
            OrBundleRepeater::Normal(e) => {
                if let Some(x) = exp {
                    self.transits.add(Position::Arg(i), copy_names(x));
                }
                match self.walk_expr(tree, fuel, e, exp) {
                    Ok(()) => {},
                    Err(e) => {
                        return Err(e);
                    },
                }
            },
            OrBundleRepeater::Bundle(p) => {
                if let Some(x) = exp {
                    self.transits.add(Position::Arg(i), copy_names(x));
                }
                match self.walk_bundle_expr(p.as_str(), exp) {
                    Ok(()) => {},
                    Err(e) => {
                        return Err(e);
                    },
                }
            },
        }
        self.walk_args(tree, fuel, expected, args, i + 1)
    }

    /// What the caller expects back through result `i`.
    fn caller_bundle(crb: &Vec<Option<Vec<String>>>, i: usize) -> (r: Option<Option<&Vec<String>>>)
        ensures
            match r {
                Some(Some(x)) => caller_bundle_at(opt_names_seq(crb@), i as nat) == Some(Some(names(x@)))
                    && crb@[i as int] == Some(*x),
                Some(None) => caller_bundle_at(opt_names_seq(crb@), i as nat) == Some(None::<Set<Seq<char>>>),
                None => caller_bundle_at(opt_names_seq(crb@), i as nat) is None,
            },
    {
        if i < crb.len() {
            match &crb[i] {
                Some(x) => Some(Some(x)),
                None => Some(None),
            }
        } else {
            None
        }
    }

    /// Result `i`, a plain expression, as `sp_ret_normal` says.
    fn walk_ret_normal(
        &mut self,
        tree: &BuildTree,
        fuel: usize,
        e: &BTExpression,
        i: usize,
        crb: &Vec<Option<Vec<String>>>,
    ) -> (r: Result<(), (String, bool)>)
        requires
            old(self).wf(),
            forall|j: int| 0 <= j < crb@.len() ==> (#[trigger] crb@[j] matches Some(x) ==> distinct(x@)),
        ensures
            final(self).wf(),
            outcome(r, sp_ret_normal(*tree, fuel as nat, old(self).st(), *e, i as nat, opt_names_seq(crb@)), final(self).st()),
        decreases fuel, 1nat, *e, 1nat,
    {
        let cb = Self::caller_bundle(crb, i);
        let rb = match returns_bundle(tree, fuel, e) {
            Ok(b) => b,
            Err(m) => {
                return Err((m, false));
            },
        };
        if rb {
            let x: Vec<String> = match cb {
                Some(Some(x)) => copy_names(x),
                Some(None) => {
                    return Err((owned("return argument expected to be bundle"), false));
                },
                None => {
                    let v: Vec<String> = Vec::new();
                    proof {
                        assert(names(v@) =~= Set::<Seq<char>>::empty());
                    }
                    v
                },
            };
            self.transits.add(Position::Return(i), copy_names(&x));
            self.walk_expr(tree, fuel, e, Some(&x))
        } else {
            if let Some(Some(_)) = cb {
                return Err((owned("return argument expected to be non-bundle"), false));
            }
            self.walk_expr(tree, fuel, e, None)
        }
    }

    /// Result `i`, a bundle, as `sp_ret_bundle` says.
    fn walk_ret_bundle(&mut self, p: &str, i: usize, crb: &Vec<Option<Vec<String>>>) -> (r: Result<(), (String, bool)>)
        requires
            old(self).wf(),
            forall|j: int| 0 <= j < crb@.len() ==> (#[trigger] crb@[j] matches Some(x) ==> distinct(x@)),
        ensures
            final(self).wf(),
            outcome(r, sp_ret_bundle(old(self).st(), p@, i as nat, opt_names_seq(crb@)), final(self).st()),
    {
        let cb = Self::caller_bundle(crb, i);
        let x: Vec<String> = match cb {
            Some(Some(x)) => copy_names(x),
            Some(None) => {
                return Err((owned("return argument expected to be bundle"), false));
            },
            None => {
                let v: Vec<String> = Vec::new();
                proof {
                    assert(names(v@) =~= Set::<Seq<char>>::empty());
                }
                v
            },
        };
        self.transits.add(Position::Return(i), copy_names(&x));
        self.walk_bundle_expr(p, Some(&x))
    }

    /// The result expressions from `i` on, as `sp_return_exprs` says.
    fn walk_return_exprs(
        &mut self,
        tree: &BuildTree,
        fuel: usize,
        exprs: &Vec<OrBundle<BTExpression>>,
        crb: &Vec<Option<Vec<String>>>,
        i: usize,
    ) -> (r: Result<(), (String, bool)>)
        requires
            old(self).wf(),
            forall|j: int| 0 <= j < crb@.len() ==> (#[trigger] crb@[j] matches Some(x) ==> distinct(x@)),
        ensures
            final(self).wf(),
            outcome(r, sp_return_exprs(*tree, fuel as nat, old(self).st(), exprs@, opt_names_seq(crb@), i as nat), final(self).st()),
        decreases fuel, 1nat, exprs@, exprs@.len() - i,
    {
        if i >= exprs.len() {
            return Ok(());
        }
        let r = match &exprs[i] {
            OrBundle::Normal(e) => self.walk_ret_normal(tree, fuel, e, i, crb),
            OrBundle::Bundle(p) => self.walk_ret_bundle(p.as_str(), i, crb),
        };
        match r {
            Ok(()) => self.walk_return_exprs(tree, fuel, exprs, crb, i + 1),
            Err(e) => Err(e),
        }
    }

    /// The statements `stmts[..k]`, last first, as `sp_stmts` says.
    fn walk_stmts(&mut self, tree: &BuildTree, fuel: usize, stmts: &Vec<BTStatement>, k: usize) -> (r: Result<(), (String, bool)>)
        requires
            old(self).wf(),
        ensures
            final(self).wf(),
            outcome(r, sp_stmts(*tree, fuel as nat, old(self).st(), stmts@, k as nat), final(self).st()),
        decreases fuel, 4nat, stmts@, k,
    {
        if k == 0 || k > stmts.len() {
            return Ok(());
        }
        match self.walk_statement(tree, fuel, &stmts[k - 1]) {
            Ok(()) => self.walk_stmts(tree, fuel, stmts, k - 1),
            Err(e) => Err(e),
        }
    }

    /// A statement, as `sp_statement` says.
    fn walk_statement(&mut self, tree: &BuildTree, fuel: usize, stmt: &BTStatement) -> (r: Result<(), (String, bool)>)
        requires
            old(self).wf(),
        ensures
            final(self).wf(),
            outcome(r, sp_statement(*tree, fuel as nat, old(self).st(), *stmt), final(self).st()),
        decreases fuel, 3nat, *stmt, 0nat,
    {
        let r = match &stmt.value {
            BTStatementValue::Declare(d) => {
                let _ = self.declare(d);
                Ok(())
            },
            BTStatementValue::BundledStatement(s) => self.walk_procedure(tree, fuel, s),
            _ => Ok(()),
        };
        match r {
            Err((m, false)) => Err((at(m.as_str(), Some((stmt.file.as_slice(), stmt.line_no))), true)),
            other => other,
        }
    }

    /// A call statement, as `sp_procedure` says.
    fn walk_procedure(&mut self, tree: &BuildTree, fuel: usize, stmt: &BTProcCall<OrBundleRepeater<BTLValue>>) -> (r: Result<(), (String, bool)>)
        requires
            old(self).wf(),
        ensures
            final(self).wf(),
            outcome(r, sp_procedure(*tree, fuel as nat, old(self).st(), *stmt), final(self).st()),
        decreases fuel, 2nat, *stmt, 0nat,
    {
        match self.check_for_repeater(stmt) {
            Ok(()) => {},
            Err(m) => {
                return Err((m, false));
            },
        }
        let ghost s1 = self.st();
        let crb = self.return_bundles(stmt);
        proof {
            assert(opt_names_seq(crb@) =~= rets_of(*stmt).map_values(
                |ret: OrBundleRepeater<BTLValue>| ret_bundle(s1.0, s1.1, ret),
            ));
        }
        let _ = self.clear_lvalue_bundles(stmt);
        self.transits.push(stmt.call_index);
        match stmt.proc_index {
            Some(index) => {
                if index >= tree.definitions.len() {
                    return Err((owned("unknown definition"), false));
                }
                match &tree.definitions[index] {
                    BTDefinition::Proc(d) => {
                        if fuel == 0 {
                            return Err((owned("recursive definition"), false));
                        }
                        let inner = fuel - 1;
                        self.namespace.push();
                        match self.walk_return_exprs(tree, inner, &d.ret, &crb, 0) {
                            Ok(()) => {},
                            Err(e) => {
                                return Err(e);
                            },
                        }
                        match self.walk_stmts(tree, inner, &d.block, d.block.len()) {
                            Ok(()) => {},
                            Err(e) => {
                                return Err(e);
                            },
                        }
                        let expected = match self.arg_bundles(d.args.as_slice()) {
                            Ok(v) => v,
                            Err(m) => {
                                return Err((m, false));
                            },
                        };
                        let ghost s5 = self.st();
                        proof {
                            assert(opt_names_seq(expected@) =~= d.args@.map_values(
                                |a: OrBundle<TypedArgument>| arg_bundle(s5.0, a),
                            ));
                        }
                        self.namespace.pop();
                        match self.walk_args(tree, fuel, &expected, &stmt.args, 0) {
                            Ok(()) => {},
                            Err(e) => {
                                return Err(e);
                            },
                        }
                    },
                    _ => {
                        return Err((owned("expected function, got non-function"), false));
                    },
                }
            },
            None => {
                if stmt.args.len() == 0 {
                    return Err((owned("assignment without a value"), false));
                }
                let r1 = match &stmt.args[0] {
                    OrBundleRepeater::Repeater(_) => Ok(()),
                    OrBundleRepeater::Normal(e) => self.walk_ret_normal(tree, fuel, e, 0, &crb),
                    OrBundleRepeater::Bundle(p) => self.walk_ret_bundle(p.as_str(), 0, &crb),
                };
                match r1 {
                    Ok(()) => {},
                    Err(e) => {
                        return Err(e);
                    },
                }
                match self.walk_args(tree, fuel, &crb, &stmt.args, 0) {
                    Ok(()) => {},
                    Err(e) => {
                        return Err(e);
                    },
                }
            },
        }
        self.transits.pop();
        Ok(())
    }
}

impl BuildUnbundle {
    /// A statement of `tree` met on the way back, as `sp_statement` says,
    /// with as many nested definitions allowed as the tree has; a message
    /// names the statement where it arose.
    pub fn statement(&mut self, tree: &BuildTree, stmt: &BTStatement) -> (r: Result<(), String>)
        requires
            old(self).wf(),
        ensures
            final(self).wf(),
            match sp_statement(*tree, tree.definitions@.len(), old(self).st(), *stmt) {
                Ok(s) => r is Ok && final(self).st() == s,
                Err((m, _)) => r matches Err(e) && e@ == m,
            },
    {
        match self.walk_statement(tree, tree.definitions.len(), stmt) {
            Ok(()) => Ok(()),
            Err((m, _)) => Err(m),
        }
    }

    /// A call statement of `tree` met on the way back, as `sp_procedure`
    /// says, with as many nested definitions allowed as the tree has.
    pub fn procedure(&mut self, tree: &BuildTree, stmt: &BTProcCall<OrBundleRepeater<BTLValue>>) -> (r: Result<(), String>)
        requires
            old(self).wf(),
        ensures
            final(self).wf(),
            match sp_procedure(*tree, tree.definitions@.len(), old(self).st(), *stmt) {
                Ok(s) => r is Ok && final(self).st() == s,
                Err((m, _)) => r matches Err(e) && e@ == m,
            },
    {
        match self.walk_procedure(tree, tree.definitions.len(), stmt) {
            Ok(()) => Ok(()),
            Err((m, _)) => Err(m),
        }
    }
}

/// The transits of a program: which names each bundle carries across each
/// argument and result boundary, found by walking the program backwards
/// (`sp_build_unbundle`), each list sorted. A failure is reported at the
/// statement where it arose.
pub fn build_unbundle(tree: &BuildTree) -> (r: Result<Transits, String>)
    ensures
        match sp_build_unbundle(*tree) {
            Ok(s) => r matches Ok(t) && {
                &&& t.wf()
                &&& t.view().dom() == s.2.dom()
                &&& forall|k: TransitKey| #[trigger] t.view().contains_key(k) ==> {
                    &&& t.view()[k].to_set() == s.2[k]
                    &&& forall|i: int, j: int| 0 <= i < j < t.view()[k].len() ==> chars_before(
                        #[trigger] t.view()[k][i],
                        #[trigger] t.view()[k][j],
                    )
                }
            },
            Err((m, located)) => r matches Err(e) && e@ == if located { m } else { "*anon*"@ },
        },
{
    let mut u = BuildUnbundle::new();
    proof {
        assert(u.st() == u_start());
    }
    match u.walk_stmts(tree, tree.definitions.len(), &tree.statements, tree.statements.len()) {
        Ok(()) => Ok(u.finish()),
        Err((m, true)) => Err(m),
        Err((_, false)) => Err(owned("*anon*")),
    }
}

} // verus!
