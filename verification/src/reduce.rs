//! Removal of register copies from linear code: each copy is dropped and
//! later uses of its destination read its source instead.

use vstd::prelude::*;
use std::collections::HashMap;
use crate::model::{LinearStatement, LinearStatementValue, TypeRestriction, copy_atomic, copy_constant};

verus! {

broadcast use vstd::std_specs::hash::group_hash_axioms;

/// `out` is `v` with each register `x` it reads or sets replaced by `f(x)`.
pub open spec fn renamed(out: LinearStatementValue, v: LinearStatementValue, f: spec_fn(usize) -> usize) -> bool {
    match (out, v) {
        (LinearStatementValue::Check(n2, r2, ct2, i2, force2), LinearStatementValue::Check(n, r, ct, i, force)) => n2@
            == n@ && r2 == f(r) && ct2 == ct && i2 == i && force2 == force,
        (LinearStatementValue::Constant(r2, c2), LinearStatementValue::Constant(r, c)) => r2 == f(r) && c2 == c,
        (LinearStatementValue::Code(a2, b2, rets2, args2), LinearStatementValue::Code(a, b, rets, args)) => a2 == a
            && b2 == b && rets2@ == rets@.map_values(f) && args2@ == args@.map_values(f),
        (LinearStatementValue::Type(r2, t2), LinearStatementValue::Type(r, t)) => r2 == f(r) && t2@ == t@,
        (LinearStatementValue::WildEquiv(rs2), LinearStatementValue::WildEquiv(rs)) => rs2@ == rs@.map_values(f),
        _ => false,
    }
}

/// The register that `reg` stands for under the copies `m`.
pub open spec fn canon_in(m: Map<usize, usize>, reg: usize) -> usize {
    if m.contains_key(reg) { m[reg] } else { reg }
}

/// The copies recorded by the first `k` statements.
pub open spec fn copies_before(stmts: Seq<LinearStatement>, k: int) -> Map<usize, usize>
    decreases k,
{
    if k <= 0 {
        Map::empty()
    } else {
        let m = copies_before(stmts, k - 1);
        match stmts[k - 1].value {
            LinearStatementValue::Copy(dst, src) => m.insert(dst, canon_in(m, src)),
            _ => m,
        }
    }
}

/// The indexes of the first `k` statements that are not copies.
pub open spec fn kept(stmts: Seq<LinearStatement>, k: int) -> Seq<int>
    decreases k,
{
    if k <= 0 {
        Seq::empty()
    } else {
        let s = kept(stmts, k - 1);
        match stmts[k - 1].value {
            LinearStatementValue::Copy(_, _) => s,
            _ => s.push(k - 1),
        }
    }
}

/// The copies seen so far.
pub struct Reduce {
    equiv: HashMap<usize, usize>,
}

/// A copy of a list of registers, each renamed by the copies `m`.
fn rename_all(m: &HashMap<usize, usize>, regs: &Vec<usize>) -> (r: Vec<usize>)
    ensures
        r@ == regs@.map_values(|x: usize| canon_in(m@, x)),
{
    let mut r: Vec<usize> = Vec::new();
    let mut i: usize = 0;
    while i < regs.len()
        invariant
            i <= regs@.len(),
            r@ == regs@.take(i as int).map_values(|x: usize| canon_in(m@, x)),
        decreases regs@.len() - i,
    {
        let x = match m.get(&regs[i]) {
            Some(v) => *v,
            None => regs[i],
        };
        r.push(x);
        i += 1;
        proof {
            assert(r@ =~= regs@.take(i as int).map_values(|x: usize| canon_in(m@, x)));
        }
    }
    proof {
        assert(regs@.take(i as int) =~= regs@);
    }
    r
}

/// A copy of a list of type restrictions.
fn copy_restrictions(v: &Vec<TypeRestriction>) -> (r: Vec<TypeRestriction>)
    ensures
        r@ == v@,
{
    let mut r: Vec<TypeRestriction> = Vec::new();
    let mut i: usize = 0;
    while i < v.len()
        invariant
            i <= v@.len(),
            r@ == v@.take(i as int),
        decreases v@.len() - i,
    {
        let t = match &v[i] {
            TypeRestriction::Atomic(a) => TypeRestriction::Atomic(copy_atomic(a)),
            TypeRestriction::Sequence(a) => TypeRestriction::Sequence(copy_atomic(a)),
            TypeRestriction::AnySequence => TypeRestriction::AnySequence,
        };
        r.push(t);
        i += 1;
        proof {
            assert(r@ =~= v@.take(i as int));
        }
    }
    proof {
        assert(v@.take(i as int) =~= v@);
    }
    r
}

impl Reduce {
    /// The copies seen so far: each destination with the register it
    /// stands for.
    pub closed spec fn copies(&self) -> Map<usize, usize> {
        self.equiv@
    }

    /// No copies seen.
    pub fn new() -> (r: Reduce)
        ensures
            r.copies() == Map::<usize, usize>::empty(),
    {
        Reduce { equiv: HashMap::new() }
    }

    /// The register that `reg` stands for.
    pub fn canon(&self, reg: usize) -> (r: usize)
        ensures
            r == canon_in(self.copies(), reg),
    {
        match self.equiv.get(&reg) {
            Some(v) => *v,
            None => reg,
        }
    }

    /// Records a copy, or renames the registers of another statement.
    pub fn reduce(&mut self, stmt: &LinearStatement) -> (r: Option<LinearStatement>)
        ensures
            match stmt.value {
                LinearStatementValue::Copy(dst, src) => r is None && final(self).copies() == old(self).copies().insert(
                    dst,
                    canon_in(old(self).copies(), src),
                ),
                _ => {
                    &&& final(self).copies() == old(self).copies()
                    &&& r matches Some(o)
                    &&& renamed(o.value, stmt.value, |x: usize| canon_in(old(self).copies(), x))
                    &&& o.position.files() == stmt.position.files()
                    &&& o.position.spec_variety() == stmt.position.spec_variety()
                },
            },
    {
        match &stmt.value {
            LinearStatementValue::Copy(dst, src) => {
                let s = self.canon(*src);
                self.equiv.insert(*dst, s);
                None
            },
            LinearStatementValue::Check(name, reg, ct, ci, force) => {
                let value = LinearStatementValue::Check(name.clone(), self.canon(*reg), *ct, *ci, *force);
                Some(LinearStatement { value, position: stmt.position.clone() })
            },
            LinearStatementValue::Constant(reg, c) => {
                let value = LinearStatementValue::Constant(self.canon(*reg), copy_constant(c));
                Some(LinearStatement { value, position: stmt.position.clone() })
            },
            LinearStatementValue::Type(reg, typ) => {
                let value = LinearStatementValue::Type(self.canon(*reg), copy_restrictions(typ));
                Some(LinearStatement { value, position: stmt.position.clone() })
            },
            LinearStatementValue::Code(index, name, rets, args) => {
                let new_rets = rename_all(&self.equiv, rets);
                let new_args = rename_all(&self.equiv, args);
                proof {
                    let f = |x: usize| canon_in(old(self).copies(), x);
                    assert(new_rets@ =~= rets@.map_values(f));
                    assert(new_args@ =~= args@.map_values(f));
                }
                let value = LinearStatementValue::Code(*index, *name, new_rets, new_args);
                Some(LinearStatement { value, position: stmt.position.clone() })
            },
            LinearStatementValue::WildEquiv(regs) => {
                let new_regs = rename_all(&self.equiv, regs);
                proof {
                    let f = |x: usize| canon_in(old(self).copies(), x);
                    assert(new_regs@ =~= regs@.map_values(f));
                }
                let value = LinearStatementValue::WildEquiv(new_regs);
                Some(LinearStatement { value, position: stmt.position.clone() })
            },
        }
    }
}

/// The statements with copies removed and every later use of a copy's
/// destination reading its source.
pub fn reduce(stmts: &[LinearStatement]) -> (r: Vec<LinearStatement>)
    ensures
        r@.len() == kept(stmts@, stmts@.len() as int).len(),
        forall|j: int| 0 <= j < r@.len() ==> {
            let k = #[trigger] kept(stmts@, stmts@.len() as int)[j];
            &&& 0 <= k < stmts@.len()
            &&& renamed(r@[j].value, stmts@[k].value, |x: usize| canon_in(copies_before(stmts@, k), x))
            &&& r@[j].position.files() == stmts@[k].position.files()
            &&& r@[j].position.spec_variety() == stmts@[k].position.spec_variety()
        },
{
    let mut reduce = Reduce::new();
    let mut out: Vec<LinearStatement> = Vec::new();
    let mut i: usize = 0;
    while i < stmts.len()
        invariant
            i <= stmts@.len(),
            reduce.copies() == copies_before(stmts@, i as int),
            out@.len() == kept(stmts@, i as int).len(),
            forall|j: int| 0 <= j < kept(stmts@, i as int).len() ==> 0 <= #[trigger] kept(stmts@, i as int)[j] < i,
            forall|j: int| 0 <= j < out@.len() ==> {
                let k = #[trigger] kept(stmts@, i as int)[j];
                &&& renamed(out@[j].value, stmts@[k].value, |x: usize| canon_in(copies_before(stmts@, k), x))
                &&& out@[j].position.files() == stmts@[k].position.files()
                &&& out@[j].position.spec_variety() == stmts@[k].position.spec_variety()
            },
        decreases stmts@.len() - i,
    {
        let ghost before = out@;
        match reduce.reduce(&stmts[i]) {
            Some(s) => {
                out.push(s);
            },
            None => {},
        }
        i += 1;
        proof {
            assert(kept(stmts@, i as int) == match stmts@[i - 1].value {
                LinearStatementValue::Copy(_, _) => kept(stmts@, i - 1),
                _ => kept(stmts@, i - 1).push(i - 1),
            });
            assert forall|j: int| 0 <= j < out@.len() implies {
                let k = #[trigger] kept(stmts@, i as int)[j];
                &&& renamed(out@[j].value, stmts@[k].value, |x: usize| canon_in(copies_before(stmts@, k), x))
                &&& out@[j].position.files() == stmts@[k].position.files()
                &&& out@[j].position.spec_variety() == stmts@[k].position.spec_variety()
            } by {
                if j < before.len() {
                    assert(out@[j] == before[j]);
                    assert(kept(stmts@, i as int)[j] == kept(stmts@, i - 1)[j]);
                }
            }
        }
    }
    out
}


/// The registers a statement names, in order.
pub open spec fn regs_of(v: LinearStatementValue) -> Seq<usize> {
    match v {
        LinearStatementValue::Check(_, r, _, _, _) => seq![r],
        LinearStatementValue::Constant(r, _) => seq![r],
        LinearStatementValue::Copy(d, s) => seq![d, s],
        LinearStatementValue::Code(_, _, rets, args) => rets@ + args@,
        LinearStatementValue::Type(r, _) => seq![r],
        LinearStatementValue::WildEquiv(rs) => rs@,
    }
}

/// The kind of a statement.
pub open spec fn kind_of(v: LinearStatementValue) -> int {
    match v {
        LinearStatementValue::Check(..) => 0,
        LinearStatementValue::Constant(..) => 1,
        LinearStatementValue::Copy(..) => 2,
        LinearStatementValue::Code(..) => 3,
        LinearStatementValue::Type(..) => 4,
        LinearStatementValue::WildEquiv(..) => 5,
    }
}

/// What reduce keeps of a statement other than a copy is a statement of
/// the same kind that names, in order, the registers the original names,
/// each read through the copies before it (`f`): a type restriction or a
/// check after `Copy(d, s)` names `s`, not `d`. Its other contents are
/// kept: the restrictions, the check's name, type, index and force, the
/// constant, and the call and code named.
pub proof fn reduce_reads_through_copies(out: LinearStatementValue, v: LinearStatementValue, f: spec_fn(usize) -> usize)
    requires
        renamed(out, v, f),
    ensures
        kind_of(out) == kind_of(v),
        regs_of(out) == regs_of(v).map_values(f),
        v matches LinearStatementValue::Type(_, t) ==> out matches LinearStatementValue::Type(_, t2) && t2@ == t@,
        v matches LinearStatementValue::Check(n, _, ct, i, force) ==> (out matches LinearStatementValue::Check(n2, _, ct2, i2, force2)
            && n2@ == n@ && ct2 == ct && i2 == i && force2 == force),
        v matches LinearStatementValue::Constant(_, c) ==> out matches LinearStatementValue::Constant(_, c2) && c2 == c,
        v matches LinearStatementValue::Code(a, b, _, _) ==> out matches LinearStatementValue::Code(a2, b2, _, _) && a2 == a
            && b2 == b,
{
    match (out, v) {
        (LinearStatementValue::Code(_, _, rets2, args2), LinearStatementValue::Code(_, _, rets, args)) => {
            assert((rets@ + args@).map_values(f) =~= rets@.map_values(f) + args@.map_values(f));
        },
        _ => {
            assert(regs_of(out) =~= regs_of(v).map_values(f));
        },
    }
}

/// Reduce keeps every statement that is not a copy and drops every copy,
/// in order: the statements it keeps of the first `n` are, in increasing
/// order, exactly those that are not copies.
pub proof fn reduce_keeps_the_non_copies(stmts: Seq<LinearStatement>, n: int)
    requires
        0 <= n <= stmts.len(),
    ensures
        forall|j: int| 0 <= j < kept(stmts, n).len() ==> {
            let k = #[trigger] kept(stmts, n)[j];
            0 <= k < n && !(stmts[k].value is Copy)
        },
        forall|a: int, b: int| 0 <= a < b < kept(stmts, n).len() ==> #[trigger] kept(stmts, n)[a] < #[trigger] kept(stmts, n)[b],
        forall|i: int| 0 <= i < n && !(stmts[i].value is Copy) ==> #[trigger] kept(stmts, n).contains(i),
    decreases n,
{
    if n > 0 {
        reduce_keeps_the_non_copies(stmts, n - 1);
        let s = kept(stmts, n - 1);
        let t = kept(stmts, n);
        if !(stmts[n - 1].value is Copy) {
            assert(t == s.push(n - 1));
            assert forall|i: int| 0 <= i < n && !(stmts[i].value is Copy) implies #[trigger] t.contains(i) by {
                if i == n - 1 {
                    assert(t[s.len() as int] == i);
                } else {
                    assert(s.contains(i));
                    let j = choose|j: int| 0 <= j < s.len() && s[j] == i;
                    assert(t[j] == i);
                }
            }
        } else {
            assert(t == s);
        }
    }
}

} // verus!
