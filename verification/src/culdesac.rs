//! Removal of dead code: only operations whose results are needed by a
//! call of a block with the `world` modifier, directly or through other
//! operations, are kept.

use vstd::prelude::*;
use std::collections::{HashMap, HashSet};
use crate::codeblocks::CodeBlock;
use crate::buildtree::{BTDefinition, BuildTree, code_of};
use vstd::pervasive::unreached;
use crate::model::{Operation, OperationValue, copy_full_constant, same_full};
use crate::toposort::{is_path, reaches, lemma_reaches_self};

verus! {

broadcast use vstd::std_specs::hash::group_hash_axioms;

/// The code block a call resolves to.
pub open spec fn block_of(defs: Seq<BTDefinition>, bi: Map<usize, usize>, call: usize, name: usize) -> CodeBlock {
    code_of(defs[name as int]).blocks()[bi[call] as int]
}

/// Every call among `opers` resolves to a block.
pub open spec fn lookups_ok(defs: Seq<BTDefinition>, bi: Map<usize, usize>, opers: Seq<Operation>) -> bool {
    forall|i: int| 0 <= i < opers.len() ==> resolves(defs, bi, #[trigger] opers[i])
}

/// A call of `o`, if it is one, resolves to a block.
pub open spec fn resolves(defs: Seq<BTDefinition>, bi: Map<usize, usize>, o: Operation) -> bool {
    o.value matches OperationValue::Code(call, name, _, _) ==> (bi.contains_key(call) && name < defs.len()
        && defs[name as int] is Code && bi[call] < code_of(defs[name as int]).blocks().len())
}

/// Whether a block carries the `world` modifier.
pub open spec fn world_block(b: CodeBlock) -> bool {
    exists|i: int| 0 <= i < b.modifiers@.len() && #[trigger] b.modifiers@[i] is World
}

/// Whether an operation calls a block with the `world` modifier.
pub open spec fn world_call(defs: Seq<BTDefinition>, bi: Map<usize, usize>, o: Operation) -> bool {
    o.value matches OperationValue::Code(call, name, _, _) && world_block(block_of(defs, bi, call, name))
}

/// The arguments of a call (none for a constant).
pub open spec fn call_args(o: Operation) -> Seq<usize> {
    match o.value {
        OperationValue::Code(_, _, _, args) => args@,
        _ => Seq::empty(),
    }
}

/// The call index of a call.
pub open spec fn call_index(o: Operation) -> usize {
    match o.value {
        OperationValue::Code(call, _, _, _) => call,
        _ => 0,
    }
}

/// For each register set by one of the first `k` calls, the arguments of
/// the last call that sets it.
pub open spec fn requires_upto(opers: Seq<Operation>, k: int) -> Map<usize, Seq<usize>>
    decreases k,
{
    if k <= 0 {
        Map::empty()
    } else {
        let m = requires_upto(opers, k - 1);
        match opers[k - 1].value {
            OperationValue::Code(_, _, rets, args) => m.union_prefer_right(
                Map::new(|r: usize| rets@.contains(r), |r: usize| args@),
            ),
            _ => m,
        }
    }
}

/// The registers that the calls of world blocks among the first `k`
/// operations read.
pub open spec fn roots_upto(defs: Seq<BTDefinition>, bi: Map<usize, usize>, opers: Seq<Operation>, k: int) -> Set<usize> {
    Set::new(
        |r: usize| exists|i: int| 0 <= i < k && world_call(defs, bi, #[trigger] opers[i]) && call_args(opers[i]).contains(r),
    )
}

/// The calls of world blocks among the first `k` operations.
pub open spec fn worlds_upto(defs: Seq<BTDefinition>, bi: Map<usize, usize>, opers: Seq<Operation>, k: int) -> Set<usize> {
    Set::new(
        |c: usize| exists|i: int| 0 <= i < k && world_call(defs, bi, #[trigger] opers[i]) && call_index(opers[i]) == c,
    )
}

/// The registers the calls of world blocks read.
pub open spec fn roots_of(defs: Seq<BTDefinition>, bi: Map<usize, usize>, opers: Seq<Operation>) -> Set<usize> {
    roots_upto(defs, bi, opers, opers.len() as int)
}

/// The calls of world blocks.
pub open spec fn worlds_of(defs: Seq<BTDefinition>, bi: Map<usize, usize>, opers: Seq<Operation>) -> Set<usize> {
    worlds_upto(defs, bi, opers, opers.len() as int)
}

/// The relation "the value of `u` needs that of `v`".
pub open spec fn needs(req: Map<usize, Seq<usize>>) -> spec_fn(int, int) -> bool {
    |u: int, v: int| 0 <= u && 0 <= v && req.contains_key(u as usize) && req[u as usize].contains(v as usize)
}

/// The registers that a root needs, directly or not (the roots among them).
pub open spec fn needed_from(req: Map<usize, Seq<usize>>, roots: Set<usize>) -> Set<usize> {
    Set::new(|r: usize| exists|root: usize| #[trigger] roots.contains(root) && reaches(needs(req), root, r))
}

/// The registers whose values the program needs.
pub open spec fn needed_of(defs: Seq<BTDefinition>, bi: Map<usize, usize>, opers: Seq<Operation>) -> Set<usize> {
    needed_from(requires_upto(opers, opers.len() as int), roots_of(defs, bi, opers))
}

/// Whether an operation is kept: a constant whose register is needed, or a
/// call that sets a needed register or calls a world block.
pub open spec fn kept_oper(o: Operation, needed: Set<usize>, worlds: Set<usize>) -> bool {
    match o.value {
        OperationValue::Constant(reg, _) => needed.contains(reg),
        OperationValue::Code(call, _, rets, _) => (exists|j: int| 0 <= j < rets@.len() && needed.contains(
            #[trigger] rets@[j],
        )) || worlds.contains(call),
    }
}

/// `out` is what is kept of `o`: unneeded results become register 0.
pub open spec fn trimmed(out: Operation, o: Operation, needed: Set<usize>) -> bool {
    &&& out.position.files() == o.position.files()
    &&& out.position.spec_variety() == o.position.spec_variety()
    &&& match (out.value, o.value) {
        (OperationValue::Constant(r2, c2), OperationValue::Constant(r, c)) => r2 == r && same_full(c2, c),
        (OperationValue::Code(c2, n2, d2, s2), OperationValue::Code(c, n, d, s)) => c2 == c && n2 == n && s2@ == s@
            && d2@ == d@.map_values(|x: usize| if needed.contains(x) { x } else { 0usize }),
        _ => false,
    }
}

/// The indexes of the first `k` operations that are kept.
pub open spec fn kept_indexes(opers: Seq<Operation>, k: int, needed: Set<usize>, worlds: Set<usize>) -> Seq<int>
    decreases k,
{
    if k <= 0 {
        Seq::empty()
    } else {
        let s = kept_indexes(opers, k - 1, needed, worlds);
        if kept_oper(opers[k - 1], needed, worlds) {
            s.push(k - 1)
        } else {
            s
        }
    }
}

/// The weight of the keys of `req` that are not yet needed: what is left
/// to explore.
pub open spec fn pending_weight(keys: Seq<usize>, req: Map<usize, Seq<usize>>, needed: Set<usize>) -> nat
    decreases keys.len(),
{
    if keys.len() == 0 {
        0
    } else {
        pending_weight(keys.drop_last(), req, needed) + if needed.contains(keys.last()) {
            0
        } else {
            1 + req[keys.last()].len()
        }
    }
}

/// Marking a key needed removes its weight.
proof fn lemma_weight_insert(keys: Seq<usize>, req: Map<usize, Seq<usize>>, needed: Set<usize>, r: usize)
    requires
        keys.no_duplicates(),
        !needed.contains(r),
    ensures
        keys.contains(r) ==> pending_weight(keys, req, needed.insert(r)) + 1 + req[r].len() == pending_weight(
            keys,
            req,
            needed,
        ),
        !keys.contains(r) ==> pending_weight(keys, req, needed.insert(r)) == pending_weight(keys, req, needed),
    decreases keys.len(),
{
    if keys.len() > 0 {
        let d = keys.drop_last();
        assert(d.no_duplicates()) by {
            assert forall|i: int, j: int| 0 <= i < d.len() && 0 <= j < d.len() && i != j implies d[i] != d[j] by {
                assert(d[i] == keys[i] && d[j] == keys[j]);
            }
        }
        lemma_weight_insert(d, req, needed, r);
        if keys.last() == r {
            assert(!d.contains(r)) by {
                if d.contains(r) {
                    let k = choose|k: int| 0 <= k < d.len() && d[k] == r;
                    assert(keys[k] == keys[keys.len() - 1]);
                }
            }
        } else {
            assert(d.contains(r) == keys.contains(r)) by {
                if keys.contains(r) {
                    let k = choose|k: int| 0 <= k < keys.len() && keys[k] == r;
                    assert(k < keys.len() - 1);
                    assert(d[k] == r);
                }
                if d.contains(r) {
                    let k = choose|k: int| 0 <= k < d.len() && d[k] == r;
                    assert(keys[k] == r);
                }
            }
        }
    }
}

/// A path that ends where an arc starts extends through it.
proof fn lemma_reaches_extend(g: spec_fn(int, int) -> bool, root: usize, x: usize, y: usize)
    requires
        reaches(g, root, x),
        g(x as int, y as int),
    ensures
        reaches(g, root, y),
{
    let p = choose|p: Seq<usize>| is_path(g, p) && p[0] == root && p.last() == x;
    let q = p.push(y);
    assert forall|i: int, j: int| 0 <= i && j == i + 1 && j < q.len() implies #[trigger] g(q[i] as int, q[j] as int) by {
        if j < p.len() {
            assert(q[i] == p[i] && q[j] == p[j]);
            assert(g(p[i] as int, p[j] as int));
        } else {
            assert(q[i] == x && q[j] == y);
        }
    }
    assert(is_path(g, q));
    assert(q[0] == root && q.last() == y);
}

/// A set that holds the roots and is closed under `needs` holds every
/// register a root needs.
proof fn lemma_closed_holds_needed(req: Map<usize, Seq<usize>>, roots: Set<usize>, s: Set<usize>, r: usize)
    requires
        forall|x: usize| #[trigger] roots.contains(x) ==> s.contains(x),
        forall|x: usize, y: usize| #[trigger] s.contains(x) && req.contains_key(x) && #[trigger] req[x].contains(y)
            ==> s.contains(y),
        needed_from(req, roots).contains(r),
    ensures
        s.contains(r),
{
    let root = choose|root: usize| #[trigger] roots.contains(root) && reaches(needs(req), root, r);
    let p = choose|p: Seq<usize>| is_path(needs(req), p) && p[0] == root && p.last() == r;
    lemma_path_in_closed(req, s, p, p.len() - 1);
}

/// Along a path from a member of a set closed under `needs`, every node is
/// a member.
proof fn lemma_path_in_closed(req: Map<usize, Seq<usize>>, s: Set<usize>, p: Seq<usize>, k: int)
    requires
        is_path(needs(req), p),
        0 <= k < p.len(),
        s.contains(p[0]),
        forall|x: usize, y: usize| #[trigger] s.contains(x) && req.contains_key(x) && #[trigger] req[x].contains(y)
            ==> s.contains(y),
    ensures
        s.contains(p[k]),
    decreases k,
{
    if k > 0 {
        lemma_path_in_closed(req, s, p, k - 1);
        assert(needs(req)(p[k - 1] as int, p[k] as int));
        assert(req.contains_key(p[k - 1]) && req[p[k - 1]].contains(p[k]));
    }
}

/// What dead-code removal keeps track of.
pub struct CulDeSac {
    roots: Vec<usize>,
    requires: HashMap<usize, Vec<usize>>,
    keys: Vec<usize>,
    needed: HashSet<usize>,
    worlds: HashSet<usize>,
}

impl CulDeSac {
    /// For each register set by a call seen, the arguments of that call.
    pub closed spec fn req(&self) -> Map<usize, Seq<usize>> {
        Map::new(|k: usize| self.requires@.contains_key(k), |k: usize| self.requires@[k]@)
    }

    /// The registers read by the world calls seen.
    pub closed spec fn roots(&self) -> Set<usize> {
        self.roots@.to_set()
    }

    /// The world calls seen.
    pub closed spec fn worlds(&self) -> Set<usize> {
        self.worlds@
    }

    /// The registers found needed.
    pub closed spec fn needed(&self) -> Set<usize> {
        self.needed@
    }

    /// The internal invariant.
    pub closed spec fn wf(&self) -> bool {
        &&& self.keys@.no_duplicates()
        &&& forall|k: usize| #[trigger] self.keys@.contains(k) <==> self.requires@.contains_key(k)
    }

    /// Nothing seen.
    pub fn new() -> (r: CulDeSac)
        ensures
            r.wf(),
            r.req() == Map::<usize, Seq<usize>>::empty(),
            r.roots() == Set::<usize>::empty(),
            r.worlds() == Set::<usize>::empty(),
            r.needed() == Set::<usize>::empty(),
    {
        let r = CulDeSac {
            roots: Vec::new(),
            requires: HashMap::new(),
            keys: Vec::new(),
            needed: HashSet::new(),
            worlds: HashSet::new(),
        };
        proof {
            assert(r.req() =~= Map::<usize, Seq<usize>>::empty());
            assert(r.roots() =~= Set::<usize>::empty());
        }
        r
    }

    /// Takes note of an operation: what each result needs, and, for a
    /// call of a world block, the call and its arguments.
    pub fn add_oper(&mut self, bt: &BuildTree, bi: &HashMap<usize, usize>, oper: &Operation)
        requires
            old(self).wf(),
            lookups_ok(bt.definitions@, bi@, seq![*oper]),
        ensures
            final(self).wf(),
            final(self).needed() == old(self).needed(),
            final(self).req() == match oper.value {
                OperationValue::Code(_, _, rets, args) => old(self).req().union_prefer_right(
                    Map::new(|r: usize| rets@.contains(r), |r: usize| args@),
                ),
                _ => old(self).req(),
            },
            world_call(bt.definitions@, bi@, *oper) ==> final(self).roots() == old(self).roots().union(call_args(*oper).to_set())
                && final(self).worlds() == old(self).worlds().insert(call_index(*oper)),
            !world_call(bt.definitions@, bi@, *oper) ==> final(self).roots() == old(self).roots() && final(self).worlds()
                == old(self).worlds(),
    {
        match &oper.value {
            OperationValue::Constant(_, _) => {},
            OperationValue::Code(call, name, rets, args) => {
                proof {
                    assert(seq![*oper][0] == *oper);
                }
                let block = get_block(bt, bi, *call, *name);
                if block.is_world() {
                    self.worlds.insert(*call);
                    let ghost before = self.roots@;
                    let ghost snap = *self;
                    let mut i: usize = 0;
                    while i < args.len()
                        invariant
                            i <= args@.len(),
                            self.roots@ == before + args@.take(i as int),
                            self.requires == snap.requires,
                            self.keys == snap.keys,
                            self.needed == snap.needed,
                            self.worlds == snap.worlds,
                        decreases args@.len() - i,
                    {
                        self.roots.push(args[i]);
                        i += 1;
                        proof {
                            assert(self.roots@ =~= before + args@.take(i as int));
                        }
                    }
                    proof {
                        assert(args@.take(i as int) =~= args@);
                        assert((before + args@).to_set() =~= before.to_set().union(args@.to_set())) by {
                            assert forall|x: usize| (before + args@).to_set().contains(x) <==> before.to_set().union(args@.to_set()).contains(x) by {
                                if (before + args@).contains(x) {
                                    let k = choose|k: int| 0 <= k < (before + args@).len() && (before + args@)[k] == x;
                                    if k < before.len() {
                                        assert(before[k] == x);
                                    } else {
                                        assert(args@[k - before.len()] == x);
                                    }
                                }
                                if before.contains(x) {
                                    let k = choose|k: int| 0 <= k < before.len() && before[k] == x;
                                    assert((before + args@)[k] == x);
                                }
                                if args@.contains(x) {
                                    let k = choose|k: int| 0 <= k < args@.len() && args@[k] == x;
                                    assert((before + args@)[before.len() + k] == x);
                                }
                            }
                        }
                    }
                }
                let ghost start = self.req();
                let ghost snap2 = *self;
                let mut i: usize = 0;
                while i < rets.len()
                    invariant
                        self.wf(),
                        self.roots == snap2.roots,
                        self.needed == snap2.needed,
                        self.worlds == snap2.worlds,
                        i <= rets@.len(),
                        self.req() == start.union_prefer_right(
                            Map::new(|r: usize| rets@.take(i as int).contains(r), |r: usize| args@),
                        ),
                    decreases rets@.len() - i,
                {
                    let ret = rets[i];
                    let copy = copy_regs(args);
                    let fresh = !self.requires.contains_key(&ret);
                    let ghost before_keys = self.keys@;
                    let ghost prev = self.req();
                    self.requires.insert(ret, copy);
                    if fresh {
                        self.keys.push(ret);
                    }
                    i += 1;
                    proof {
                        assert(rets@.take(i as int) == rets@.take(i - 1).push(ret));
                        assert forall|k: usize| #[trigger] self.keys@.contains(k) <==> self.requires@.contains_key(k) by {
                            if fresh {
                                vstd::seq_lib::lemma_seq_contains_after_push(before_keys, ret, k);
                            }
                        }
                        if fresh {
                            assert(!before_keys.contains(ret));
                            assert forall|a: int, b: int| 0 <= a < self.keys@.len() && 0 <= b < self.keys@.len() && a != b
                                implies self.keys@[a] != self.keys@[b] by {
                                if a == before_keys.len() {
                                    assert(before_keys.contains(self.keys@[b]));
                                } else if b == before_keys.len() {
                                    assert(before_keys.contains(self.keys@[a]));
                                } else {
                                    assert(self.keys@[a] == before_keys[a] && self.keys@[b] == before_keys[b]);
                                }
                            }
                        }
                        assert forall|r: usize| rets@.take(i as int).contains(r) <==> (rets@.take(i - 1).contains(r) || r == ret) by {
                            vstd::seq_lib::lemma_seq_contains_after_push(rets@.take(i - 1), ret, r);
                        }
                        let target = start.union_prefer_right(
                            Map::new(|r: usize| rets@.take(i as int).contains(r), |r: usize| args@),
                        );
                        let target_prev = start.union_prefer_right(
                            Map::new(|r: usize| rets@.take(i - 1).contains(r), |r: usize| args@),
                        );
                        assert(prev == target_prev);
                        assert forall|k: usize| #[trigger] self.req().contains_key(k) <==> target.contains_key(k) by {
                            assert(self.req().contains_key(k) <==> (prev.contains_key(k) || k == ret));
                        }
                        assert forall|k: usize| #[trigger] self.req().contains_key(k) implies self.req()[k] == target[k] by {
                            if k == ret {
                                assert(self.req()[k] == copy@);
                            } else {
                                assert(self.req()[k] == prev[k]);
                            }
                        }
                        assert(self.req() =~= target);
                    }
                }
                proof {
                    assert(rets@.take(i as int) =~= rets@);
                }
            },
        }
    }

    /// Finds every register that a root needs, directly or not.
    pub fn iterate_roots(&mut self)
        requires
            old(self).wf(),
            old(self).needed() == Set::<usize>::empty(),
        ensures
            final(self).wf(),
            final(self).req() == old(self).req(),
            final(self).roots() == old(self).roots(),
            final(self).worlds() == old(self).worlds(),
            final(self).needed() == needed_from(old(self).req(), old(self).roots()),
    {
        let ghost req = self.req();
        let ghost roots = self.roots();
        let ghost g = needs(req);
        let mut stack = copy_regs(&self.roots);
        proof {
            assert forall|x: usize| #[trigger] stack@.contains(x) implies needed_from(req, roots).contains(x) by {
                lemma_reaches_self(g, x);
                assert(roots.contains(x));
            }
        }
        let ghost snap = *self;
        while stack.len() > 0
            invariant
                self.wf(),
                self.requires == snap.requires,
                self.keys == snap.keys,
                self.roots == snap.roots,
                self.worlds == snap.worlds,
                req == self.req(),
                roots == self.roots(),
                g == needs(req),
                forall|x: usize| #[trigger] self.needed@.contains(x) ==> needed_from(req, roots).contains(x),
                forall|x: usize| #[trigger] stack@.contains(x) ==> needed_from(req, roots).contains(x),
                forall|x: usize| #[trigger] roots.contains(x) ==> self.needed@.contains(x) || stack@.contains(x),
                forall|x: usize, y: usize| #[trigger] self.needed@.contains(x) && req.contains_key(x) && #[trigger] req[x].contains(y)
                    ==> self.needed@.contains(y) || stack@.contains(y),
            decreases pending_weight(self.keys@, req, self.needed@), stack@.len(),
        {
            let ghost before_stack = stack@;
            let ghost before_needed = self.needed@;
            let r = stack.pop().unwrap();
            proof {
                assert(before_stack.contains(r)) by {
                    assert(before_stack[before_stack.len() - 1] == r);
                }
                assert(stack@ == before_stack.drop_last());
                assert forall|x: usize| #[trigger] before_stack.contains(x) implies stack@.contains(x) || x == r by {
                    let k = choose|k: int| 0 <= k < before_stack.len() && before_stack[k] == x;
                    if k < before_stack.len() - 1 {
                        assert(stack@[k] == x);
                    }
                }
                assert forall|x: usize| #[trigger] stack@.contains(x) implies before_stack.contains(x) by {
                    let k = choose|k: int| 0 <= k < stack@.len() && stack@[k] == x;
                    assert(before_stack[k] == x);
                }
            }
            if !self.needed.contains(&r) {
                self.needed.insert(r);
                proof {
                    lemma_weight_insert(self.keys@, req, before_needed, r);
                }
                match self.requires.get(&r) {
                    Some(kids) => {
                        let ghost mid = stack@;
                        let mut j: usize = 0;
                        while j < kids.len()
                            invariant
                                j <= kids@.len(),
                                stack@ == mid + kids@.take(j as int),
                            decreases kids@.len() - j,
                        {
                            stack.push(kids[j]);
                            j += 1;
                            proof {
                                assert(stack@ =~= mid + kids@.take(j as int));
                            }
                        }
                        proof {
                            assert(kids@.take(j as int) =~= kids@);
                            assert(req.contains_key(r) && req[r] == kids@);
                            assert(self.keys@.contains(r));
                            assert forall|x: usize| #[trigger] stack@.contains(x) <==> (mid.contains(x) || kids@.contains(x)) by {
                                if stack@.contains(x) {
                                    let k = choose|k: int| 0 <= k < stack@.len() && stack@[k] == x;
                                    if k < mid.len() {
                                        assert(mid[k] == x);
                                    } else {
                                        assert(kids@[k - mid.len()] == x);
                                    }
                                }
                                if mid.contains(x) {
                                    let k = choose|k: int| 0 <= k < mid.len() && mid[k] == x;
                                    assert(stack@[k] == x);
                                }
                                if kids@.contains(x) {
                                    let k = choose|k: int| 0 <= k < kids@.len() && kids@[k] == x;
                                    assert(stack@[mid.len() + k] == x);
                                }
                            }
                            assert forall|y: usize| #[trigger] kids@.contains(y) implies needed_from(req, roots).contains(y) by {
                                assert(needed_from(req, roots).contains(r));
                                let root = choose|root: usize| #[trigger] roots.contains(root) && reaches(g, root, r);
                                assert(g(r as int, y as int));
                                lemma_reaches_extend(g, root, r, y);
                            }
                        }
                    },
                    None => {
                        proof {
                            assert(!req.contains_key(r));
                            assert(!self.keys@.contains(r));
                        }
                    },
                }
            }
        }
        proof {
            assert forall|x: usize| #[trigger] self.needed@.contains(x) <==> needed_from(req, roots).contains(x) by {
                if needed_from(req, roots).contains(x) {
                    lemma_closed_holds_needed(req, roots, self.needed@, x);
                }
            }
            assert(self.needed@ =~= needed_from(req, roots));
        }
    }

    /// What is kept of an operation, if anything: a constant whose register
    /// is needed; a call that sets a needed register or calls a world
    /// block, its unneeded results replaced by register 0.
    pub fn keep_oper(&self, oper: &Operation) -> (r: Option<Operation>)
        ensures
            r is Some <==> kept_oper(*oper, self.needed(), self.worlds()),
            r matches Some(o) ==> trimmed(o, *oper, self.needed()),
    {
        match &oper.value {
            OperationValue::Constant(reg, c) => {
                if self.needed.contains(reg) {
                    Some(Operation { position: oper.position.clone(), value: OperationValue::Constant(*reg, copy_full_constant(c)) })
                } else {
                    None
                }
            },
            OperationValue::Code(call, name, dst, src) => {
                let mut any = false;
                let mut dsts: Vec<usize> = Vec::new();
                let mut i: usize = 0;
                while i < dst.len()
                    invariant
                        i <= dst@.len(),
                        any <==> exists|j: int| 0 <= j < i && self.needed@.contains(#[trigger] dst@[j]),
                        dsts@ == dst@.take(i as int).map_values(|x: usize| if self.needed@.contains(x) { x } else { 0usize }),
                    decreases dst@.len() - i,
                {
                    let reg = dst[i];
                    if self.needed.contains(&reg) {
                        any = true;
                        dsts.push(reg);
                    } else {
                        dsts.push(0);
                    }
                    i += 1;
                    proof {
                        assert(dsts@ =~= dst@.take(i as int).map_values(|x: usize| if self.needed@.contains(x) { x } else { 0usize }));
                    }
                }
                proof {
                    assert(dst@.take(i as int) =~= dst@);
                }
                if !any && !self.worlds.contains(call) {
                    return None;
                }
                Some(Operation { position: oper.position.clone(), value: OperationValue::Code(*call, *name, dsts, copy_regs(src)) })
            },
        }
    }
}

/// The block that the call `call` of definition `name` runs.
pub fn get_block<'a>(bt: &'a BuildTree, bi: &HashMap<usize, usize>, call: usize, name: usize) -> (r: &'a CodeBlock)
    requires
        bi@.contains_key(call),
        name < bt.definitions@.len(),
        bt.definitions@[name as int] is Code,
        bi@[call] < code_of(bt.definitions@[name as int]).blocks().len(),
    ensures
        *r == block_of(bt.definitions@, bi@, call, name),
{
    let block_index = match bi.get(&call) {
        Some(b) => *b,
        None => unreached(),
    };
    bt.get_block(name, block_index)
}

/// The operations with dead code removed: those kept, each with its
/// unneeded results replaced by register 0. A register is needed when a
/// call of a world block reads it, or a needed register is set by a call
/// that reads it; the last call that sets a register is the one that
/// counts.
pub fn culdesac(bt: &BuildTree, block_index: &HashMap<usize, usize>, opers: &[Operation]) -> (r: Vec<Operation>)
    requires
        lookups_ok(bt.definitions@, block_index@, opers@),
    ensures
        r@.len() == kept_indexes(opers@, opers@.len() as int, needed_of(bt.definitions@, block_index@, opers@), worlds_of(bt.definitions@, block_index@, opers@)).len(),
        forall|j: int| 0 <= j < r@.len() ==> {
            let k = #[trigger] kept_indexes(opers@, opers@.len() as int, needed_of(bt.definitions@, block_index@, opers@), worlds_of(bt.definitions@, block_index@, opers@))[j];
            &&& 0 <= k < opers@.len()
            &&& trimmed(r@[j], opers@[k], needed_of(bt.definitions@, block_index@, opers@))
        },
{
    let mut c = CulDeSac::new();
    let mut i: usize = 0;
    proof {
        assert(roots_upto(bt.definitions@, block_index@, opers@, 0) =~= Set::<usize>::empty());
        assert(worlds_upto(bt.definitions@, block_index@, opers@, 0) =~= Set::<usize>::empty());
    }
    while i < opers.len()
        invariant
            i <= opers@.len(),
            lookups_ok(bt.definitions@, block_index@, opers@),
            c.wf(),
            c.needed() == Set::<usize>::empty(),
            c.req() == requires_upto(opers@, i as int),
            c.roots() == roots_upto(bt.definitions@, block_index@, opers@, i as int),
            c.worlds() == worlds_upto(bt.definitions@, block_index@, opers@, i as int),
        decreases opers@.len() - i,
    {
        proof {
            assert(seq![opers@[i as int]][0] == opers@[i as int]);
            assert(resolves(bt.definitions@, block_index@, opers@[i as int]));
            assert(lookups_ok(bt.definitions@, block_index@, seq![opers@[i as int]]));
        }
        c.add_oper(bt, block_index, &opers[i]);
        proof {
            let o = opers@[i as int];
            assert forall|r: usize| roots_upto(bt.definitions@, block_index@, opers@, i + 1).contains(r) <==> (roots_upto(bt.definitions@, block_index@, opers@, i as int).contains(r)
                || (world_call(bt.definitions@, block_index@, o) && call_args(o).contains(r))) by {
                if roots_upto(bt.definitions@, block_index@, opers@, i + 1).contains(r) {
                    let k = choose|k: int| 0 <= k < i + 1 && world_call(bt.definitions@, block_index@, #[trigger] opers@[k]) && call_args(opers@[k]).contains(r);
                    if k < i {
                        assert(roots_upto(bt.definitions@, block_index@, opers@, i as int).contains(r));
                    }
                }
            }
            assert forall|x: usize| worlds_upto(bt.definitions@, block_index@, opers@, i + 1).contains(x) <==> (worlds_upto(bt.definitions@, block_index@, opers@, i as int).contains(x)
                || (world_call(bt.definitions@, block_index@, o) && call_index(o) == x)) by {
                if worlds_upto(bt.definitions@, block_index@, opers@, i + 1).contains(x) {
                    let k = choose|k: int| 0 <= k < i + 1 && world_call(bt.definitions@, block_index@, #[trigger] opers@[k]) && call_index(opers@[k]) == x;
                    if k < i {
                        assert(worlds_upto(bt.definitions@, block_index@, opers@, i as int).contains(x));
                    }
                }
            }
            if world_call(bt.definitions@, block_index@, o) {
                assert(c.roots() =~= roots_upto(bt.definitions@, block_index@, opers@, i + 1));
                assert(c.worlds() =~= worlds_upto(bt.definitions@, block_index@, opers@, i + 1));
            } else {
                assert(c.roots() =~= roots_upto(bt.definitions@, block_index@, opers@, i + 1));
                assert(c.worlds() =~= worlds_upto(bt.definitions@, block_index@, opers@, i + 1));
            }
        }
        i += 1;
    }
    c.iterate_roots();
    let ghost needed = needed_of(bt.definitions@, block_index@, opers@);
    let ghost worlds = worlds_of(bt.definitions@, block_index@, opers@);
    let mut out: Vec<Operation> = Vec::new();
    let mut i: usize = 0;
    while i < opers.len()
        invariant
            i <= opers@.len(),
            c.needed() == needed,
            c.worlds() == worlds,
            out@.len() == kept_indexes(opers@, i as int, needed, worlds).len(),
            forall|j: int| 0 <= j < kept_indexes(opers@, i as int, needed, worlds).len() ==> 0 <= #[trigger] kept_indexes(opers@, i as int, needed, worlds)[j] < i,
            forall|j: int| 0 <= j < out@.len() ==> trimmed(out@[j], opers@[#[trigger] kept_indexes(opers@, i as int, needed, worlds)[j]], needed),
        decreases opers@.len() - i,
    {
        let ghost before = out@;
        match c.keep_oper(&opers[i]) {
            Some(o) => {
                out.push(o);
            },
            None => {},
        }
        i += 1;
        proof {
            assert forall|j: int| 0 <= j < out@.len() implies trimmed(out@[j], opers@[#[trigger] kept_indexes(opers@, i as int, needed, worlds)[j]], needed) by {
                if j < before.len() {
                    assert(out@[j] == before[j]);
                    assert(kept_indexes(opers@, i as int, needed, worlds)[j] == kept_indexes(opers@, i - 1, needed, worlds)[j]);
                }
            }
        }
    }
    out
}

/// A copy of a list of registers.
fn copy_regs(v: &Vec<usize>) -> (r: Vec<usize>)
    ensures
        r@ == v@,
{
    let mut r: Vec<usize> = Vec::new();
    let mut i: usize = 0;
    while i < v.len()
        invariant
            i <= v@.len(),
            r@ == v@.take(i as int),
        decreases v@.len() - i,
    {
        r.push(v[i]);
        i += 1;
        proof {
            assert(r@ =~= v@.take(i as int));
        }
    }
    proof {
        assert(v@.take(i as int) =~= v@);
    }
    r
}

} // verus!
