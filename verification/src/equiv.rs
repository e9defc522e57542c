//! Equivalence classes of registers held as forests of parent links.
//!
//! Each key that is not a class's representative points to another member
//! of its class; following the links ends at the representative.

use vstd::prelude::*;
use std::collections::{HashMap, HashSet};
use std::marker::PhantomData;

verus! {

broadcast use vstd::std_specs::hash::group_hash_axioms;

/// `m` holds parent links that strictly lower `rank`, and `root` names the
/// end of each chain of links (a value outside the links' keys).
pub open spec fn forest(m: Map<usize, usize>, rank: spec_fn(usize) -> nat, root: spec_fn(usize) -> usize) -> bool {
    &&& forall|x: usize| #[trigger] m.dom().contains(x) ==> rank(m[x]) < rank(x) && root(x) == root(m[x])
    &&& forall|x: usize| !m.dom().contains(x) ==> #[trigger] root(x) == x
    &&& forall|x: usize| !m.dom().contains(#[trigger] root(x))
}

/// The roots after linking the root `lo` under the root `hi`.
pub open spec fn linked_root(root: spec_fn(usize) -> usize, lo: usize, hi: usize) -> spec_fn(usize) -> usize {
    |x: usize| if root(x) == lo { hi } else { root(x) }
}

/// A ranking that fits the links after linking `lo` under `hi`.
pub open spec fn linked_rank(rank: spec_fn(usize) -> nat, root: spec_fn(usize) -> usize, lo: usize, hi: usize) -> spec_fn(usize) -> nat {
    |x: usize| if root(x) == lo { rank(x) + rank(hi) + 1 } else { rank(x) }
}

/// Linking one root under another keeps a forest, and merges the two
/// classes under the second root.
pub proof fn lemma_link(m: Map<usize, usize>, rank: spec_fn(usize) -> nat, root: spec_fn(usize) -> usize, lo: usize, hi: usize)
    requires
        forest(m, rank, root),
        root(lo) == lo,
        root(hi) == hi,
        lo != hi,
    ensures
        forest(m.insert(lo, hi), linked_rank(rank, root, lo, hi), linked_root(root, lo, hi)),
{
    let m2 = m.insert(lo, hi);
    let rank2 = linked_rank(rank, root, lo, hi);
    let root2 = linked_root(root, lo, hi);
    assert(!m.dom().contains(lo)) by {
        assert(!m.dom().contains(root(lo)));
    }
    assert(!m.dom().contains(hi)) by {
        assert(!m.dom().contains(root(hi)));
    }
    assert forall|x: usize| #[trigger] m2.dom().contains(x) implies rank2(m2[x]) < rank2(x) && root2(x) == root2(m2[x]) by {
        if x != lo {
            assert(m.dom().contains(x));
            assert(rank(m[x]) < rank(x) && root(x) == root(m[x]));
        }
    }
    assert forall|x: usize| !m2.dom().contains(x) implies #[trigger] root2(x) == x by {
        assert(root(x) == x);
    }
    assert forall|x: usize| !m2.dom().contains(#[trigger] root2(x)) by {
        assert(!m.dom().contains(root(x)));
        if root(x) == lo {
        } else {
            assert(root(x) != lo);
        }
    }
}

/// Follows the links of `m` from `x` to the end of its chain.
pub(crate) fn chase(m: &HashMap<usize, usize>, x: usize, Ghost(rank): Ghost<spec_fn(usize) -> nat>,
    Ghost(root): Ghost<spec_fn(usize) -> usize>) -> (r: usize)
    requires
        forest(m@, rank, root),
    ensures
        r == root(x),
{
    let mut value = x;
    loop
        invariant
            forest(m@, rank, root),
            root(value) == root(x),
        decreases (if m@.dom().contains(value) { rank(value) + 1 } else { 0 }),
    {
        match m.get(&value) {
            Some(next) => {
                proof {
                    assert(m@.dom().contains(value));
                    assert(rank(m@[value]) < rank(value));
                }
                value = *next;
            },
            None => {
                return value;
            },
        }
    }
}

/// A union of classes of registers: each class keeps one representative,
/// and merging two classes keeps the representative of the first.
pub struct EquivalenceClass {
    equiv: HashMap<usize, usize>,
    keys: Vec<usize>,
    rank: Ghost<spec_fn(usize) -> nat>,
    root: Ghost<spec_fn(usize) -> usize>,
}

impl EquivalenceClass {
    /// The representative of the class of `x`.
    pub closed spec fn find(&self, x: usize) -> usize {
        self.root@(x)
    }

    /// The link held for `x`, if any.
    pub closed spec fn link(&self, x: usize) -> Option<usize> {
        if self.equiv@.dom().contains(x) { Some(self.equiv@[x]) } else { None }
    }

    /// Whether `x` and `y` are in one class.
    pub open spec fn same(&self, x: usize, y: usize) -> bool {
        self.find(x) == self.find(y)
    }

    /// The internal invariant.
    pub closed spec fn wf(&self) -> bool {
        &&& forest(self.equiv@, self.rank@, self.root@)
        &&& self.keys@.no_duplicates()
        &&& forall|x: usize| #[trigger] self.keys@.contains(x) <==> self.equiv@.dom().contains(x)
    }

    /// A value with no link represents its own class.
    pub proof fn lemma_unlinked(&self, x: usize)
        requires
            self.wf(),
            self.link(x) is None,
        ensures
            self.find(x) == x,
    {
    }

    /// Every register alone in its class.
    pub fn new() -> (r: EquivalenceClass)
        ensures
            r.wf(),
            forall|x: usize| #[trigger] r.find(x) == x,
            forall|x: usize| #[trigger] r.link(x) is None,
    {
        EquivalenceClass {
            equiv: HashMap::new(),
            keys: Vec::new(),
            rank: Ghost(|x: usize| 0nat),
            root: Ghost(|x: usize| x),
        }
    }

    /// The representative of the class of `value`.
    pub fn canon(&self, value: usize) -> (r: usize)
        requires
            self.wf(),
        ensures
            r == self.find(value),
            self.find(r) == r,
    {
        chase(&self.equiv, value, Ghost(self.rank@), Ghost(self.root@))
    }

    /// Merges the classes of `a` and `b`; the representative of `a`'s class
    /// represents the merged class.
    pub fn equiv(&mut self, a: usize, b: usize)
        requires
            old(self).wf(),
        ensures
            final(self).wf(),
            forall|x: usize| #[trigger] final(self).find(x) == if old(self).find(x) == old(self).find(b) {
                old(self).find(a)
            } else {
                old(self).find(x)
            },
            final(self).same(a, b),
            final(self).find(a) == old(self).find(a),
    {
        let a = self.canon(a);
        let b = self.canon(b);
        if a != b {
            proof {
                lemma_link(self.equiv@, self.rank@, self.root@, b, a);
            }
            let ghost old_map = self.equiv@;
            let ghost old_keys = self.keys@;
            self.rank = Ghost(linked_rank(self.rank@, self.root@, b, a));
            self.root = Ghost(linked_root(self.root@, b, a));
            self.equiv.insert(b, a);
            self.keys.push(b);
            proof {
                assert(!old_map.dom().contains(b));
                assert(self.equiv@ == old_map.insert(b, a));
                assert forall|x: usize| #[trigger] self.keys@.contains(x) <==> self.equiv@.dom().contains(x) by {
                    vstd::seq_lib::lemma_seq_contains_after_push(old_keys, b, x);
                }
                assert(self.keys@.no_duplicates()) by {
                    assert(!old_keys.contains(b));
                    assert forall|i: int, j: int| 0 <= i < self.keys@.len() && 0 <= j < self.keys@.len() && i != j
                        implies self.keys@[i] != self.keys@[j] by {
                        if i == old_keys.len() {
                            assert(old_keys.contains(self.keys@[j]));
                        } else if j == old_keys.len() {
                            assert(old_keys.contains(self.keys@[i]));
                        } else {
                            assert(self.keys@[i] == old_keys[i] && self.keys@[j] == old_keys[j]);
                        }
                    }
                }
            }
        }
    }

    /// Links every key straight to its representative; the classes stay.
    pub fn build(&mut self)
        requires
            old(self).wf(),
        ensures
            final(self).wf(),
            forall|x: usize| #[trigger] final(self).find(x) == old(self).find(x),
            forall|x: usize| #[trigger] final(self).link(x) == if old(self).link(x) is Some {
                Some(old(self).find(x))
            } else {
                None::<usize>
            },
            forall|x: usize| final(self).link(x) is Some ==> #[trigger] final(self).link(x) == Some(final(self).find(x)),
    {
        let ghost old_self = *self;
        let mut new: HashMap<usize, usize> = HashMap::new();
        let mut i: usize = 0;
        while i < self.keys.len()
            invariant
                *self == old_self,
                old_self.wf(),
                i <= self.keys@.len(),
                forall|x: usize| #[trigger] new@.dom().contains(x) <==> self.keys@.take(i as int).contains(x),
                forall|x: usize| #[trigger] new@.dom().contains(x) ==> new@[x] == self.root@(x),
            decreases self.keys@.len() - i,
        {
            let k = self.keys[i];
            let v = self.canon(k);
            let ghost before = new@;
            new.insert(k, v);
            i += 1;
            proof {
                assert(self.keys@.take(i as int) == self.keys@.take(i - 1).push(k));
                assert forall|x: usize| #[trigger] new@.dom().contains(x) <==> self.keys@.take(i as int).contains(x) by {
                    vstd::seq_lib::lemma_seq_contains_after_push(self.keys@.take(i - 1), k, x);
                }
            }
        }
        proof {
            assert(self.keys@.take(i as int) == self.keys@);
            let m = new@;
            let root = self.root@;
            assert forall|x: usize| #[trigger] m.dom().contains(x) implies
                (|y: usize| if m.dom().contains(y) { 1nat } else { 0nat })(m[x])
                    < (|y: usize| if m.dom().contains(y) { 1nat } else { 0nat })(x)
                && root(x) == root(m[x]) by {
                assert(self.equiv@.dom().contains(x));
                assert(!self.equiv@.dom().contains(root(x)));
                assert(root(root(x)) == root(x));
            }
        }
        self.rank = Ghost(|y: usize| if new@.dom().contains(y) { 1nat } else { 0nat });
        self.equiv = new;
    }

    /// The link held for `k`, or `k` itself when it has none; after
    /// `build`, the representative of its class.
    pub fn get(&self, k: usize) -> (r: usize)
        ensures
            r == match self.link(k) {
                Some(v) => v,
                None => k,
            },
    {
        match self.equiv.get(&k) {
            Some(v) => *v,
            None => k,
        }
    }
}

/// Values kept per class of an equivalence of registers: when two classes
/// merge, or a value is set on a class that has one, the two values are
/// combined with `merge`.
#[verifier::reject_recursive_types(V)]
#[verifier::reject_recursive_types(E)]
pub struct EquivalenceMap<V, E, F: Fn(&V, &V) -> Result<V, E>> {
    merge: F,
    equiv: EquivalenceClass,
    values: HashMap<usize, V>,
    keys: HashSet<usize>,
    error: PhantomData<E>,
}

impl<V, E, F: Fn(&V, &V) -> Result<V, E>> EquivalenceMap<V, E, F> {
    /// The representative of the class of `x`.
    pub closed spec fn find(&self, x: usize) -> usize {
        self.equiv.find(x)
    }

    /// The value held for each representative that has one.
    pub closed spec fn values(&self) -> Map<usize, V> {
        self.values@
    }

    /// Every key named so far.
    pub closed spec fn key_set(&self) -> Set<usize> {
        self.keys@
    }

    /// The function that combines two values.
    pub closed spec fn merger(&self) -> F {
        self.merge
    }

    /// The internal invariant.
    pub closed spec fn wf(&self) -> bool {
        &&& self.equiv.wf()
        &&& forall|a: &V, b: &V| #[trigger] call_requires(self.merge, (a, b))
    }

    /// Every key alone in its class, and no values.
    pub fn new(merge: F) -> (r: Self)
        requires
            forall|a: &V, b: &V| #[trigger] call_requires(merge, (a, b)),
        ensures
            r.wf(),
            r.merger() == merge,
            forall|x: usize| #[trigger] r.find(x) == x,
            r.values() == Map::<usize, V>::empty(),
            r.key_set() == Set::<usize>::empty(),
    {
        EquivalenceMap {
            merge,
            equiv: EquivalenceClass::new(),
            values: HashMap::new(),
            keys: HashSet::new(),
            error: PhantomData,
        }
    }

    /// Merges the classes of `a` and `b` under the representative of `a`.
    /// A value of `b`'s class moves to the merged class, combined as
    /// `merge(a's value, b's value)` where `a`'s class has one too; when
    /// that fails, `b`'s value is dropped and the error returned.
    pub fn equiv(&mut self, a: usize, b: usize) -> (r: Result<(), E>)
        requires
            old(self).wf(),
        ensures
            final(self).wf(),
            final(self).merger() == old(self).merger(),
            final(self).key_set() == old(self).key_set().insert(a).insert(b),
            forall|x: usize| #[trigger] final(self).find(x) == if old(self).find(x) == old(self).find(b) {
                old(self).find(a)
            } else {
                old(self).find(x)
            },
            ({
                let ra = old(self).find(a);
                let rb = old(self).find(b);
                let vs = old(self).values();
                if ra == rb || !vs.contains_key(rb) {
                    r is Ok && final(self).values() == vs
                } else if !vs.contains_key(ra) {
                    r is Ok && final(self).values() == vs.remove(rb).insert(ra, vs[rb])
                } else {
                    match r {
                        Ok(_) => final(self).values() == vs.remove(rb).insert(ra, final(self).values()[ra]) && call_ensures(
                            old(self).merger(),
                            (&vs[ra], &vs[rb]),
                            Ok::<V, E>(final(self).values()[ra]),
                        ),
                        Err(e) => final(self).values() == vs.remove(rb) && call_ensures(
                            old(self).merger(),
                            (&vs[ra], &vs[rb]),
                            Err::<V, E>(e),
                        ),
                    }
                }
            }),
    {
        self.keys.insert(a);
        self.keys.insert(b);
        let ra = self.equiv.canon(a);
        let rb = self.equiv.canon(b);
        self.equiv.equiv(ra, rb);
        if ra != rb {
            let old_b = self.values.remove(&rb);
            match old_b {
                None => {},
                Some(v2) => {
                    let old_a = self.values.remove(&ra);
                    match old_a {
                        None => {
                            self.values.insert(ra, v2);
                        },
                        Some(v1) => {
                            match (self.merge)(&v1, &v2) {
                                Ok(m) => {
                                    self.values.insert(ra, m);
                                },
                                Err(e) => {
                                    self.values.insert(ra, v1);
                                    return Err(e);
                                },
                            }
                        },
                    }
                },
            }
        }
        Ok(())
    }

    /// Sets the value of the class of `key`; where it has one already, the
    /// new value is `merge(value, old value)`, and when that fails nothing
    /// is set and the error returned.
    pub fn set(&mut self, key: usize, value: V) -> (r: Result<(), E>)
        requires
            old(self).wf(),
        ensures
            final(self).wf(),
            final(self).merger() == old(self).merger(),
            final(self).key_set() == old(self).key_set().insert(key),
            forall|x: usize| #[trigger] final(self).find(x) == old(self).find(x),
            ({
                let k = old(self).find(key);
                let vs = old(self).values();
                if !vs.contains_key(k) {
                    r is Ok && final(self).values() == vs.insert(k, value)
                } else {
                    match r {
                        Ok(_) => final(self).values() == vs.insert(k, final(self).values()[k]) && call_ensures(
                            old(self).merger(),
                            (&value, &vs[k]),
                            Ok::<V, E>(final(self).values()[k]),
                        ),
                        Err(e) => final(self).values() == vs && call_ensures(
                            old(self).merger(),
                            (&value, &vs[k]),
                            Err::<V, E>(e),
                        ),
                    }
                }
            }),
    {
        self.keys.insert(key);
        let k = self.equiv.canon(key);
        match self.values.remove(&k) {
            None => {
                self.values.insert(k, value);
            },
            Some(old) => {
                match (self.merge)(&value, &old) {
                    Ok(m) => {
                        self.values.insert(k, m);
                    },
                    Err(e) => {
                        self.values.insert(k, old);
                        return Err(e);
                    },
                }
            },
        }
        Ok(())
    }

    /// The value of the class of `key`, if it has one.
    pub fn get(&self, key: usize) -> (r: Option<&V>)
        requires
            self.wf(),
        ensures
            r == if self.values().contains_key(self.find(key)) {
                Some(&self.values()[self.find(key)])
            } else {
                None
            },
    {
        self.values.get(&self.equiv.canon(key))
    }

    /// Every key named so far.
    pub fn keys(&self) -> (r: &HashSet<usize>)
        ensures
            r@ == self.key_set(),
    {
        &self.keys
    }
}

} // verus!
