//! The scopes of bundle names met while unbundling, and the bundles they
//! name.

use vstd::prelude::*;
use crate::names::{names, distinct, insert_name, remove_name, insert_names, copy_names};
use crate::text::owned;

verus! {

/// What names a bundle: a name written in the source, or a register.
#[derive(Clone, Debug)]
pub enum BundleKey {
    Name(String),
    Register(usize),
}

/// The abstract value of a bundle key.
pub enum BundleKeyView {
    Name(Seq<char>),
    Register(usize),
}

/// The abstract value of a bundle key.
pub open spec fn key_view(k: BundleKey) -> BundleKeyView {
    match k {
        BundleKey::Name(s) => BundleKeyView::Name(s@),
        BundleKey::Register(r) => BundleKeyView::Register(r),
    }
}

/// Whether two keys are equal.
fn same_key(a: &BundleKey, b: &BundleKey) -> (r: bool)
    ensures
        r == (key_view(*a) == key_view(*b)),
{
    match (a, b) {
        (BundleKey::Name(x), BundleKey::Name(y)) => *x == *y,
        (BundleKey::Register(x), BundleKey::Register(y)) => *x == *y,
        _ => false,
    }
}

/// A copy of a key.
fn copy_key(a: &BundleKey) -> (r: BundleKey)
    ensures
        key_view(r) == key_view(*a),
{
    match a {
        BundleKey::Name(x) => BundleKey::Name(x.clone()),
        BundleKey::Register(x) => BundleKey::Register(*x),
    }
}

/// A bundle: the names it uses, and whether it is dead.
pub struct Bundle {
    debug_name: BundleKey,
    used: Vec<String>,
    dead: bool,
}

impl Bundle {
    /// The key it was made for.
    pub closed spec fn key(&self) -> BundleKeyView {
        key_view(self.debug_name)
    }

    /// The names used.
    pub closed spec fn used(&self) -> Set<Seq<char>> {
        names(self.used@)
    }

    /// Whether the bundle is dead.
    pub closed spec fn is_dead(&self) -> bool {
        self.dead
    }

    /// The internal invariant.
    pub closed spec fn wf(&self) -> bool {
        distinct(self.used@)
    }

    /// A live bundle for `debug_name`, using nothing.
    pub fn new(debug_name: &BundleKey) -> (r: Bundle)
        ensures
            r.wf(),
            r.key() == key_view(*debug_name),
            r.used() == Set::<Seq<char>>::empty(),
            !r.is_dead(),
    {
        let r = Bundle { debug_name: copy_key(debug_name), used: Vec::new(), dead: false };
        proof {
            assert(names(r.used@) =~= Set::<Seq<char>>::empty());
        }
        r
    }

    /// Marks `name` as used.
    pub fn name_used(&mut self, name: &str)
        requires
            old(self).wf(),
        ensures
            final(self).wf(),
            final(self).used() == old(self).used().insert(name@),
            final(self).key() == old(self).key(),
            final(self).is_dead() == old(self).is_dead(),
    {
        insert_name(&mut self.used, name);
    }

    /// Marks `name` as not used.
    pub fn name_unused(&mut self, name: &str)
        requires
            old(self).wf(),
        ensures
            final(self).wf(),
            final(self).used() == old(self).used().remove(name@),
            final(self).key() == old(self).key(),
            final(self).is_dead() == old(self).is_dead(),
    {
        remove_name(&mut self.used, name);
    }

    /// The names used, once each.
    pub fn names(&self) -> (r: &Vec<String>)
        requires
            self.wf(),
        ensures
            distinct(r@),
            names(r@) == self.used(),
    {
        &self.used
    }

    /// Marks the names of `from` as used.
    pub fn merge(&mut self, from: &Vec<String>)
        requires
            old(self).wf(),
        ensures
            final(self).wf(),
            final(self).used() == old(self).used().union(names(from@)),
            final(self).key() == old(self).key(),
            final(self).is_dead() == old(self).is_dead(),
    {
        insert_names(&mut self.used, from);
    }

    /// Marks the bundle dead, using nothing.
    pub fn kill(&mut self)
        requires
            old(self).wf(),
        ensures
            final(self).wf(),
            final(self).used() == Set::<Seq<char>>::empty(),
            final(self).key() == old(self).key(),
            final(self).is_dead(),
    {
        self.dead = true;
        self.used = Vec::new();
        proof {
            assert(names(self.used@) =~= Set::<Seq<char>>::empty());
        }
    }
}

/// A reference to a bundle of a stack, by index.
#[derive(Clone, Copy, Debug)]
pub struct BundleHandle(pub usize);

/// An index of the key `k` in a level.
pub open spec fn key_index(l: Seq<(BundleKey, usize)>, k: BundleKeyView) -> int {
    choose|i: int| 0 <= i < l.len() && #[trigger] key_view(l[i].0) == k
}

/// The bundles named in a level, by key.
pub open spec fn scope_view(l: Seq<(BundleKey, usize)>) -> Map<BundleKeyView, usize> {
    Map::new(
        |k: BundleKeyView| exists|i: int| 0 <= i < l.len() && #[trigger] key_view(l[i].0) == k,
        |k: BundleKeyView| l[key_index(l, k)].1,
    )
}

/// The keys of a level are distinct.
pub open spec fn scope_wf(l: Seq<(BundleKey, usize)>) -> bool {
    forall|i: int, j: int| 0 <= i < l.len() && 0 <= j < l.len() && i != j ==> key_view(#[trigger] l[i].0) != key_view(
        #[trigger] l[j].0,
    )
}

proof fn lemma_scope_at(l: Seq<(BundleKey, usize)>, idx: int)
    requires
        scope_wf(l),
        0 <= idx < l.len(),
    ensures
        scope_view(l).contains_key(key_view(l[idx].0)),
        scope_view(l)[key_view(l[idx].0)] == l[idx].1,
{
    let k = key_view(l[idx].0);
    assert(exists|i: int| 0 <= i < l.len() && #[trigger] key_view(l[i].0) == k);
    let j = key_index(l, k);
    assert(0 <= j < l.len() && key_view(l[j].0) == k);
}

/// Where `key` stands in a level, if it does.
fn find_scope_key(l: &Vec<(BundleKey, usize)>, key: &BundleKey) -> (r: Option<usize>)
    requires
        scope_wf(l@),
    ensures
        match r {
            Some(i) => i < l@.len() && key_view(l@[i as int].0) == key_view(*key) && scope_view(l@).contains_key(
                key_view(*key),
            ) && scope_view(l@)[key_view(*key)] == l@[i as int].1,
            None => !scope_view(l@).contains_key(key_view(*key)),
        },
{
    let mut i: usize = 0;
    while i < l.len()
        invariant
            scope_wf(l@),
            i <= l@.len(),
            forall|j: int| 0 <= j < i ==> key_view(#[trigger] l@[j].0) != key_view(*key),
        decreases l@.len() - i,
    {
        if same_key(&l[i].0, key) {
            proof {
                lemma_scope_at(l@, i as int);
            }
            return Some(i);
        }
        i += 1;
    }
    None
}

/// The live bundle that `k` names in the innermost of `scopes` that names
/// one, looking outwards.
pub open spec fn outer_find(scopes: Seq<Map<BundleKeyView, usize>>, bundles: Seq<Bundle>, k: BundleKeyView) -> Option<usize>
    decreases scopes.len(),
{
    if scopes.len() == 0 {
        None
    } else {
        let top = scopes.last();
        if top.contains_key(k) && !bundles[top[k] as int].is_dead() {
            Some(top[k])
        } else {
            outer_find(scopes.drop_last(), bundles, k)
        }
    }
}

/// What `outer_find` gives is a live bundle named by its key.
proof fn lemma_outer_live(scopes: Seq<Map<BundleKeyView, usize>>, bundles: Seq<Bundle>, k: BundleKeyView)
    ensures
        outer_find(scopes, bundles, k) matches Some(id) ==> !bundles[id as int].is_dead(),
    decreases scopes.len(),
{
    if scopes.len() > 0 {
        lemma_outer_live(scopes.drop_last(), bundles, k);
    }
}

/// The scopes of the levels `l`.
pub open spec fn scopes_of(l: Seq<Vec<(BundleKey, usize)>>) -> Seq<Map<BundleKeyView, usize>> {
    l.map_values(|v: Vec<(BundleKey, usize)>| scope_view(v@))
}

/// The live bundle that `key` names in the innermost of the levels
/// `names` that names one.
fn find_outer(names: &Vec<Vec<(BundleKey, usize)>>, bundles: &Vec<Bundle>, key: &BundleKey) -> (r: Option<usize>)
    requires
        forall|i: int| 0 <= i < names@.len() ==> scope_wf(#[trigger] names@[i]@),
        forall|i: int, j: int| 0 <= i < names@.len() && 0 <= j < names@[i]@.len() ==> #[trigger] names@[i]@[j].1
            < bundles@.len(),
    ensures
        r == outer_find(scopes_of(names@), bundles@, key_view(*key)),
        r matches Some(id) ==> id < bundles@.len(),
{
    let ghost all = scopes_of(names@);
    let ghost k = key_view(*key);
    let mut i: usize = names.len();
    proof {
        assert(all.take(i as int) =~= all);
    }
    while i > 0
        invariant
            i <= names@.len(),
            all == scopes_of(names@),
            k == key_view(*key),
            forall|a: int| 0 <= a < names@.len() ==> scope_wf(#[trigger] names@[a]@),
            forall|a: int, j: int| 0 <= a < names@.len() && 0 <= j < names@[a]@.len() ==> #[trigger] names@[a]@[j].1
                < bundles@.len(),
            outer_find(all, bundles@, k) == outer_find(all.take(i as int), bundles@, k),
        decreases i,
    {
        let ghost t = all.take(i as int);
        proof {
            assert(t.last() == scope_view(names@[i - 1]@));
            assert(t.drop_last() =~= all.take(i - 1));
        }
        match find_scope_key(&names[i - 1], key) {
            Some(j) => {
                let id = names[i - 1][j].1;
                proof {
                    assert(names@[i - 1]@[j as int].1 < bundles@.len());
                }
                if !bundles[id].dead {
                    return Some(id);
                }
            },
            None => {},
        }
        i -= 1;
    }
    None
}

/// A stack of scopes naming bundles, and the bundles themselves.
pub struct BundleStack {
    names: Vec<Vec<(BundleKey, usize)>>,
    bundles: Vec<Bundle>,
}

impl BundleStack {
    /// The scopes, outermost first: the bundle index of each key.
    pub closed spec fn scopes(&self) -> Seq<Map<BundleKeyView, usize>> {
        self.names@.map_values(|l: Vec<(BundleKey, usize)>| scope_view(l@))
    }

    /// The bundles, by index.
    pub closed spec fn bundles(&self) -> Seq<Bundle> {
        self.bundles@
    }

    /// The internal invariant.
    pub closed spec fn wf(&self) -> bool {
        &&& forall|i: int| 0 <= i < self.names@.len() ==> scope_wf(#[trigger] self.names@[i]@)
        &&& forall|i: int, j: int| 0 <= i < self.names@.len() && 0 <= j < self.names@[i]@.len()
            ==> #[trigger] self.names@[i]@[j].1 < self.bundles@.len()
        &&& forall|i: int| 0 <= i < self.bundles@.len() ==> (#[trigger] self.bundles@[i]).wf()
    }

    /// One empty scope and no bundles.
    pub fn new() -> (r: BundleStack)
        ensures
            r.wf(),
            r.scopes() == seq![Map::<BundleKeyView, usize>::empty()],
            r.bundles() == Seq::<Bundle>::empty(),
    {
        let mut names: Vec<Vec<(BundleKey, usize)>> = Vec::new();
        names.push(Vec::new());
        let r = BundleStack { names, bundles: Vec::new() };
        proof {
            assert(scope_view(Seq::<(BundleKey, usize)>::empty()) =~= Map::<BundleKeyView, usize>::empty());
            assert(r.scopes() =~= seq![Map::<BundleKeyView, usize>::empty()]);
        }
        r
    }

    /// Opens an empty inner scope.
    pub fn push_level(&mut self)
        requires
            old(self).wf(),
        ensures
            final(self).wf(),
            final(self).scopes() == old(self).scopes().push(Map::empty()),
            final(self).bundles() == old(self).bundles(),
    {
        let ghost before = self.names@;
        self.names.push(Vec::new());
        proof {
            assert(scope_view(Seq::<(BundleKey, usize)>::empty()) =~= Map::<BundleKeyView, usize>::empty());
            assert(self.scopes() =~= old(self).scopes().push(Map::empty()));
            assert forall|i: int| 0 <= i < self.names@.len() implies scope_wf(#[trigger] self.names@[i]@) by {
                if i < before.len() {
                    assert(self.names@[i] == before[i]);
                }
            }
            assert forall|i: int, j: int| 0 <= i < self.names@.len() && 0 <= j < self.names@[i]@.len()
                implies #[trigger] self.names@[i]@[j].1 < self.bundles@.len() by {
                assert(self.names@[i] == before[i]);
            }
        }
    }

    /// Closes the innermost scope, if any.
    pub fn pop_level(&mut self)
        requires
            old(self).wf(),
        ensures
            final(self).wf(),
            final(self).scopes() == if old(self).scopes().len() == 0 {
                old(self).scopes()
            } else {
                old(self).scopes().drop_last()
            },
            final(self).bundles() == old(self).bundles(),
    {
        self.names.pop();
        proof {
            if old(self).names@.len() > 0 {
                assert(self.names@ =~= old(self).names@.drop_last());
                assert(self.scopes() =~= old(self).scopes().drop_last());
            }
        }
    }

    /// A new live bundle named by no scope, called `_`.
    pub fn new_anon_bundle(&mut self) -> (r: BundleHandle)
        requires
            old(self).wf(),
        ensures
            final(self).wf(),
            final(self).scopes() == old(self).scopes(),
            r.0 == old(self).bundles().len(),
            final(self).bundles().len() == old(self).bundles().len() + 1,
            final(self).bundles().drop_last() == old(self).bundles(),
            final(self).bundles().last().key() == BundleKeyView::Name("_"@),
            final(self).bundles().last().used() == Set::<Seq<char>>::empty(),
            !final(self).bundles().last().is_dead(),
    {
        let bundle = Bundle::new(&BundleKey::Name(owned("_")));
        let id = self.bundles.len();
        self.bundles.push(bundle);
        proof {
            assert(self.bundles() =~= old(self).bundles().push(bundle));
            assert(self.bundles().drop_last() =~= old(self).bundles());
            assert forall|i: int| 0 <= i < self.bundles@.len() implies (#[trigger] self.bundles@[i]).wf() by {
                if i < id {
                    assert(self.bundles@[i] == old(self).bundles@[i]);
                }
            }
        }
        BundleHandle(id)
    }

    /// The bundle that `key` names. A key of the innermost scope that names
    /// a dead bundle is first forgotten there; a key the innermost scope
    /// misses is looked up in the outer scopes, innermost first; with
    /// `force`, a key that names no live bundle anywhere is given a new one
    /// in the innermost scope.
    #[verifier::spinoff_prover]
    pub fn get(&mut self, key: BundleKey, force: bool) -> (r: Option<BundleHandle>)
        requires
            old(self).wf(),
            old(self).scopes().len() > 0,
        ensures
            final(self).wf(),
            final(self).scopes().len() == old(self).scopes().len(),
            final(self).scopes().drop_last() == old(self).scopes().drop_last(),
            r matches Some(h) ==> h.0 < final(self).bundles().len(),
            ({
                let top = old(self).scopes().last();
                let k = key_view(key);
                let live = top.contains_key(k) && !old(self).bundles()[top[k] as int].is_dead();
                if live {
                    &&& r == Some(BundleHandle(top[k]))
                    &&& final(self).scopes().last() == top
                    &&& final(self).bundles() == old(self).bundles()
                } else if outer_find(old(self).scopes().drop_last(), old(self).bundles(), k) is Some {
                    &&& r == Some(BundleHandle(outer_find(old(self).scopes().drop_last(), old(self).bundles(), k)->0))
                    &&& final(self).scopes().last() == top.remove(k)
                    &&& final(self).bundles() == old(self).bundles()
                } else if force {
                    &&& r is Some
                    &&& r.unwrap().0 == old(self).bundles().len()
                    &&& final(self).scopes().last() == top.insert(k, r.unwrap().0)
                    &&& final(self).bundles().len() == old(self).bundles().len() + 1
                    &&& final(self).bundles().drop_last() == old(self).bundles()
                    &&& final(self).bundles().last().key() == k
                    &&& final(self).bundles().last().used() == Set::<Seq<char>>::empty()
                    &&& !final(self).bundles().last().is_dead()
                } else {
                    &&& r is None
                    &&& final(self).scopes().last() == top.remove(k)
                    &&& final(self).bundles() == old(self).bundles()
                }
            }),
    {
        let ghost old_self = *self;
        let mut lookup = self.names.pop().unwrap();
        let ghost n = old_self.names@.len();
        proof {
            assert(scope_wf(old_self.names@[n - 1]@));
            assert(lookup == old_self.names@[n - 1]);
        }
        let ghost top0 = lookup@;
        let found = find_scope_key(&lookup, &key);
        let mut live = false;
        match found {
            Some(i) => {
                let id = lookup[i].1;
                proof {
                    assert(old_self.names@[n - 1]@[i as int].1 < old_self.bundles@.len());
                }
                if self.bundles[id].dead {
                    lookup.remove(i);
                    proof {
                        assert forall|a: int, b: int| 0 <= a < lookup@.len() && 0 <= b < lookup@.len() && a != b
                            implies key_view(#[trigger] lookup@[a].0) != key_view(#[trigger] lookup@[b].0) by {
                            let a2 = if a < i { a } else { a + 1 };
                            let b2 = if b < i { b } else { b + 1 };
                            assert(lookup@[a] == top0[a2] && lookup@[b] == top0[b2]);
                        }
                        assert forall|k: BundleKeyView| #[trigger] scope_view(lookup@).contains_key(k) <==> scope_view(top0).remove(key_view(key)).contains_key(k) by {
                            if scope_view(lookup@).contains_key(k) {
                                let j = choose|j: int| 0 <= j < lookup@.len() && #[trigger] key_view(lookup@[j].0) == k;
                                let j2 = if j < i { j } else { j + 1 };
                                assert(lookup@[j] == top0[j2]);
                                lemma_scope_at(top0, j2);
                            }
                            if scope_view(top0).contains_key(k) && k != key_view(key) {
                                let j = choose|j: int| 0 <= j < top0.len() && #[trigger] key_view(top0[j].0) == k;
                                assert(j != i);
                                let j2 = if j < i { j } else { j - 1 };
                                assert(lookup@[j2] == top0[j]);
                            }
                        }
                        assert forall|k: BundleKeyView| #[trigger] scope_view(lookup@).contains_key(k) implies scope_view(lookup@)[k] == scope_view(top0).remove(key_view(key))[k] by {
                            let j = choose|j: int| 0 <= j < lookup@.len() && #[trigger] key_view(lookup@[j].0) == k;
                            let j2 = if j < i { j } else { j + 1 };
                            assert(lookup@[j] == top0[j2]);
                            lemma_scope_at(top0, j2);
                            lemma_scope_at(lookup@, j);
                        }
                        assert(scope_view(lookup@) =~= scope_view(top0).remove(key_view(key)));
                    }
                } else {
                    live = true;
                }
            },
            None => {},
        }
        let ghost top1 = lookup@;
        proof {
            assert(!live ==> !scope_view(top1).contains_key(key_view(key)));
            assert(self.names@ =~= old_self.names@.drop_last());
            assert(scopes_of(self.names@) =~= old_self.scopes().drop_last());
        }
        let outer = if live { None } else { find_outer(&self.names, &self.bundles, &key) };
        if !live && outer.is_some() {
            self.names.push(lookup);
            proof {
                assert(self.names@ =~= old_self.names@.drop_last().push(lookup));
                assert(self.scopes().drop_last() =~= old_self.scopes().drop_last());
                assert forall|i: int| 0 <= i < self.names@.len() implies scope_wf(#[trigger] self.names@[i]@) by {
                    if i < n - 1 {
                        assert(self.names@[i] == old_self.names@[i]);
                    }
                }
                assert forall|i: int, j: int| 0 <= i < self.names@.len() && 0 <= j < self.names@[i]@.len()
                    implies #[trigger] self.names@[i]@[j].1 < self.bundles@.len() by {
                    if i < n - 1 {
                        assert(self.names@[i] == old_self.names@[i]);
                    } else if found is Some {
                        let fi = found->0;
                        let j2 = if j < fi { j } else { j + 1 };
                        assert(lookup@[j] == top0[j2]);
                        assert(old_self.names@[n - 1]@[j2].1 < old_self.bundles@.len());
                    } else {
                        assert(lookup@[j] == top0[j]);
                        assert(old_self.names@[n - 1]@[j].1 < old_self.bundles@.len());
                    }
                }
                if found is Some {
                    let fi = found->0;
                    lemma_scope_at(top0, fi as int);
                }
            }
            return match outer {
                Some(id) => Some(BundleHandle(id)),
                None => None,
            };
        }
        if !live && force {
            let bundle = Bundle::new(&key);
            let id = self.bundles.len();
            self.bundles.push(bundle);
            lookup.push((copy_key(&key), id));
            proof {
                assert forall|a: int, b: int| 0 <= a < lookup@.len() && 0 <= b < lookup@.len() && a != b
                    implies key_view(#[trigger] lookup@[a].0) != key_view(#[trigger] lookup@[b].0) by {
                    if a < top1.len() && b < top1.len() {
                        assert(lookup@[a] == top1[a] && lookup@[b] == top1[b]);
                    } else if a < top1.len() {
                        assert(lookup@[a] == top1[a]);
                        lemma_scope_at(top1, a);
                    } else {
                        assert(lookup@[b] == top1[b]);
                        lemma_scope_at(top1, b);
                    }
                }
                assert forall|k: BundleKeyView| #[trigger] scope_view(lookup@).contains_key(k) <==> scope_view(top1).insert(key_view(key), id).contains_key(k) by {
                    if scope_view(lookup@).contains_key(k) && k != key_view(key) {
                        let j = choose|j: int| 0 <= j < lookup@.len() && #[trigger] key_view(lookup@[j].0) == k;
                        assert(lookup@[j] == top1[j]);
                    }
                    if scope_view(top1).contains_key(k) {
                        let j = choose|j: int| 0 <= j < top1.len() && #[trigger] key_view(top1[j].0) == k;
                        assert(lookup@[j] == top1[j]);
                    }
                    if k == key_view(key) {
                        assert(key_view(lookup@[top1.len() as int].0) == k);
                    }
                }
                assert forall|k: BundleKeyView| #[trigger] scope_view(lookup@).contains_key(k) implies scope_view(lookup@)[k] == scope_view(top1).insert(key_view(key), id)[k] by {
                    let j = choose|j: int| 0 <= j < lookup@.len() && #[trigger] key_view(lookup@[j].0) == k;
                    lemma_scope_at(lookup@, j);
                    if j < top1.len() {
                        assert(lookup@[j] == top1[j]);
                        lemma_scope_at(top1, j);
                    }
                }
                assert(scope_view(lookup@) =~= scope_view(top1).insert(key_view(key), id));
            }
        }
        let ghost top2 = lookup@;
        let r = match find_scope_key(&lookup, &key) {
            Some(i) => Some(BundleHandle(lookup[i].1)),
            None => None,
        };
        self.names.push(lookup);
        proof {
            assert(self.names@ =~= old_self.names@.drop_last().push(lookup));
            assert(self.scopes().drop_last() =~= old_self.scopes().drop_last());
            assert forall|i: int| 0 <= i < self.names@.len() implies scope_wf(#[trigger] self.names@[i]@) by {
                if i < n - 1 {
                    assert(self.names@[i] == old_self.names@[i]);
                }
            }
            assert forall|i: int| 0 <= i < self.bundles@.len() implies (#[trigger] self.bundles@[i]).wf() by {
                if i < old_self.bundles@.len() {
                    assert(self.bundles@[i] == old_self.bundles@[i]);
                }
            }
            assert forall|i: int, j: int| 0 <= i < self.names@.len() && 0 <= j < self.names@[i]@.len()
                implies #[trigger] self.names@[i]@[j].1 < self.bundles@.len() by {
                if i < n - 1 {
                    assert(self.names@[i] == old_self.names@[i]);
                } else {
                    lemma_scope_at(lookup@, j);
                    if !(!live && force) || j < top1.len() {
                        if found is Some && !live {
                            let fi = found->0;
                            let j2 = if j < fi { j } else { j + 1 };
                            assert(lookup@[j] == top0[j2]);
                            assert(old_self.names@[n - 1]@[j2].1 < old_self.bundles@.len());
                        } else {
                            assert(lookup@[j] == top0[j]);
                            assert(old_self.names@[n - 1]@[j].1 < old_self.bundles@.len());
                        }
                    }
                }
            }
            if found is Some {
                let fi = found->0;
                lemma_scope_at(top0, fi as int);
            }
        }
        r
    }

    /// The bundle of the name `name`, looked up as `get` does, made in
    /// the innermost scope if no scope names a live one.
    pub fn get_by_name(&mut self, name: &str) -> (r: BundleHandle)
        requires
            old(self).wf(),
            old(self).scopes().len() > 0,
        ensures
            final(self).wf(),
            final(self).scopes().len() == old(self).scopes().len(),
            final(self).scopes().drop_last() == old(self).scopes().drop_last(),
            r.0 < final(self).bundles().len(),
            !final(self).bundles()[r.0 as int].is_dead(),
            ({
                let top = old(self).scopes().last();
                let k = BundleKeyView::Name(name@);
                let outer = outer_find(old(self).scopes().drop_last(), old(self).bundles(), k);
                if top.contains_key(k) && !old(self).bundles()[top[k] as int].is_dead() {
                    r.0 == top[k] && final(self).bundles() == old(self).bundles() && final(self).scopes().last() == top
                } else if outer is Some {
                    r.0 == outer->0 && final(self).bundles() == old(self).bundles()
                        && final(self).scopes().last() == top.remove(k)
                } else {
                    r.0 == old(self).bundles().len() && final(self).bundles().drop_last() == old(self).bundles()
                        && final(self).bundles().last().used() == Set::<Seq<char>>::empty()
                        && final(self).scopes().last() == top.insert(k, r.0)
                }
            }),
    {
        let r = self.get(BundleKey::Name(owned(name)), true);
        proof {
            let k = BundleKeyView::Name(name@);
            lemma_outer_live(old(self).scopes().drop_last(), old(self).bundles(), k);
        }
        r.unwrap()
    }

    /// The bundle of register `reg`, looked up as `get` does, made in the
    /// innermost scope if no scope names a live one.
    pub fn get_by_register(&mut self, reg: usize) -> (r: BundleHandle)
        requires
            old(self).wf(),
            old(self).scopes().len() > 0,
        ensures
            final(self).wf(),
            final(self).scopes().len() == old(self).scopes().len(),
            final(self).scopes().drop_last() == old(self).scopes().drop_last(),
            ({
                let top = old(self).scopes().last();
                let k = BundleKeyView::Register(reg);
                let outer = outer_find(old(self).scopes().drop_last(), old(self).bundles(), k);
                if top.contains_key(k) && !old(self).bundles()[top[k] as int].is_dead() {
                    r.0 == top[k] && final(self).bundles() == old(self).bundles() && final(self).scopes().last() == top
                } else if outer is Some {
                    r.0 == outer->0 && final(self).bundles() == old(self).bundles()
                        && final(self).scopes().last() == top.remove(k)
                } else {
                    r.0 == old(self).bundles().len() && final(self).bundles().drop_last() == old(self).bundles()
                        && final(self).bundles().last().used() == Set::<Seq<char>>::empty()
                        && final(self).scopes().last() == top.insert(k, r.0)
                }
            }),
    {
        self.get(BundleKey::Register(reg), true).unwrap()
    }

    /// The live bundle of register `reg`, looked up as `get` does, if any.
    pub fn try_get_by_register(&mut self, reg: usize) -> (r: Option<BundleHandle>)
        requires
            old(self).wf(),
            old(self).scopes().len() > 0,
        ensures
            final(self).wf(),
            final(self).bundles() == old(self).bundles(),
            final(self).scopes().len() == old(self).scopes().len(),
            final(self).scopes().drop_last() == old(self).scopes().drop_last(),
            ({
                let top = old(self).scopes().last();
                let k = BundleKeyView::Register(reg);
                let outer = outer_find(old(self).scopes().drop_last(), old(self).bundles(), k);
                if top.contains_key(k) && !old(self).bundles()[top[k] as int].is_dead() {
                    r == Some(BundleHandle(top[k])) && final(self).scopes().last() == top
                } else if outer is Some {
                    r == Some(BundleHandle(outer->0)) && final(self).scopes().last() == top.remove(k)
                } else {
                    r is None && final(self).scopes().last() == top.remove(k)
                }
            }),
    {
        self.get(BundleKey::Register(reg), false)
    }

    /// Adds the names used by bundle `from` to bundle `to`.
    pub fn merge(&mut self, to: &BundleHandle, from: &BundleHandle)
        requires
            old(self).wf(),
            to.0 < old(self).bundles().len(),
            from.0 < old(self).bundles().len(),
        ensures
            final(self).wf(),
            final(self).scopes() == old(self).scopes(),
            final(self).bundles().len() == old(self).bundles().len(),
            forall|i: int| 0 <= i < final(self).bundles().len() && i != to.0 ==> #[trigger] final(self).bundles()[i]
                == old(self).bundles()[i],
            final(self).bundles()[to.0 as int].used() == old(self).bundles()[to.0 as int].used().union(
                old(self).bundles()[from.0 as int].used(),
            ),
            final(self).bundles()[to.0 as int].key() == old(self).bundles()[to.0 as int].key(),
            final(self).bundles()[to.0 as int].is_dead() == old(self).bundles()[to.0 as int].is_dead(),
    {
        proof {
            assert(self.bundles@[from.0 as int].wf());
            assert(self.bundles@[to.0 as int].wf());
        }
        let names = copy_names(self.bundles[from.0].names());
        let ghost before = self.bundles@;
        self.bundles[to.0].merge(&names);
        proof {
            assert forall|i: int| 0 <= i < self.bundles@.len() implies (#[trigger] self.bundles@[i]).wf() by {
                if i != to.0 {
                    assert(self.bundles@[i] == before[i]);
                }
            }
        }
    }

    /// The bundle `handle` refers to, to change.
    pub fn get_mut(&mut self, handle: &BundleHandle) -> (r: &mut Bundle)
        requires
            old(self).wf(),
            handle.0 < old(self).bundles().len(),
        ensures
            *r == old(self).bundles()[handle.0 as int],
            r.wf(),
            final(self).scopes() == old(self).scopes(),
            final(self).bundles() == old(self).bundles().update(handle.0 as int, *final(r)),
            final(r).wf() ==> final(self).wf(),
    {
        &mut self.bundles[handle.0]
    }
}

} // verus!
