//! Bookkeeping used while unbundling: namespaces of bundles, the transits
//! recorded for each call context, and the registers of variables.

use vstd::prelude::*;
use crate::names::{names, distinct, insert_name, remove_name, insert_names, copy_names, lemma_names_push, lemma_names_index};
use crate::text::{owned, same_text, push_str, chars_before, text_before, lemma_chars_order, lemma_chars_before_irreflexive};
use crate::model::Variable;

verus! {

/// A bundle: its name and the names it uses.
pub struct Bundle {
    name: String,
    used: Vec<String>,
}

/// The abstract value of a bundle: its name and the set of names it uses.
pub type BundleView = (Seq<char>, Set<Seq<char>>);

impl Bundle {
    /// The abstract value.
    pub closed spec fn view(&self) -> BundleView {
        (self.name@, names(self.used@))
    }

    /// The internal invariant.
    pub closed spec fn wf(&self) -> bool {
        distinct(self.used@)
    }

    /// A bundle called `name` using nothing.
    pub fn new(name: &str) -> (r: Bundle)
        ensures
            r.wf(),
            r.view() == (name@, Set::<Seq<char>>::empty()),
    {
        let r = Bundle { name: owned(name), used: Vec::new() };
        proof {
            assert(names(r.used@) =~= Set::<Seq<char>>::empty());
        }
        r
    }

    /// The names used, once each.
    pub fn get_used(&self) -> (r: &Vec<String>)
        requires
            self.wf(),
        ensures
            distinct(r@),
            names(r@) == self.view().1,
    {
        &self.used
    }

    /// A copy of this bundle.
    pub fn copy(&self) -> (r: Bundle)
        requires
            self.wf(),
        ensures
            r.wf(),
            r.view() == self.view(),
    {
        Bundle { name: self.name.clone(), used: copy_names(&self.used) }
    }
}

/// The bundles of one level by key, the last entry of a key winning.
pub open spec fn level_view(l: Seq<(String, Bundle)>) -> Map<Seq<char>, BundleView>
    decreases l.len(),
{
    if l.len() == 0 {
        Map::empty()
    } else {
        level_view(l.drop_last()).insert(l.last().0@, l.last().1.view())
    }
}

/// The keys of a level are distinct and its bundles well formed.
pub open spec fn level_wf(l: Seq<(String, Bundle)>) -> bool {
    &&& forall|i: int, j: int| 0 <= i < l.len() && 0 <= j < l.len() && i != j ==> #[trigger] l[i].0@ != #[trigger] l[j].0@
    &&& forall|i: int| 0 <= i < l.len() ==> (#[trigger] l[i]).1.wf()
}

/// Where a key stands in a level, its bundle is what the level holds for it;
/// a key that stands nowhere has no bundle.
proof fn lemma_level_lookup(l: Seq<(String, Bundle)>, key: Seq<char>)
    requires
        level_wf(l),
    ensures
        forall|i: int| 0 <= i < l.len() && #[trigger] l[i].0@ == key ==> level_view(l).contains_key(key)
            && level_view(l)[key] == l[i].1.view(),
        (forall|i: int| 0 <= i < l.len() ==> #[trigger] l[i].0@ != key) ==> !level_view(l).contains_key(key),
    decreases l.len(),
{
    if l.len() > 0 {
        let l2 = l.drop_last();
        assert(level_wf(l2)) by {
            assert forall|i: int, j: int| 0 <= i < l2.len() && 0 <= j < l2.len() && i != j implies #[trigger] l2[i].0@ != #[trigger] l2[j].0@ by {
                assert(l2[i] == l[i] && l2[j] == l[j]);
            }
            assert forall|i: int| 0 <= i < l2.len() implies (#[trigger] l2[i]).1.wf() by {
                assert(l2[i] == l[i]);
            }
        }
        lemma_level_lookup(l2, key);
        assert forall|i: int| 0 <= i < l.len() && #[trigger] l[i].0@ == key implies level_view(l).contains_key(key)
            && level_view(l)[key] == l[i].1.view() by {
            if i < l.len() - 1 {
                assert(l2[i] == l[i]);
                assert(l[l.len() - 1].0@ != key);
            }
        }
        if forall|i: int| 0 <= i < l.len() ==> #[trigger] l[i].0@ != key {
            assert forall|i: int| 0 <= i < l2.len() implies #[trigger] l2[i].0@ != key by {
                assert(l2[i] == l[i]);
            }
            assert(l[l.len() - 1].0@ != key);
        }
    }
}

/// Replacing the bundle of a key that stands at `k` updates the level at
/// that key.
proof fn lemma_level_update(l: Seq<(String, Bundle)>, k: int, e: (String, Bundle))
    requires
        level_wf(l),
        0 <= k < l.len(),
        e.0@ == l[k].0@,
    ensures
        level_view(l.update(k, e)) == level_view(l).insert(e.0@, e.1.view()),
    decreases l.len(),
{
    let l2 = l.update(k, e);
    if k == l.len() - 1 {
        assert(l2.drop_last() =~= l.drop_last());
        assert(level_view(l2) =~= level_view(l).insert(e.0@, e.1.view()));
    } else {
        let d = l.drop_last();
        assert(l2.drop_last() =~= d.update(k, e));
        assert(level_wf(d)) by {
            assert forall|i: int, j: int| 0 <= i < d.len() && 0 <= j < d.len() && i != j implies #[trigger] d[i].0@ != #[trigger] d[j].0@ by {
                assert(d[i] == l[i] && d[j] == l[j]);
            }
            assert forall|i: int| 0 <= i < d.len() implies (#[trigger] d[i]).1.wf() by {
                assert(d[i] == l[i]);
            }
        }
        lemma_level_update(d, k, e);
        assert(l[l.len() - 1].0@ != l[k].0@);
        assert(level_view(l2) =~= level_view(l).insert(e.0@, e.1.view()));
    }
}

/// The index of `key` in a level, if it stands there.
fn find_key(l: &Vec<(String, Bundle)>, key: &str) -> (r: Option<usize>)
    requires
        level_wf(l@),
    ensures
        match r {
            Some(i) => i < l@.len() && l@[i as int].0@ == key@ && level_view(l@).contains_key(key@)
                && level_view(l@)[key@] == l@[i as int].1.view(),
            None => !level_view(l@).contains_key(key@),
        },
{
    let mut i: usize = 0;
    while i < l.len()
        invariant
            level_wf(l@),
            i <= l@.len(),
            forall|j: int| 0 <= j < i ==> #[trigger] l@[j].0@ != key@,
        decreases l@.len() - i,
    {
        if same_text(&l[i].0, key) {
            proof {
                lemma_level_lookup(l@, key@);
                assert(l@[i as int].0@ == key@);
            }
            return Some(i);
        }
        i += 1;
    }
    proof {
        lemma_level_lookup(l@, key@);
    }
    None
}

/// The index of the bundle of `key` in a level, adding a bundle called
/// `name` under it when there is none.
fn entry(l: &mut Vec<(String, Bundle)>, key: &str, name: &str) -> (r: usize)
    requires
        level_wf(old(l)@),
    ensures
        level_wf(final(l)@),
        r < final(l)@.len(),
        final(l)@[r as int].0@ == key@,
        level_view(old(l)@).contains_key(key@) ==> final(l)@ == old(l)@,
        !level_view(old(l)@).contains_key(key@) ==> level_view(final(l)@) == level_view(old(l)@).insert(
            key@,
            (name@, Set::<Seq<char>>::empty()),
        ),
{
    match find_key(l, key) {
        Some(i) => i,
        None => {
            let ghost before = l@;
            proof {
                lemma_level_lookup(before, key@);
            }
            let b = Bundle::new(name);
            let len = l.len();
            l.push((owned(key), b));
            proof {
                assert(l@.drop_last() =~= before);
                assert forall|i: int, j: int| 0 <= i < l@.len() && 0 <= j < l@.len() && i != j
                    implies #[trigger] l@[i].0@ != #[trigger] l@[j].0@ by {
                    if i == before.len() {
                        assert(l@[j] == before[j]);
                    } else if j == before.len() {
                        assert(l@[i] == before[i]);
                    } else {
                        assert(l@[i] == before[i] && l@[j] == before[j]);
                    }
                }
                assert forall|i: int| 0 <= i < l@.len() implies (#[trigger] l@[i]).1.wf() by {
                    if i < before.len() {
                        assert(l@[i] == before[i]);
                    }
                }
            }
            len
        },
    }
}

/// How a change alters the names a bundle uses.
#[derive(Clone, Copy)]
enum Change {
    Clear,
    Remove,
    Add,
    AddAll,
}

/// A stack of levels, each naming bundles by key; only the top level is
/// looked at or changed.
pub struct BundleNamespace {
    bundles: Vec<Vec<(String, Bundle)>>,
}

impl BundleNamespace {
    /// The levels, bottom first.
    pub closed spec fn view(&self) -> Seq<Map<Seq<char>, BundleView>> {
        self.bundles@.map_values(|l: Vec<(String, Bundle)>| level_view(l@))
    }

    /// The internal invariant.
    pub closed spec fn wf(&self) -> bool {
        forall|i: int| 0 <= i < self.bundles@.len() ==> level_wf(#[trigger] self.bundles@[i]@)
    }

    /// One empty level.
    pub fn new() -> (r: BundleNamespace)
        ensures
            r.wf(),
            r.view() == seq![Map::<Seq<char>, BundleView>::empty()],
    {
        let mut bundles: Vec<Vec<(String, Bundle)>> = Vec::new();
        bundles.push(Vec::new());
        let r = BundleNamespace { bundles };
        proof {
            assert(level_view(Seq::<(String, Bundle)>::empty()) =~= Map::empty());
            assert(r.view() =~= seq![Map::<Seq<char>, BundleView>::empty()]);
            assert(level_wf(r.bundles@[0]@));
        }
        r
    }

    /// Adds an empty level on top.
    pub fn push(&mut self)
        requires
            old(self).wf(),
        ensures
            final(self).wf(),
            final(self).view() == old(self).view().push(Map::empty()),
    {
        let ghost before = self.bundles@;
        self.bundles.push(Vec::new());
        proof {
            assert(level_view(Seq::<(String, Bundle)>::empty()) =~= Map::empty());
            assert(self.view() =~= old(self).view().push(Map::empty()));
            assert forall|i: int| 0 <= i < self.bundles@.len() implies level_wf(#[trigger] self.bundles@[i]@) by {
                if i < before.len() {
                    assert(self.bundles@[i] == before[i]);
                }
            }
        }
    }

    /// Drops the top level, if any.
    pub fn pop(&mut self)
        requires
            old(self).wf(),
        ensures
            final(self).wf(),
            final(self).view() == if old(self).view().len() == 0 {
                old(self).view()
            } else {
                old(self).view().drop_last()
            },
    {
        let ghost before = self.bundles@;
        self.bundles.pop();
        proof {
            if before.len() > 0 {
                assert(self.bundles@ =~= before.drop_last());
                assert(self.view() =~= old(self).view().drop_last());
            }
        }
    }

    /// The bundle of `prefix` in the top level.
    pub fn get(&self, prefix: &str) -> (r: Option<&Bundle>)
        requires
            self.wf(),
        ensures
            match r {
                Some(b) => self.view().len() > 0 && self.view().last().contains_key(prefix@)
                    && b.view() == self.view().last()[prefix@] && b.wf(),
                None => self.view().len() == 0 || !self.view().last().contains_key(prefix@),
            },
    {
        let n = self.bundles.len();
        if n == 0 {
            return None;
        }
        let top = &self.bundles[n - 1];
        proof {
            assert(level_wf(top@));
        }
        match find_key(top, prefix) {
            Some(i) => Some(&top[i].1),
            None => None,
        }
    }

    /// Takes the top level out, for a change.
    fn take_top(&mut self) -> (r: Vec<(String, Bundle)>)
        requires
            old(self).wf(),
            old(self).bundles@.len() > 0,
        ensures
            final(self).wf(),
            final(self).bundles@ == old(self).bundles@.drop_last(),
            r == old(self).bundles@.last(),
            level_wf(r@),
    {
        let r = self.bundles.pop().unwrap();
        proof {
            assert(level_wf(old(self).bundles@[old(self).bundles@.len() - 1]@));
        }
        r
    }

    /// Puts a changed top level back.
    fn put_top(&mut self, top: Vec<(String, Bundle)>)
        requires
            old(self).wf(),
            level_wf(top@),
        ensures
            final(self).wf(),
            final(self).bundles@ == old(self).bundles@.push(top),
    {
        let ghost before = self.bundles@;
        self.bundles.push(top);
        proof {
            assert forall|i: int| 0 <= i < self.bundles@.len() implies level_wf(#[trigger] self.bundles@[i]@) by {
                if i < before.len() {
                    assert(self.bundles@[i] == before[i]);
                }
            }
        }
    }

    /// Changes the used names of the bundle of `prefix` in the top level
    /// as `how` says.
    fn change(&mut self, prefix: &str, create: bool, bundle_name: &str, how: Change, name: &str, names_in: &Vec<String>)
        requires
            old(self).wf(),
        ensures
            final(self).wf(),
            final(self).view().len() == old(self).view().len(),
            old(self).view().len() == 0 ==> final(self).view() == old(self).view(),
            old(self).view().len() > 0 ==> {
                let top = old(self).view().last();
                let start: BundleView = if top.contains_key(prefix@) { top[prefix@] } else { (bundle_name@, Set::empty()) };
                let used = match how {
                    Change::Clear => Set::empty(),
                    Change::Remove => start.1.remove(name@),
                    Change::Add => start.1.insert(name@),
                    Change::AddAll => start.1.union(names(names_in@)),
                };
                final(self).view() == if top.contains_key(prefix@) || create {
                    old(self).view().drop_last().push(top.insert(prefix@, (start.0, used)))
                } else {
                    old(self).view()
                }
            },
    {
        if self.bundles.len() == 0 {
            return;
        }
        let ghost old_view = self.view();
        let mut top = self.take_top();
        let ghost top0 = top@;
        let found = find_key(&top, prefix);
        if found.is_none() && !create {
            self.put_top(top);
            proof {
                assert(self.bundles@ =~= old(self).bundles@);
            }
            return;
        }
        let k = entry(&mut top, prefix, bundle_name);
        let ghost top1 = top@;
        let (_old_key, mut b) = top.remove(k);
        let ghost start_b = b.view();
        proof {
            assert(top1[k as int].1 == b);
            assert(top1[k as int].1.wf());
            lemma_level_lookup(top1, prefix@);
            assert(old_view.last() == level_view(top0));
            assert(level_view(top1)[prefix@] == start_b);
            if found is Some {
                assert(top1 == top0);
            } else {
                assert(!level_view(top0).contains_key(prefix@));
                assert(start_b == (bundle_name@, Set::<Seq<char>>::empty()));
            }
        }
        match how {
            Change::Clear => {
                b.used = Vec::new();
                proof {
                    assert(names(b.used@) =~= Set::<Seq<char>>::empty());
                }
            },
            Change::Remove => remove_name(&mut b.used, name),
            Change::Add => insert_name(&mut b.used, name),
            Change::AddAll => insert_names(&mut b.used, names_in),
        }
        let key = owned(prefix);
        let ghost e = (key, b);
        top.insert(k, (key, b));
        proof {
            assert(top@ =~= top1.update(k as int, e));
            lemma_level_update(top1, k as int, e);
            assert(level_wf(top@)) by {
                assert forall|i: int, j: int| 0 <= i < top@.len() && 0 <= j < top@.len() && i != j
                    implies #[trigger] top@[i].0@ != #[trigger] top@[j].0@ by {
                    assert(top@[i].0@ == top1[i].0@ && top@[j].0@ == top1[j].0@);
                }
                assert forall|i: int| 0 <= i < top@.len() implies (#[trigger] top@[i]).1.wf() by {
                    if i != k as int {
                        assert(top@[i] == top1[i]);
                    }
                }
            }
        }
        self.put_top(top);
        proof {
            assert(self.view() =~= old_view.drop_last().push(level_view(top@)));
            assert(e.1.view().0 == start_b.0);
            if found is None {
                assert(level_view(top1).insert(prefix@, e.1.view()) =~= level_view(top0).insert(prefix@, e.1.view()));
            }
        }
    }

    /// Forgets the names used by the bundle of `prefix` in the top level.
    pub fn clear(&mut self, prefix: &str)
        requires
            old(self).wf(),
        ensures
            final(self).wf(),
            old(self).view().len() > 0 && old(self).view().last().contains_key(prefix@) ==> final(self).view()
                == old(self).view().drop_last().push(old(self).view().last().insert(
                    prefix@,
                    (old(self).view().last()[prefix@].0, Set::empty()),
                )),
            !(old(self).view().len() > 0 && old(self).view().last().contains_key(prefix@)) ==> final(self).view()
                == old(self).view(),
    {
        let none: Vec<String> = Vec::new();
        self.change(prefix, false, prefix, Change::Clear, prefix, &none);
    }

    /// Removes `name` from the bundle of `prefix` in the top level.
    pub fn remove(&mut self, prefix: &str, name: &str)
        requires
            old(self).wf(),
        ensures
            final(self).wf(),
            old(self).view().len() > 0 && old(self).view().last().contains_key(prefix@) ==> final(self).view()
                == old(self).view().drop_last().push(old(self).view().last().insert(
                    prefix@,
                    (old(self).view().last()[prefix@].0, old(self).view().last()[prefix@].1.remove(name@)),
                )),
            !(old(self).view().len() > 0 && old(self).view().last().contains_key(prefix@)) ==> final(self).view()
                == old(self).view(),
    {
        let none: Vec<String> = Vec::new();
        self.change(prefix, false, prefix, Change::Remove, name, &none);
    }

    /// Adds `name` to the bundle of `prefix` in the top level, making one
    /// (called `name`) if there is none.
    pub fn add(&mut self, prefix: &str, name: &str)
        requires
            old(self).wf(),
        ensures
            final(self).wf(),
            old(self).view().len() == 0 ==> final(self).view() == old(self).view(),
            old(self).view().len() > 0 ==> {
                let top = old(self).view().last();
                let start: BundleView = if top.contains_key(prefix@) { top[prefix@] } else { (name@, Set::empty()) };
                final(self).view() == old(self).view().drop_last().push(top.insert(prefix@, (start.0, start.1.insert(name@))))
            },
    {
        let none: Vec<String> = Vec::new();
        self.change(prefix, true, name, Change::Add, name, &none);
    }

    /// Adds the names `from` to the bundle `to` in the top level, making it
    /// if there is none.
    pub fn add_all(&mut self, to: &str, from: &Vec<String>)
        requires
            old(self).wf(),
        ensures
            final(self).wf(),
            old(self).view().len() == 0 ==> final(self).view() == old(self).view(),
            old(self).view().len() > 0 ==> {
                let top = old(self).view().last();
                let start: BundleView = if top.contains_key(to@) { top[to@] } else { (to@, Set::empty()) };
                final(self).view() == old(self).view().drop_last().push(top.insert(to@, (start.0, start.1.union(names(from@)))))
            },
    {
        self.change(to, true, to, Change::AddAll, to, from);
    }

    /// Adds the names used by the bundle `from` to the bundle `to` in the
    /// top level, making `to` if there is none.
    pub fn merge(&mut self, to: &str, from: &str)
        requires
            old(self).wf(),
        ensures
            final(self).wf(),
            old(self).view().len() == 0 ==> final(self).view() == old(self).view(),
            old(self).view().len() > 0 ==> {
                let top = old(self).view().last();
                let start: BundleView = if top.contains_key(to@) { top[to@] } else { (to@, Set::empty()) };
                let extra: Set<Seq<char>> = if top.contains_key(from@) { top[from@].1 } else { Set::empty() };
                final(self).view() == old(self).view().drop_last().push(top.insert(to@, (start.0, start.1.union(extra))))
            },
    {
        let from_names: Vec<String> = match self.get(from) {
            Some(b) => copy_names(b.get_used()),
            None => Vec::new(),
        };
        proof {
            if self.view().len() == 0 || !self.view().last().contains_key(from@) {
                assert(names(from_names@) =~= Set::<Seq<char>>::empty());
            }
        }
        self.change(to, true, to, Change::AddAll, to, &from_names);
    }
}

} // verus!

verus! {

/// Where in a call a bundle stands.
#[derive(Clone, Copy, Debug, PartialEq, Eq, Structural, Hash, PartialOrd, Ord)]
pub enum Position {
    Arg(usize),
    Return(usize),
    Repeater,
}

/// Whether two call stacks are equal.
fn same_stack(a: &Vec<usize>, b: &[usize]) -> (r: bool)
    ensures
        r == (a@ == b@),
{
    if a.len() != b.len() {
        return false;
    }
    let mut i: usize = 0;
    while i < a.len()
        invariant
            a@.len() == b@.len(),
            i <= a@.len(),
            forall|j: int| 0 <= j < i ==> a@[j] == b@[j],
        decreases a@.len() - i,
    {
        if a[i] != b[i] {
            return false;
        }
        i += 1;
    }
    proof {
        assert(a@ =~= b@);
    }
    true
}

/// A copy of a call stack.
fn copy_stack(a: &[usize]) -> (r: Vec<usize>)
    ensures
        r@ == a@,
{
    let mut r: Vec<usize> = Vec::new();
    let mut i: usize = 0;
    while i < a.len()
        invariant
            i <= a@.len(),
            r@ == a@.take(i as int),
        decreases a@.len() - i,
    {
        r.push(a[i]);
        i += 1;
        proof {
            assert(r@ =~= a@.take(i as int));
        }
    }
    proof {
        assert(a@.take(i as int) =~= a@);
    }
    r
}

/// The key of a transit: a call stack and a position.
pub type TransitKey = (Seq<usize>, Position);

/// The abstract key of an entry.
pub open spec fn entry_key<V>(e: ((Vec<usize>, Position), V)) -> TransitKey {
    (e.0.0@, e.0.1)
}

/// The keys of `l` are distinct.
pub open spec fn keys_distinct<V>(l: Seq<((Vec<usize>, Position), V)>) -> bool {
    forall|i: int, j: int| 0 <= i < l.len() && 0 <= j < l.len() && i != j ==> entry_key(#[trigger] l[i]) != entry_key(
        #[trigger] l[j],
    )
}

/// The index of the entry of `stack` and `position`, if any.
fn find_transit<V>(l: &Vec<((Vec<usize>, Position), V)>, stack: &[usize], position: Position) -> (r: Option<usize>)
    ensures
        match r {
            Some(i) => i < l@.len() && entry_key(l@[i as int]) == (stack@, position),
            None => forall|i: int| 0 <= i < l@.len() ==> entry_key(#[trigger] l@[i]) != (stack@, position),
        },
{
    let mut i: usize = 0;
    while i < l.len()
        invariant
            i <= l@.len(),
            forall|j: int| 0 <= j < i ==> entry_key(#[trigger] l@[j]) != (stack@, position),
        decreases l@.len() - i,
    {
        if l[i].0.1 == position && same_stack(&l[i].0.0, stack) {
            return Some(i);
        }
        i += 1;
    }
    None
}

/// The names of `v` stand in strictly increasing order.
pub open spec fn sorted_names(v: Seq<String>) -> bool {
    forall|i: int, j: int| 0 <= i < j < v.len() ==> chars_before(#[trigger] v[i]@, #[trigger] v[j]@)
}

/// The names of a set, in increasing order.
pub fn sort_names(v: &Vec<String>) -> (r: Vec<String>)
    requires
        distinct(v@),
    ensures
        sorted_names(r@),
        distinct(r@),
        names(r@) == names(v@),
{
    let mut r: Vec<String> = Vec::new();
    let mut i: usize = 0;
    proof {
        assert(names(r@) =~= names(v@.take(0)));
    }
    while i < v.len()
        invariant
            distinct(v@),
            i <= v@.len(),
            sorted_names(r@),
            distinct(r@),
            names(r@) == names(v@.take(i as int)),
        decreases v@.len() - i,
    {
        let s = &v[i];
        proof {
            assert(!names(r@).contains(s@)) by {
                if names(r@).contains(s@) {
                    let k = choose|k: int| 0 <= k < v@.take(i as int).len() && #[trigger] v@.take(i as int)[k]@ == s@;
                    assert(v@[k]@ == v@[i as int]@);
                }
            }
        }
        let mut p: usize = 0;
        while p < r.len() && text_before(r[p].as_str(), s.as_str())
            invariant
                p <= r@.len(),
                forall|k: int| 0 <= k < p ==> chars_before(#[trigger] r@[k]@, s@),
            decreases r@.len() - p,
        {
            p += 1;
        }
        let ghost before = r@;
        r.insert(p, s.clone());
        proof {
            lemma_chars_order();
            assert(r@ == before.insert(p as int, *s));
            assert forall|a: int, b: int| 0 <= a < b < r@.len() implies chars_before(#[trigger] r@[a]@, #[trigger] r@[b]@) by {
                if b < p {
                    assert(r@[a] == before[a] && r@[b] == before[b]);
                } else if b == p {
                    assert(r@[a] == before[a]);
                } else if a == p {
                    assert(r@[b] == before[b - 1]);
                    assert(!chars_before(before[p as int]@, s@) || p == before.len());
                    if b - 1 > p {
                        assert(chars_before(before[p as int]@, before[b - 1]@));
                    }
                    assert(before[p as int]@ != s@) by {
                        lemma_names_index(before, p as int);
                    }
                } else if a < p {
                    assert(r@[a] == before[a] && r@[b] == before[b - 1]);
                } else {
                    assert(r@[a] == before[a - 1] && r@[b] == before[b - 1]);
                }
            }
            assert forall|a: int, b: int| 0 <= a < r@.len() && 0 <= b < r@.len() && a != b
                implies #[trigger] r@[a]@ != #[trigger] r@[b]@ by {
                if a < b {
                    assert(chars_before(r@[a]@, r@[b]@));
                    lemma_chars_before_irreflexive(r@[a]@);
                } else {
                    assert(chars_before(r@[b]@, r@[a]@));
                    lemma_chars_before_irreflexive(r@[b]@);
                }
            }
            assert(v@.take(i + 1) == v@.take(i as int).push(*s));
            lemma_names_push(v@.take(i as int), *s);
            assert forall|c: Seq<char>| names(r@).contains(c) <==> names(before).insert(s@).contains(c) by {
                if names(r@).contains(c) {
                    let k = choose|k: int| 0 <= k < r@.len() && #[trigger] r@[k]@ == c;
                    if k < p {
                        assert(r@[k] == before[k]);
                        lemma_names_index(before, k);
                    } else if k > p {
                        assert(r@[k] == before[k - 1]);
                        lemma_names_index(before, k - 1);
                    }
                }
                if names(before).contains(c) {
                    let k = choose|k: int| 0 <= k < before.len() && #[trigger] before[k]@ == c;
                    if k < p {
                        assert(r@[k] == before[k]);
                        lemma_names_index(r@, k);
                    } else {
                        assert(r@[k + 1] == before[k]);
                        lemma_names_index(r@, k + 1);
                    }
                }
                if c == s@ {
                    lemma_names_index(r@, p as int);
                }
            }
            assert(names(r@) =~= names(v@.take(i + 1)));
        }
        i += 1;
    }
    proof {
        assert(v@.take(i as int) =~= v@);
    }
    r
}

} // verus!

verus! {

/// The entries of `l` by key, seen through `f`; the last entry of a key
/// wins.
pub open spec fn assoc_view<V, W>(l: Seq<((Vec<usize>, Position), V)>, f: spec_fn(V) -> W) -> Map<TransitKey, W>
    decreases l.len(),
{
    if l.len() == 0 {
        Map::empty()
    } else {
        assoc_view(l.drop_last(), f).insert(entry_key(l.last()), f(l.last().1))
    }
}

proof fn lemma_keys_distinct_prefix<V>(l: Seq<((Vec<usize>, Position), V)>)
    requires
        keys_distinct(l),
        l.len() > 0,
    ensures
        keys_distinct(l.drop_last()),
{
    let d = l.drop_last();
    assert forall|i: int, j: int| 0 <= i < d.len() && 0 <= j < d.len() && i != j implies entry_key(#[trigger] d[i])
        != entry_key(#[trigger] d[j]) by {
        assert(d[i] == l[i] && d[j] == l[j]);
    }
}

/// Looking a key up in an association list.
proof fn lemma_assoc_lookup<V, W>(l: Seq<((Vec<usize>, Position), V)>, f: spec_fn(V) -> W, key: TransitKey)
    requires
        keys_distinct(l),
    ensures
        forall|i: int| 0 <= i < l.len() && #[trigger] entry_key(l[i]) == key ==> assoc_view(l, f).contains_key(key)
            && assoc_view(l, f)[key] == f(l[i].1),
        (forall|i: int| 0 <= i < l.len() ==> #[trigger] entry_key(l[i]) != key) ==> !assoc_view(l, f).contains_key(key),
    decreases l.len(),
{
    if l.len() > 0 {
        let d = l.drop_last();
        lemma_keys_distinct_prefix(l);
        lemma_assoc_lookup(d, f, key);
        assert forall|i: int| 0 <= i < l.len() && #[trigger] entry_key(l[i]) == key implies assoc_view(l, f).contains_key(key)
            && assoc_view(l, f)[key] == f(l[i].1) by {
            if i < l.len() - 1 {
                assert(d[i] == l[i]);
                assert(entry_key(l[l.len() - 1]) != key);
            }
        }
        if forall|i: int| 0 <= i < l.len() ==> #[trigger] entry_key(l[i]) != key {
            assert forall|i: int| 0 <= i < d.len() implies #[trigger] entry_key(d[i]) != key by {
                assert(d[i] == l[i]);
            }
            assert(entry_key(l[l.len() - 1]) != key);
        }
    }
}

/// Replacing the value of the entry at `k` updates the map at its key.
proof fn lemma_assoc_update<V, W>(l: Seq<((Vec<usize>, Position), V)>, f: spec_fn(V) -> W, k: int, e: ((Vec<usize>, Position), V))
    requires
        keys_distinct(l),
        0 <= k < l.len(),
        entry_key(e) == entry_key(l[k]),
    ensures
        assoc_view(l.update(k, e), f) == assoc_view(l, f).insert(entry_key(e), f(e.1)),
        keys_distinct(l.update(k, e)),
    decreases l.len(),
{
    let l2 = l.update(k, e);
    assert forall|i: int, j: int| 0 <= i < l2.len() && 0 <= j < l2.len() && i != j implies entry_key(#[trigger] l2[i])
        != entry_key(#[trigger] l2[j]) by {
        assert(entry_key(l2[i]) == entry_key(l[i]) && entry_key(l2[j]) == entry_key(l[j]));
    }
    if k == l.len() - 1 {
        assert(l2.drop_last() =~= l.drop_last());
        assert(assoc_view(l2, f) =~= assoc_view(l, f).insert(entry_key(e), f(e.1)));
    } else {
        let d = l.drop_last();
        assert(l2.drop_last() =~= d.update(k, e));
        lemma_keys_distinct_prefix(l);
        lemma_assoc_update(d, f, k, e);
        assert(entry_key(l[l.len() - 1]) != entry_key(l[k]));
        assert(assoc_view(l2, f) =~= assoc_view(l, f).insert(entry_key(e), f(e.1)));
    }
}

/// Pushing an entry with a new key adds it.
proof fn lemma_assoc_push<V, W>(l: Seq<((Vec<usize>, Position), V)>, f: spec_fn(V) -> W, e: ((Vec<usize>, Position), V))
    requires
        keys_distinct(l),
        forall|i: int| 0 <= i < l.len() ==> #[trigger] entry_key(l[i]) != entry_key(e),
    ensures
        assoc_view(l.push(e), f) == assoc_view(l, f).insert(entry_key(e), f(e.1)),
        keys_distinct(l.push(e)),
{
    let l2 = l.push(e);
    assert(l2.drop_last() =~= l);
    assert forall|i: int, j: int| 0 <= i < l2.len() && 0 <= j < l2.len() && i != j implies entry_key(#[trigger] l2[i])
        != entry_key(#[trigger] l2[j]) by {
        if i < l.len() {
            assert(l2[i] == l[i]);
        }
        if j < l.len() {
            assert(l2[j] == l[j]);
        }
    }
}

/// The names of a vector of strings, in order.
pub open spec fn name_seq(v: Vec<String>) -> Seq<Seq<char>> {
    v@.map_values(|s: String| s@)
}

/// The set of names of a vector of strings.
pub open spec fn name_set(v: Vec<String>) -> Set<Seq<char>> {
    names(v@)
}

/// The names needed by bundles in each call context, each list sorted.
#[derive(Debug)]
pub struct Transits {
    transits: Vec<((Vec<usize>, Position), Vec<String>)>,
    call_stack: Vec<usize>,
}

impl Transits {
    /// The sorted names recorded for each call stack and position.
    pub closed spec fn view(&self) -> Map<TransitKey, Seq<Seq<char>>> {
        assoc_view(self.transits@, |v: Vec<String>| name_seq(v))
    }

    /// The internal invariant.
    pub closed spec fn wf(&self) -> bool {
        keys_distinct(self.transits@)
    }

    /// The current call stack, outermost call first.
    pub closed spec fn stack(&self) -> Seq<usize> {
        self.call_stack@
    }

    /// Nothing recorded, at the outermost call.
    pub fn new() -> (r: Transits)
        ensures
            r.wf(),
            r.view() == Map::<TransitKey, Seq<Seq<char>>>::empty(),
            r.stack() == Seq::<usize>::empty(),
    {
        let r = Transits { transits: Vec::new(), call_stack: Vec::new() };
        proof {
            assert(r.view() =~= Map::<TransitKey, Seq<Seq<char>>>::empty()) by {
                assert forall|k: TransitKey| !r.view().contains_key(k) by {
                    lemma_assoc_lookup(r.transits@, |v: Vec<String>| name_seq(v), k);
                }
            }
        }
        r
    }

    /// Records the names `values`, sorted, for the current call stack and
    /// `position`, replacing what was recorded there.
    pub fn add(&mut self, position: Position, values: Vec<String>)
        requires
            old(self).wf(),
            distinct(values@),
        ensures
            final(self).wf(),
            final(self).stack() == old(self).stack(),
            final(self).view().dom() == old(self).view().dom().insert((old(self).stack(), position)),
            forall|k: TransitKey| k != (old(self).stack(), position) && #[trigger] old(self).view().contains_key(k)
                ==> final(self).view()[k] == old(self).view()[k],
            final(self).view()[(old(self).stack(), position)].to_set() == names(values@),
            forall|i: int, j: int| 0 <= i < j < final(self).view()[(old(self).stack(), position)].len()
                ==> chars_before(
                #[trigger] final(self).view()[(old(self).stack(), position)][i],
                #[trigger] final(self).view()[(old(self).stack(), position)][j],
            ),
    {
        let sorted = sort_names(&values);
        let key = (copy_stack(self.call_stack.as_slice()), position);
        let ghost e = (key, sorted);
        let ghost old_view = self.view();
        match find_transit(&self.transits, self.call_stack.as_slice(), position) {
            Some(i) => {
                let ghost before = self.transits@;
                proof {
                    lemma_assoc_update(before, |v: Vec<String>| name_seq(v), i as int, e);
                }
                self.transits.set(i, (key, sorted));
            },
            None => {
                let ghost before = self.transits@;
                proof {
                    lemma_assoc_push(before, |v: Vec<String>| name_seq(v), e);
                }
                self.transits.push((key, sorted));
            },
        }
        proof {
            let k0 = (old(self).stack(), position);
            assert(self.view() == old_view.insert(k0, name_seq(e.1)));
            let s = e.1@;
            let ms = name_seq(e.1);
            assert(ms == s.map_values(|x: String| x@));
            assert forall|c: Seq<char>| ms.to_set().contains(c) <==> names(s).contains(c) by {
                if names(s).contains(c) {
                    let q = choose|q: int| 0 <= q < s.len() && #[trigger] s[q]@ == c;
                    assert(ms[q] == c);
                }
                if ms.to_set().contains(c) {
                    assert(ms.contains(c));
                    let q = choose|q: int| 0 <= q < ms.len() && #[trigger] ms[q] == c;
                    assert(s[q]@ == c);
                }
            }
            assert(ms.to_set() =~= names(s));
            assert(self.view().dom() =~= old_view.dom().insert(k0));
        }
    }

    /// Enters call `call`.
    pub fn push(&mut self, call: usize)
        ensures
            final(self).wf() == old(self).wf(),
            final(self).view() == old(self).view(),
            final(self).stack() == old(self).stack().push(call),
    {
        self.call_stack.push(call);
    }

    /// Leaves the innermost call, if any.
    pub fn pop(&mut self)
        ensures
            final(self).wf() == old(self).wf(),
            final(self).view() == old(self).view(),
            final(self).stack() == if old(self).stack().len() == 0 {
                old(self).stack()
            } else {
                old(self).stack().drop_last()
            },
    {
        self.call_stack.pop();
    }

    /// The call stacks and positions recorded, once each.
    pub fn keys(&self) -> (r: Vec<(Vec<usize>, Position)>)
        requires
            self.wf(),
        ensures
            forall|i: int, j: int| 0 <= i < r@.len() && 0 <= j < r@.len() && i != j ==> (#[trigger] r@[i].0@, r@[i].1)
                != (#[trigger] r@[j].0@, r@[j].1),
            forall|k: TransitKey| self.view().contains_key(k) <==> exists|i: int| 0 <= i < r@.len() && #[trigger] r@[i].0@
                == k.0 && r@[i].1 == k.1,
    {
        let mut r: Vec<(Vec<usize>, Position)> = Vec::new();
        let mut i: usize = 0;
        while i < self.transits.len()
            invariant
                self.wf(),
                i <= self.transits@.len(),
                r@.len() == i,
                forall|j: int| 0 <= j < i ==> (#[trigger] r@[j].0@, r@[j].1) == entry_key(self.transits@[j]),
            decreases self.transits@.len() - i,
        {
            let key = (copy_stack(self.transits[i].0.0.as_slice()), self.transits[i].0.1);
            r.push(key);
            i += 1;
        }
        proof {
            lemma_assoc_lookup(self.transits@, |v: Vec<String>| name_seq(v), (Seq::empty(), Position::Repeater));
            assert forall|k: TransitKey| self.view().contains_key(k) <==> exists|i: int| 0 <= i < r@.len() && #[trigger] r@[i].0@
                == k.0 && r@[i].1 == k.1 by {
                lemma_assoc_lookup(self.transits@, |v: Vec<String>| name_seq(v), k);
                if self.view().contains_key(k) {
                    if forall|i: int| 0 <= i < self.transits@.len() ==> #[trigger] entry_key(self.transits@[i]) != k {
                    } else {
                        let i = choose|i: int| 0 <= i < self.transits@.len() && #[trigger] entry_key(self.transits@[i]) == k;
                        assert(0 <= i < r@.len());
                        assert((r@[i].0@, r@[i].1) == entry_key(self.transits@[i]));
                        assert(r@[i].0@ == k.0 && r@[i].1 == k.1);
                    }
                }
                if exists|i: int| 0 <= i < r@.len() && #[trigger] r@[i].0@ == k.0 && r@[i].1 == k.1 {
                    let i = choose|i: int| 0 <= i < r@.len() && #[trigger] r@[i].0@ == k.0 && r@[i].1 == k.1;
                    assert(entry_key(self.transits@[i]) == k);
                }
            }
        }
        r
    }

    /// The sorted names recorded for `stack` and `position`.
    pub fn get(&self, stack: &[usize], position: &Position) -> (r: Result<&[String], String>)
        requires
            self.wf(),
        ensures
            match r {
                Ok(v) => self.view().contains_key((stack@, *position)) && v@.map_values(|s: String| s@)
                    == self.view()[(stack@, *position)],
                Err(e) => !self.view().contains_key((stack@, *position)) && e@ == "missing bundle"@,
            },
    {
        proof {
            lemma_assoc_lookup(self.transits@, |v: Vec<String>| name_seq(v), (stack@, *position));
        }
        match find_transit(&self.transits, stack, *position) {
            Some(i) => Ok(self.transits[i].1.as_slice()),
            None => Err(owned("missing bundle")),
        }
    }
}

/// Collects the names needed by bundles in each call context.
pub struct TransitsBuilder {
    transits: Vec<((Vec<usize>, Position), Vec<String>)>,
    call_stack: Vec<usize>,
}

impl TransitsBuilder {
    /// The names recorded for each call stack and position.
    pub closed spec fn view(&self) -> Map<TransitKey, Set<Seq<char>>> {
        assoc_view(self.transits@, |v: Vec<String>| name_set(v))
    }

    /// The internal invariant.
    pub closed spec fn wf(&self) -> bool {
        &&& keys_distinct(self.transits@)
        &&& forall|i: int| 0 <= i < self.transits@.len() ==> distinct(#[trigger] self.transits@[i].1@)
    }

    /// The current call stack, outermost call first.
    pub closed spec fn stack(&self) -> Seq<usize> {
        self.call_stack@
    }

    /// The current call stack, outermost call first.
    pub fn call_stack(&self) -> (r: &Vec<usize>)
        ensures
            r@ == self.stack(),
    {
        &self.call_stack
    }

    /// Nothing recorded, at the outermost call.
    pub fn new() -> (r: TransitsBuilder)
        ensures
            r.wf(),
            r.view() == Map::<TransitKey, Set<Seq<char>>>::empty(),
            r.stack() == Seq::<usize>::empty(),
    {
        TransitsBuilder { transits: Vec::new(), call_stack: Vec::new() }
    }

    /// Records `values` for the current call stack and `position`,
    /// replacing what was recorded there.
    pub fn add(&mut self, position: Position, values: Vec<String>)
        requires
            old(self).wf(),
            distinct(values@),
        ensures
            final(self).wf(),
            final(self).stack() == old(self).stack(),
            final(self).view() == old(self).view().insert((old(self).stack(), position), names(values@)),
    {
        let key = (copy_stack(self.call_stack.as_slice()), position);
        let ghost e = (key, values);
        match find_transit(&self.transits, self.call_stack.as_slice(), position) {
            Some(i) => {
                let ghost before = self.transits@;
                proof {
                    lemma_assoc_update(before, |v: Vec<String>| name_set(v), i as int, e);
                }
                self.transits.set(i, (key, values));
                proof {
                    assert forall|j: int| 0 <= j < self.transits@.len() implies distinct(#[trigger] self.transits@[j].1@) by {
                        if j != i as int {
                            assert(self.transits@[j] == before[j]);
                        }
                    }
                }
            },
            None => {
                let ghost before = self.transits@;
                proof {
                    lemma_assoc_push(before, |v: Vec<String>| name_set(v), e);
                }
                self.transits.push((key, values));
                proof {
                    assert forall|j: int| 0 <= j < self.transits@.len() implies distinct(#[trigger] self.transits@[j].1@) by {
                        if j < before.len() {
                            assert(self.transits@[j] == before[j]);
                        }
                    }
                }
            },
        }
    }

    /// Enters call `call`.
    pub fn push(&mut self, call: usize)
        ensures
            final(self).wf() == old(self).wf(),
            final(self).view() == old(self).view(),
            final(self).stack() == old(self).stack().push(call),
    {
        self.call_stack.push(call);
    }

    /// Leaves the innermost call, if any.
    pub fn pop(&mut self)
        ensures
            final(self).wf() == old(self).wf(),
            final(self).view() == old(self).view(),
            final(self).stack() == if old(self).stack().len() == 0 {
                old(self).stack()
            } else {
                old(self).stack().drop_last()
            },
    {
        self.call_stack.pop();
    }

    /// The transits recorded, each set of names sorted.
    pub fn build(self) -> (r: Transits)
        requires
            self.wf(),
        ensures
            r.wf(),
            r.view().dom() == self.view().dom(),
            forall|k: TransitKey| #[trigger] r.view().contains_key(k) ==> {
                &&& r.view()[k].to_set() == self.view()[k]
                &&& forall|i: int, j: int| 0 <= i < j < r.view()[k].len() ==> chars_before(
                    #[trigger] r.view()[k][i],
                    #[trigger] r.view()[k][j],
                )
            },
    {
        let mut out: Vec<((Vec<usize>, Position), Vec<String>)> = Vec::new();
        let mut i: usize = 0;
        while i < self.transits.len()
            invariant
                self.wf(),
                i <= self.transits@.len(),
                out@.len() == i,
                forall|j: int| 0 <= j < i ==> entry_key(#[trigger] out@[j]) == entry_key(self.transits@[j]),
                forall|j: int| 0 <= j < i ==> sorted_names((#[trigger] out@[j]).1@) && names(out@[j].1@) == names(
                    self.transits@[j].1@,
                ),
            decreases self.transits@.len() - i,
        {
            let key = (copy_stack(self.transits[i].0.0.as_slice()), self.transits[i].0.1);
            let sorted = sort_names(&self.transits[i].1);
            out.push((key, sorted));
            i += 1;
        }
        let r = Transits { transits: out, call_stack: Vec::new() };
        proof {
            assert(keys_distinct(out@)) by {
                assert forall|a: int, b: int| 0 <= a < out@.len() && 0 <= b < out@.len() && a != b implies entry_key(
                    #[trigger] out@[a],
                ) != entry_key(#[trigger] out@[b]) by {
                    assert(entry_key(self.transits@[a]) != entry_key(self.transits@[b]));
                }
            }
            assert forall|k: TransitKey| #[trigger] r.view().contains_key(k) <==> self.view().contains_key(k) by {
                lemma_assoc_lookup(out@, |v: Vec<String>| name_seq(v), k);
                lemma_assoc_lookup(self.transits@, |v: Vec<String>| name_set(v), k);
                if r.view().contains_key(k) {
                    if forall|i: int| 0 <= i < out@.len() ==> #[trigger] entry_key(out@[i]) != k {
                    } else {
                        let i = choose|i: int| 0 <= i < out@.len() && #[trigger] entry_key(out@[i]) == k;
                        assert(entry_key(self.transits@[i]) == k);
                    }
                }
                if self.view().contains_key(k) {
                    if forall|i: int| 0 <= i < self.transits@.len() ==> #[trigger] entry_key(self.transits@[i]) != k {
                    } else {
                        let i = choose|i: int| 0 <= i < self.transits@.len() && #[trigger] entry_key(self.transits@[i]) == k;
                        assert(entry_key(out@[i]) == k);
                    }
                }
            }
            assert(r.view().dom() =~= self.view().dom());
            assert forall|k: TransitKey| #[trigger] r.view().contains_key(k) implies {
                &&& r.view()[k].to_set() == self.view()[k]
                &&& forall|i: int, j: int| 0 <= i < j < r.view()[k].len() ==> chars_before(
                    #[trigger] r.view()[k][i],
                    #[trigger] r.view()[k][j],
                )
            } by {
                lemma_assoc_lookup(out@, |v: Vec<String>| name_seq(v), k);
                lemma_assoc_lookup(self.transits@, |v: Vec<String>| name_set(v), k);
                let i = choose|i: int| 0 <= i < out@.len() && #[trigger] entry_key(out@[i]) == k;
                assert(entry_key(self.transits@[i]) == k);
                let s = out@[i].1@;
                assert(r.view()[k] == s.map_values(|x: String| x@));
                assert(self.view()[k] == names(self.transits@[i].1@));
                let ms = s.map_values(|x: String| x@);
                assert forall|c: Seq<char>| ms.to_set().contains(c) <==> names(s).contains(c) by {
                    if names(s).contains(c) {
                        let q = choose|q: int| 0 <= q < s.len() && #[trigger] s[q]@ == c;
                        assert(ms[q] == c);
                    }
                    if ms.to_set().contains(c) {
                        assert(ms.contains(c));
                        let q = choose|q: int| 0 <= q < ms.len() && #[trigger] ms[q] == c;
                        assert(s[q]@ == c);
                    }
                }
                assert(s.map_values(|x: String| x@).to_set() =~= names(s));
            }
        }
        r
    }
}

} // verus!

verus! {

/// An index of the name `k` in `l`.
pub open spec fn pair_index<V>(l: Seq<(String, V)>, k: Seq<char>) -> int {
    choose|i: int| 0 <= i < l.len() && #[trigger] l[i].0@ == k
}

/// The registers of the names of one prefix, by name.
pub open spec fn pairs_view<V>(l: Seq<(String, V)>) -> Map<Seq<char>, V> {
    Map::new(
        |k: Seq<char>| exists|i: int| 0 <= i < l.len() && #[trigger] l[i].0@ == k,
        |k: Seq<char>| l[pair_index(l, k)].1,
    )
}

/// The names of `l` stand in strictly increasing order.
pub open spec fn pairs_sorted<V>(l: Seq<(String, V)>) -> bool {
    forall|i: int, j: int| 0 <= i < j < l.len() ==> chars_before(#[trigger] l[i].0@, #[trigger] l[j].0@)
}

/// The names of `l`, in order.
pub open spec fn pair_names<V>(l: Seq<(String, V)>) -> Seq<Seq<char>> {
    l.map_values(|e: (String, V)| e.0@)
}

/// In a sorted list each name stands once, with its register.
pub proof fn lemma_pairs_at<V>(l: Seq<(String, V)>, idx: int)
    requires
        pairs_sorted(l),
        0 <= idx < l.len(),
    ensures
        pairs_view(l).contains_key(l[idx].0@),
        pairs_view(l)[l[idx].0@] == l[idx].1,
{
    let k = l[idx].0@;
    assert(exists|i: int| 0 <= i < l.len() && #[trigger] l[i].0@ == k);
    let j = pair_index(l, k);
    assert(0 <= j < l.len() && l[j].0@ == k);
    if j < idx {
        assert(chars_before(l[j].0@, l[idx].0@));
        lemma_chars_before_irreflexive(k);
    } else if j > idx {
        assert(chars_before(l[idx].0@, l[j].0@));
        lemma_chars_before_irreflexive(k);
    }
    assert(pairs_view(l)[k] == l[j].1);
}

/// The index of `name` in a sorted list, or where it would go.
pub fn locate<V>(l: &Vec<(String, V)>, name: &str) -> (r: (usize, bool))
    requires
        pairs_sorted(l@),
    ensures
        r.0 <= l@.len(),
        r.1 ==> r.0 < l@.len() && l@[r.0 as int].0@ == name@,
        !r.1 ==> !pairs_view(l@).contains_key(name@),
        forall|i: int| 0 <= i < r.0 ==> chars_before(#[trigger] l@[i].0@, name@),
        !r.1 ==> forall|i: int| r.0 <= i < l@.len() ==> chars_before(name@, #[trigger] l@[i].0@),
{
    let mut p: usize = 0;
    while p < l.len() && text_before(l[p].0.as_str(), name)
        invariant
            p <= l@.len(),
            forall|i: int| 0 <= i < p ==> chars_before(#[trigger] l@[i].0@, name@),
        decreases l@.len() - p,
    {
        p += 1;
    }
    let found = p < l.len() && same_text(&l[p].0, name);
    proof {
        lemma_chars_order();
        if !found {
            assert forall|i: int| p <= i < l@.len() implies chars_before(name@, #[trigger] l@[i].0@) by {
                assert(!chars_before(l@[p as int].0@, name@));
                assert(l@[p as int].0@ != name@);
                if i > p {
                    assert(chars_before(l@[p as int].0@, l@[i].0@));
                }
            }
            if pairs_view(l@).contains_key(name@) {
                let j = choose|j: int| 0 <= j < l@.len() && #[trigger] l@[j].0@ == name@;
                lemma_chars_before_irreflexive(name@);
                if j < p {
                    assert(chars_before(l@[j].0@, name@));
                } else {
                    assert(chars_before(name@, l@[j].0@));
                }
            }
        }
    }
    (p, found)
}

/// Sets the register of `name` in a sorted list, keeping it sorted.
pub fn set_pair<V>(l: &mut Vec<(String, V)>, name: &str, reg: V)
    requires
        pairs_sorted(old(l)@),
    ensures
        pairs_sorted(final(l)@),
        pairs_view(final(l)@) == pairs_view(old(l)@).insert(name@, reg),
{
    let (p, found) = locate(l, name);
    let ghost before = l@;
    if found {
        l.set(p, (owned(name), reg));
    } else {
        l.insert(p, (owned(name), reg));
    }
    proof {
        lemma_chars_order();
        assert(pairs_sorted(l@)) by {
            assert forall|i: int, j: int| 0 <= i < j < l@.len() implies chars_before(#[trigger] l@[i].0@, #[trigger] l@[j].0@) by {
                if found {
                    assert(l@[i].0@ == before[i].0@ && l@[j].0@ == before[j].0@);
                } else {
                    if j < p {
                        assert(l@[i] == before[i] && l@[j] == before[j]);
                    } else if j == p {
                        assert(l@[i] == before[i]);
                    } else if i == p {
                        assert(l@[j] == before[j - 1]);
                    } else if i < p {
                        assert(l@[i] == before[i] && l@[j] == before[j - 1]);
                    } else {
                        assert(l@[i] == before[i - 1] && l@[j] == before[j - 1]);
                    }
                }
            }
        }
        assert forall|k: Seq<char>| #[trigger] pairs_view(l@).contains_key(k) <==> pairs_view(before).insert(name@, reg).contains_key(k) by {
            if pairs_view(l@).contains_key(k) {
                let j = choose|j: int| 0 <= j < l@.len() && #[trigger] l@[j].0@ == k;
                if found {
                    if j != p {
                        assert(l@[j] == before[j]);
                    }
                } else if j < p {
                    assert(l@[j] == before[j]);
                } else if j > p {
                    assert(l@[j] == before[j - 1]);
                }
            }
            if pairs_view(before).contains_key(k) {
                let j = choose|j: int| 0 <= j < before.len() && #[trigger] before[j].0@ == k;
                if found {
                    assert(l@[j].0@ == k);
                } else if j < p {
                    assert(l@[j] == before[j]);
                } else {
                    assert(l@[j + 1] == before[j]);
                }
            }
            if k == name@ {
                assert(l@[p as int].0@ == k);
            }
        }
        assert forall|k: Seq<char>| #[trigger] pairs_view(l@).contains_key(k) implies pairs_view(l@)[k] == pairs_view(before).insert(name@, reg)[k] by {
            let j = choose|j: int| 0 <= j < l@.len() && #[trigger] l@[j].0@ == k;
            lemma_pairs_at(l@, j);
            if k == name@ {
                lemma_pairs_at(l@, p as int);
            } else if found {
                assert(l@[j] == before[j]);
                lemma_pairs_at(before, j);
            } else if j < p {
                assert(l@[j] == before[j]);
                lemma_pairs_at(before, j);
            } else {
                assert(j != p);
                assert(l@[j] == before[j - 1]);
                lemma_pairs_at(before, j - 1);
            }
        }
        assert(pairs_view(l@) =~= pairs_view(before).insert(name@, reg));
    }
}

/// Whether two optional prefixes are equal.
fn same_prefix(a: &Option<String>, b: &Option<String>) -> (r: bool)
    ensures
        r == (opt_view(*a) == opt_view(*b)),
{
    match (a, b) {
        (None, None) => true,
        (Some(x), Some(y)) => *x == *y,
        _ => false,
    }
}

/// The abstract value of an optional string.
pub open spec fn opt_view(a: Option<String>) -> Option<Seq<char>> {
    match a {
        Some(s) => Some(s@),
        None => None,
    }
}

/// A copy of an optional string.
fn copy_opt(a: &Option<String>) -> (r: Option<String>)
    ensures
        opt_view(r) == opt_view(*a),
{
    match a {
        Some(s) => Some(s.clone()),
        None => None,
    }
}

/// The registers of the variables of one scope, by prefix and name.
pub struct VarRegisterLevel {
    regs: Vec<(Option<String>, Vec<(String, usize)>)>,
}

/// The message for a variable that has no register.
pub open spec fn unknown_variable_message(v: Variable) -> Seq<char> {
    "unknown variable '"@ + match v.prefix {
        Some(p) => p@ + "."@ + v.name@,
        None => v.name@,
    } + "'"@
}

impl VarRegisterLevel {
    /// The index of the entry of `prefix`, if any.
    closed spec fn index_of(&self, prefix: Option<Seq<char>>) -> Option<int> {
        if exists|i: int| 0 <= i < self.regs@.len() && #[trigger] opt_view(self.regs@[i].0) == prefix {
            Some(choose|i: int| 0 <= i < self.regs@.len() && #[trigger] opt_view(self.regs@[i].0) == prefix)
        } else {
            None
        }
    }

    /// The registers of the names of each prefix.
    pub closed spec fn view(&self) -> Map<Option<Seq<char>>, Map<Seq<char>, usize>> {
        Map::new(
            |p: Option<Seq<char>>| self.index_of(p) is Some,
            |p: Option<Seq<char>>| pairs_view(self.regs@[self.index_of(p)->0].1@),
        )
    }

    /// The names of each prefix, in the order of strings.
    pub closed spec fn sorted_names_of(&self, prefix: Option<Seq<char>>) -> Seq<Seq<char>> {
        match self.index_of(prefix) {
            Some(i) => pair_names(self.regs@[i].1@),
            None => Seq::empty(),
        }
    }

    /// The internal invariant.
    pub closed spec fn wf(&self) -> bool {
        &&& forall|i: int, j: int| 0 <= i < self.regs@.len() && 0 <= j < self.regs@.len() && i != j
            ==> opt_view(#[trigger] self.regs@[i].0) != opt_view(#[trigger] self.regs@[j].0)
        &&& forall|i: int| 0 <= i < self.regs@.len() ==> pairs_sorted(#[trigger] self.regs@[i].1@)
    }

    proof fn lemma_index_of(&self, i: int)
        requires
            self.wf(),
            0 <= i < self.regs@.len(),
        ensures
            self.index_of(opt_view(self.regs@[i].0)) == Some(i),
    {
        let p = opt_view(self.regs@[i].0);
        assert(exists|j: int| 0 <= j < self.regs@.len() && #[trigger] opt_view(self.regs@[j].0) == p);
    }

    /// No registers.
    pub fn new() -> (r: VarRegisterLevel)
        ensures
            r.wf(),
            r.view() == Map::<Option<Seq<char>>, Map<Seq<char>, usize>>::empty(),
    {
        let r = VarRegisterLevel { regs: Vec::new() };
        assert(r.view() =~= Map::<Option<Seq<char>>, Map<Seq<char>, usize>>::empty());
        r
    }

    /// The index of the entry of `prefix`, if any.
    fn find(&self, prefix: &Option<String>) -> (r: Option<usize>)
        requires
            self.wf(),
        ensures
            match r {
                Some(i) => i < self.regs@.len() && self.index_of(opt_view(*prefix)) == Some(i as int),
                None => self.index_of(opt_view(*prefix)) is None,
            },
    {
        let mut i: usize = 0;
        while i < self.regs.len()
            invariant
                self.wf(),
                i <= self.regs@.len(),
                forall|j: int| 0 <= j < i ==> opt_view(#[trigger] self.regs@[j].0) != opt_view(*prefix),
            decreases self.regs@.len() - i,
        {
            if same_prefix(&self.regs[i].0, prefix) {
                proof {
                    self.lemma_index_of(i as int);
                }
                return Some(i);
            }
            i += 1;
        }
        None
    }

    /// Gives `variable` the register `reg`.
    pub fn add(&mut self, variable: &Variable, reg: usize)
        requires
            old(self).wf(),
        ensures
            final(self).wf(),
            final(self).view() == old(self).view().insert(
                opt_view(variable.prefix),
                (if old(self).view().contains_key(opt_view(variable.prefix)) {
                    old(self).view()[opt_view(variable.prefix)]
                } else {
                    Map::empty()
                }).insert(variable.name@, reg),
            ),
            forall|p: Option<Seq<char>>| p != opt_view(variable.prefix) ==> #[trigger] final(self).sorted_names_of(p)
                == old(self).sorted_names_of(p),
    {
        let ghost before = *self;
        let k = match self.find(&variable.prefix) {
            Some(k) => k,
            None => {
                let n = self.regs.len();
                self.regs.push((copy_opt(&variable.prefix), Vec::new()));
                proof {
                    assert forall|i: int, j: int| 0 <= i < self.regs@.len() && 0 <= j < self.regs@.len() && i != j
                        implies opt_view(#[trigger] self.regs@[i].0) != opt_view(#[trigger] self.regs@[j].0) by {
                        if i < n && j < n {
                            assert(self.regs@[i] == before.regs@[i] && self.regs@[j] == before.regs@[j]);
                        } else if i < n {
                            assert(self.regs@[i] == before.regs@[i]);
                            assert(before.index_of(opt_view(variable.prefix)) is None);
                        } else {
                            assert(self.regs@[j] == before.regs@[j]);
                        }
                    }
                    assert forall|i: int| 0 <= i < self.regs@.len() implies pairs_sorted(#[trigger] self.regs@[i].1@) by {
                        if i < n {
                            assert(self.regs@[i] == before.regs@[i]);
                        }
                    }
                    assert(pairs_view(self.regs@[n as int].1@) =~= Map::<Seq<char>, usize>::empty());
                }
                n
            },
        };
        let ghost mid = *self;
        let (pfx, mut pairs) = self.regs.remove(k);
        proof {
            assert(mid.regs@[k as int] == (pfx, pairs));
            assert(pairs_sorted(pairs@));
        }
        set_pair(&mut pairs, variable.name.as_str(), reg);
        self.regs.insert(k, (pfx, pairs));
        proof {
            assert(self.regs@ =~= mid.regs@.update(k as int, (pfx, pairs)));
            assert forall|i: int, j: int| 0 <= i < self.regs@.len() && 0 <= j < self.regs@.len() && i != j
                implies opt_view(#[trigger] self.regs@[i].0) != opt_view(#[trigger] self.regs@[j].0) by {
                assert(self.regs@[i].0 == mid.regs@[i].0 && self.regs@[j].0 == mid.regs@[j].0);
            }
            assert forall|i: int| 0 <= i < self.regs@.len() implies pairs_sorted(#[trigger] self.regs@[i].1@) by {
                if i != k as int {
                    assert(self.regs@[i] == mid.regs@[i]);
                }
            }
            mid.lemma_index_of(k as int);
            assert forall|i: int| 0 <= i < self.regs@.len() implies opt_view(#[trigger] self.regs@[i].0) == opt_view(mid.regs@[i].0) by {}
            assert forall|p: Option<Seq<char>>| #[trigger] self.index_of(p) == mid.index_of(p) by {
                if mid.index_of(p) is Some {
                    let i = mid.index_of(p)->0;
                    mid.lemma_index_of(i);
                    self.lemma_index_of(i);
                }
                if self.index_of(p) is Some {
                    let i = self.index_of(p)->0;
                    mid.lemma_index_of(i);
                    self.lemma_index_of(i);
                }
            }
            assert forall|p: Option<Seq<char>>| #[trigger] mid.index_of(p) == before.index_of(p) || p == opt_view(variable.prefix) by {
                if before.index_of(p) is Some {
                    let i = before.index_of(p)->0;
                    before.lemma_index_of(i);
                    assert(mid.regs@[i] == before.regs@[i]);
                    mid.lemma_index_of(i);
                }
                if mid.index_of(p) is Some && p != opt_view(variable.prefix) {
                    let i = mid.index_of(p)->0;
                    mid.lemma_index_of(i);
                    assert(i < before.regs@.len());
                    assert(mid.regs@[i] == before.regs@[i]);
                    before.lemma_index_of(i);
                }
            }
            assert(self.view() =~= before.view().insert(
                opt_view(variable.prefix),
                (if before.view().contains_key(opt_view(variable.prefix)) {
                    before.view()[opt_view(variable.prefix)]
                } else {
                    Map::empty()
                }).insert(variable.name@, reg),
            ));
        }
    }

    /// The register of `variable`.
    pub fn get(&self, variable: &Variable) -> (r: Result<usize, String>)
        requires
            self.wf(),
        ensures
            match r {
                Ok(reg) => self.view().contains_key(opt_view(variable.prefix)) && self.view()[opt_view(
                    variable.prefix,
                )].contains_key(variable.name@) && self.view()[opt_view(variable.prefix)][variable.name@] == reg,
                Err(e) => !(self.view().contains_key(opt_view(variable.prefix)) && self.view()[opt_view(
                    variable.prefix,
                )].contains_key(variable.name@)) && e@ == unknown_variable_message(*variable),
            },
    {
        match self.find(&variable.prefix) {
            Some(k) => {
                let (p, found) = locate(&self.regs[k].1, variable.name.as_str());
                if found {
                    proof {
                        assert(pairs_sorted(self.regs@[k as int].1@));
                        lemma_pairs_at(self.regs@[k as int].1@, p as int);
                    }
                    return Ok(self.regs[k].1[p].1);
                }
            },
            None => {},
        }
        Err(unknown_variable(variable))
    }

    /// The names of `prefix`, in the order of strings.
    pub fn all_prefix(&self, prefix: &str) -> (r: Vec<String>)
        requires
            self.wf(),
        ensures
            r@.map_values(|s: String| s@) == self.sorted_names_of(Some(prefix@)),
    {
        let key = Some(owned(prefix));
        match self.find(&key) {
            Some(k) => {
                let l = &self.regs[k].1;
                let mut out: Vec<String> = Vec::new();
                let mut i: usize = 0;
                while i < l.len()
                    invariant
                        i <= l@.len(),
                        out@.len() == i,
                        forall|j: int| 0 <= j < i ==> #[trigger] out@[j]@ == l@[j].0@,
                    decreases l@.len() - i,
                {
                    out.push(l[i].0.clone());
                    i += 1;
                }
                proof {
                    assert(out@.map_values(|s: String| s@) =~= pair_names(l@));
                }
                out
            },
            None => {
                let out: Vec<String> = Vec::new();
                proof {
                    assert(out@.map_values(|s: String| s@) =~= Seq::<Seq<char>>::empty());
                }
                out
            },
        }
    }

    /// Whether any variable of `prefix` has a register.
    pub fn check_used(&self, prefix: &str) -> (r: bool)
        requires
            self.wf(),
        ensures
            r == self.view().contains_key(Some(prefix@)),
    {
        let key = Some(owned(prefix));
        self.find(&key).is_some()
    }
}

/// The message for a variable that has no register.
fn unknown_variable(v: &Variable) -> (r: String)
    ensures
        r@ == unknown_variable_message(*v),
{
    let mut s = owned("unknown variable '");
    match &v.prefix {
        Some(p) => {
            push_str(&mut s, p.as_str());
            push_str(&mut s, ".");
            push_str(&mut s, v.name.as_str());
        },
        None => {
            push_str(&mut s, v.name.as_str());
        },
    }
    push_str(&mut s, "'");
    proof {
        reveal_strlit("unknown variable '");
        reveal_strlit(".");
        reveal_strlit("'");
        assert(s@ =~= unknown_variable_message(*v));
    }
    s
}

} // verus!

verus! {

/// The registers of variables in nested scopes; the outermost scope is
/// the bottom one.
pub struct VarRegisters {
    regs: Vec<VarRegisterLevel>,
}

impl VarRegisters {
    /// The scopes, outermost first.
    pub closed spec fn levels(&self) -> Seq<VarRegisterLevel> {
        self.regs@
    }

    /// The internal invariant.
    pub closed spec fn wf(&self) -> bool {
        forall|i: int| 0 <= i < self.regs@.len() ==> (#[trigger] self.regs@[i]).wf()
    }

    /// One empty scope.
    pub fn new() -> (r: VarRegisters)
        ensures
            r.wf(),
            r.levels().len() == 1,
            r.levels()[0].view() == Map::<Option<Seq<char>>, Map<Seq<char>, usize>>::empty(),
    {
        let mut regs: Vec<VarRegisterLevel> = Vec::new();
        regs.push(VarRegisterLevel::new());
        VarRegisters { regs }
    }

    /// Opens an empty inner scope.
    pub fn push(&mut self)
        requires
            old(self).wf(),
        ensures
            final(self).wf(),
            final(self).levels().len() == old(self).levels().len() + 1,
            final(self).levels().drop_last() == old(self).levels(),
            final(self).levels().last().view() == Map::<Option<Seq<char>>, Map<Seq<char>, usize>>::empty(),
    {
        self.regs.push(VarRegisterLevel::new());
        proof {
            assert(self.levels().drop_last() =~= old(self).levels());
        }
    }

    /// Closes the innermost scope, if any.
    pub fn pop(&mut self)
        requires
            old(self).wf(),
        ensures
            final(self).wf(),
            final(self).levels() == if old(self).levels().len() == 0 {
                old(self).levels()
            } else {
                old(self).levels().drop_last()
            },
    {
        self.regs.pop();
        proof {
            if old(self).levels().len() > 0 {
                assert(self.levels() =~= old(self).levels().drop_last());
            }
        }
    }

    /// The innermost scope.
    pub fn top(&self) -> (r: &VarRegisterLevel)
        requires
            self.levels().len() > 0,
            self.wf(),
        ensures
            *r == self.levels().last(),
            r.wf(),
    {
        let n = self.regs.len();
        &self.regs[n - 1]
    }

    /// The outermost scope.
    pub fn bottom(&self) -> (r: &VarRegisterLevel)
        requires
            self.levels().len() > 0,
            self.wf(),
        ensures
            *r == self.levels()[0],
            r.wf(),
    {
        &self.regs[0]
    }

    /// The innermost scope, to change.
    pub fn top_mut(&mut self) -> (r: &mut VarRegisterLevel)
        requires
            old(self).levels().len() > 0,
            old(self).wf(),
        ensures
            *r == old(self).levels().last(),
            final(self).levels() == old(self).levels().update(old(self).levels().len() - 1, *final(r)),
    {
        let n = self.regs.len();
        &mut self.regs[n - 1]
    }

    /// Gives `variable` the register `reg` in the innermost scope.
    pub fn add(&mut self, variable: &Variable, reg: usize)
        requires
            old(self).levels().len() > 0,
            old(self).wf(),
        ensures
            final(self).wf(),
            final(self).levels().len() == old(self).levels().len(),
            final(self).levels().drop_last() == old(self).levels().drop_last(),
            final(self).levels().last().view() == old(self).levels().last().view().insert(
                opt_view(variable.prefix),
                (if old(self).levels().last().view().contains_key(opt_view(variable.prefix)) {
                    old(self).levels().last().view()[opt_view(variable.prefix)]
                } else {
                    Map::empty()
                }).insert(variable.name@, reg),
            ),
    {
        let ghost before = self.regs@;
        proof {
            assert(before[before.len() - 1].wf());
        }
        let top = self.top_mut();
        top.add(variable, reg);
        proof {
            assert forall|i: int| 0 <= i < self.regs@.len() implies (#[trigger] self.regs@[i]).wf() by {
                if i < before.len() - 1 {
                    assert(self.regs@[i] == before[i]);
                }
            }
            assert(self.levels().drop_last() =~= old(self).levels().drop_last());
        }
    }

    /// The register of `variable` in the innermost scope.
    pub fn get(&self, variable: &Variable) -> (r: Result<usize, String>)
        requires
            self.levels().len() > 0,
            self.wf(),
        ensures
            ({
                let v = self.levels().last().view();
                let p = opt_view(variable.prefix);
                match r {
                    Ok(reg) => v.contains_key(p) && v[p].contains_key(variable.name@) && v[p][variable.name@] == reg,
                    Err(e) => !(v.contains_key(p) && v[p].contains_key(variable.name@)) && e@
                        == unknown_variable_message(*variable),
                }
            }),
    {
        self.top().get(variable)
    }

    /// The register of `variable` in the outermost scope.
    pub fn get_outer(&self, variable: &Variable) -> (r: Result<usize, String>)
        requires
            self.levels().len() > 0,
            self.wf(),
        ensures
            ({
                let v = self.levels()[0].view();
                let p = opt_view(variable.prefix);
                match r {
                    Ok(reg) => v.contains_key(p) && v[p].contains_key(variable.name@) && v[p][variable.name@] == reg,
                    Err(e) => !(v.contains_key(p) && v[p].contains_key(variable.name@)) && e@
                        == unknown_variable_message(*variable),
                }
            }),
    {
        self.bottom().get(variable)
    }

    /// The names of `prefix` in the outermost scope, in the order of
    /// strings.
    pub fn outer_all_prefix(&self, prefix: &str) -> (r: Vec<String>)
        requires
            self.levels().len() > 0,
            self.wf(),
        ensures
            r@.map_values(|s: String| s@) == self.levels()[0].sorted_names_of(Some(prefix@)),
    {
        self.bottom().all_prefix(prefix)
    }

    /// Whether any variable of `prefix` has a register in the innermost
    /// scope.
    pub fn check_used(&self, prefix: &str) -> (r: bool)
        requires
            self.levels().len() > 0,
            self.wf(),
        ensures
            r == self.levels().last().view().contains_key(Some(prefix@)),
    {
        self.top().check_used(prefix)
    }
}

/// Closing the scope that `push` opened gives back the scopes as they
/// were.
pub proof fn lemma_scope_pop_undoes_push(before: Seq<VarRegisterLevel>, pushed: Seq<VarRegisterLevel>, popped: Seq<VarRegisterLevel>)
    requires
        pushed.len() == before.len() + 1,
        pushed.drop_last() == before,
        popped == (if pushed.len() == 0 { pushed } else { pushed.drop_last() }),
    ensures
        popped == before,
{
}

/// A variable given a register in the innermost scope is found there with
/// that register; the other variables of the scope keep theirs.
pub proof fn lemma_scope_read_back(before: Map<Option<Seq<char>>, Map<Seq<char>, usize>>, variable: Variable, reg: usize, other: Variable)
    ensures
        ({
            let p = opt_view(variable.prefix);
            let after = before.insert(p, (if before.contains_key(p) { before[p] } else { Map::empty() }).insert(variable.name@, reg));
            let q = opt_view(other.prefix);
            &&& after.contains_key(p) && after[p].contains_key(variable.name@) && after[p][variable.name@] == reg
            &&& (q != p || other.name@ != variable.name@) ==> ((after.contains_key(q) && after[q].contains_key(other.name@))
                == (before.contains_key(q) && before[q].contains_key(other.name@)))
            &&& (q != p || other.name@ != variable.name@) && before.contains_key(q) && before[q].contains_key(other.name@)
                ==> after[q][other.name@] == before[q][other.name@]
        }),
{
}

/// What the built transits give back for a call stack and position is
/// what was recorded last there, in the order of strings.
pub proof fn lemma_transit_read_back(recorded: Map<TransitKey, Set<Seq<char>>>, key: TransitKey, values: Seq<String>, built: Map<TransitKey, Seq<Seq<char>>>)
    requires
        built.dom() == recorded.insert(key, names(values)).dom(),
        forall|k: TransitKey| #[trigger] built.contains_key(k) ==> {
            &&& built[k].to_set() == recorded.insert(key, names(values))[k]
            &&& forall|i: int, j: int| 0 <= i < j < built[k].len() ==> chars_before(#[trigger] built[k][i], #[trigger] built[k][j])
        },
    ensures
        built.contains_key(key),
        built[key].to_set() == names(values),
        forall|i: int, j: int| 0 <= i < j < built[key].len() ==> chars_before(#[trigger] built[key][i], #[trigger] built[key][j]),
{
    assert(recorded.insert(key, names(values)).dom().contains(key));
}

} // verus!
