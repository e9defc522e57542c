//! Sets of names held in vectors of strings, once each.

use vstd::prelude::*;
use crate::text::{same_text, owned};

verus! {

/// The names held by `v`.
pub open spec fn names(v: Seq<String>) -> Set<Seq<char>> {
    Set::new(|c: Seq<char>| exists|i: int| 0 <= i < v.len() && #[trigger] v[i]@ == c)
}

/// No name occurs twice in `v`.
pub open spec fn distinct(v: Seq<String>) -> bool {
    forall|i: int, j: int| 0 <= i < v.len() && 0 <= j < v.len() && i != j ==> #[trigger] v[i]@ != #[trigger] v[j]@
}

/// A name stands in `v` at its index.
pub proof fn lemma_names_index(v: Seq<String>, i: int)
    requires
        0 <= i < v.len(),
    ensures
        names(v).contains(v[i]@),
{
}

/// Pushing a string adds its name.
pub proof fn lemma_names_push(v: Seq<String>, s: String)
    ensures
        names(v.push(s)) == names(v).insert(s@),
{
    assert forall|c: Seq<char>| names(v.push(s)).contains(c) <==> names(v).insert(s@).contains(c) by {
        if names(v.push(s)).contains(c) {
            let i = choose|i: int| 0 <= i < v.push(s).len() && #[trigger] v.push(s)[i]@ == c;
            if i < v.len() {
                assert(v[i]@ == c);
            }
        }
        if names(v).contains(c) {
            let i = choose|i: int| 0 <= i < v.len() && #[trigger] v[i]@ == c;
            assert(v.push(s)[i]@ == c);
        }
        if c == s@ {
            assert(v.push(s)[v.len() as int]@ == c);
        }
    }
    assert(names(v.push(s)) =~= names(v).insert(s@));
}

/// The index of the name `s` in `v`, if it is there.
pub fn find_name(v: &Vec<String>, s: &str) -> (r: Option<usize>)
    ensures
        match r {
            Some(i) => i < v@.len() && v@[i as int]@ == s@,
            None => !names(v@).contains(s@),
        },
{
    let mut i: usize = 0;
    while i < v.len()
        invariant
            i <= v@.len(),
            forall|j: int| 0 <= j < i ==> #[trigger] v@[j]@ != s@,
        decreases v@.len() - i,
    {
        if same_text(&v[i], s) {
            return Some(i);
        }
        i += 1;
    }
    proof {
        if names(v@).contains(s@) {
            let j = choose|j: int| 0 <= j < v@.len() && #[trigger] v@[j]@ == s@;
            assert(v@[j]@ != s@);
        }
    }
    None
}

/// Adds the name `s` to the set `v`.
pub fn insert_name(v: &mut Vec<String>, s: &str)
    requires
        distinct(old(v)@),
    ensures
        distinct(final(v)@),
        names(final(v)@) == names(old(v)@).insert(s@),
{
    match find_name(v, s) {
        Some(i) => {
            proof {
                lemma_names_index(v@, i as int);
                assert(names(v@).insert(s@) =~= names(v@));
            }
        },
        None => {
            let t = owned(s);
            let ghost before = v@;
            v.push(t);
            proof {
                lemma_names_push(before, t);
                assert forall|i: int, j: int| 0 <= i < v@.len() && 0 <= j < v@.len() && i != j
                    implies #[trigger] v@[i]@ != #[trigger] v@[j]@ by {
                    if i == before.len() {
                        lemma_names_index(before, j);
                    } else if j == before.len() {
                        lemma_names_index(before, i);
                    } else {
                        assert(v@[i] == before[i] && v@[j] == before[j]);
                    }
                }
            }
        },
    }
}

/// Removes the name `s` from the set `v`.
pub fn remove_name(v: &mut Vec<String>, s: &str)
    requires
        distinct(old(v)@),
    ensures
        distinct(final(v)@),
        names(final(v)@) == names(old(v)@).remove(s@),
{
    match find_name(v, s) {
        Some(i) => {
            let ghost before = v@;
            v.remove(i);
            proof {
                assert(v@ == before.remove(i as int));
                assert forall|c: Seq<char>| names(v@).contains(c) <==> names(before).remove(s@).contains(c) by {
                    if names(v@).contains(c) {
                        let k = choose|k: int| 0 <= k < v@.len() && #[trigger] v@[k]@ == c;
                        if k < i {
                            assert(v@[k] == before[k]);
                            lemma_names_index(before, k);
                        } else {
                            assert(v@[k] == before[k + 1]);
                            lemma_names_index(before, k + 1);
                        }
                    }
                    if names(before).contains(c) && c != s@ {
                        let k = choose|k: int| 0 <= k < before.len() && #[trigger] before[k]@ == c;
                        if k < i {
                            assert(v@[k] == before[k]);
                        } else {
                            assert(k != i);
                            assert(v@[k - 1] == before[k]);
                        }
                    }
                }
                assert(names(v@) =~= names(before).remove(s@));
                assert forall|a: int, b: int| 0 <= a < v@.len() && 0 <= b < v@.len() && a != b
                    implies #[trigger] v@[a]@ != #[trigger] v@[b]@ by {
                    let a2 = if a < i { a } else { a + 1 };
                    let b2 = if b < i { b } else { b + 1 };
                    assert(v@[a] == before[a2] && v@[b] == before[b2]);
                }
            }
        },
        None => {
            proof {
                assert(names(v@).remove(s@) =~= names(v@));
            }
        },
    }
}

/// Adds every name of `from` to the set `v`.
pub fn insert_names(v: &mut Vec<String>, from: &Vec<String>)
    requires
        distinct(old(v)@),
    ensures
        distinct(final(v)@),
        names(final(v)@) == names(old(v)@).union(names(from@)),
{
    let ghost start = v@;
    let mut i: usize = 0;
    while i < from.len()
        invariant
            i <= from@.len(),
            distinct(v@),
            names(v@) == names(start).union(names(from@.take(i as int))),
        decreases from@.len() - i,
    {
        insert_name(v, from[i].as_str());
        proof {
            assert(from@.take(i + 1) == from@.take(i as int).push(from@[i as int]));
            lemma_names_push(from@.take(i as int), from@[i as int]);
            assert(names(v@) =~= names(start).union(names(from@.take(i + 1))));
        }
        i += 1;
    }
    proof {
        assert(from@.take(i as int) =~= from@);
    }
}

/// A copy of the set `v`.
pub fn copy_names(v: &Vec<String>) -> (r: Vec<String>)
    requires
        distinct(v@),
    ensures
        distinct(r@),
        names(r@) == names(v@),
{
    let mut r: Vec<String> = Vec::new();
    proof {
        assert(names(r@) =~= Set::<Seq<char>>::empty());
        assert(names(r@).union(names(v@)) =~= names(v@));
    }
    insert_names(&mut r, v);
    r
}

} // verus!
