//! Where source texts come from: a fixed set of texts held by name.

use vstd::prelude::*;
use crate::position::ParsePosition;
use crate::text::{owned, push_char, push_str};
use crate::unbundleaux::{lemma_pairs_at, locate, pairs_sorted, pairs_view, set_pair};

verus! {

/// The texts of `files` by name; a later entry for a name wins.
pub open spec fn source_map(files: Seq<(String, String)>) -> Map<Seq<char>, Seq<char>>
    decreases files.len(),
{
    if files.len() == 0 {
        Map::empty()
    } else {
        source_map(files.drop_last()).insert(files.last().0@, files.last().1@)
    }
}

/// The message for a file that cannot be found.
pub open spec fn cannot_find_message(filename: Seq<char>) -> Seq<char> {
    "cannot find '"@ + filename + seq!['\'']
}

/// A fixed set of source texts, by file name.
pub struct FixedSourceSource {
    files: Vec<(String, String)>,
}

impl FixedSourceSource {
    /// The texts, by file name.
    pub closed spec fn view(&self) -> Map<Seq<char>, Seq<char>> {
        pairs_view(self.files@).map_values(|s: String| s@)
    }

    /// The internal invariant.
    pub closed spec fn wf(&self) -> bool {
        pairs_sorted(self.files@)
    }

    /// Holds the given texts, by name.
    pub fn new(files: Vec<(String, String)>) -> (r: FixedSourceSource)
        ensures
            r.wf(),
            r.view() == source_map(files@),
    {
        let mut held: Vec<(String, String)> = Vec::new();
        let mut i: usize = 0;
        proof {
            assert(pairs_view(held@).map_values(|s: String| s@) =~= source_map(files@.take(0)));
        }
        while i < files.len()
            invariant
                i <= files@.len(),
                pairs_sorted(held@),
                pairs_view(held@).map_values(|s: String| s@) == source_map(files@.take(i as int)),
            decreases files@.len() - i,
        {
            let ghost before = held@;
            let name = files[i].0.as_str();
            let text = owned(files[i].1.as_str());
            set_pair(&mut held, name, text);
            proof {
                assert(files@.take(i + 1).drop_last() =~= files@.take(i as int));
                assert(pairs_view(held@).map_values(|s: String| s@) =~= pairs_view(before).map_values(|s: String| s@).insert(
                    files@[i as int].0@,
                    files@[i as int].1@,
                ));
            }
            i += 1;
        }
        proof {
            assert(files@.take(i as int) =~= files@);
        }
        FixedSourceSource { files: held }
    }

    /// A copy holding the same texts.
    pub fn copy(&self) -> (r: FixedSourceSource)
        requires
            self.wf(),
        ensures
            r.wf(),
            r.view() == self.view(),
    {
        let mut files: Vec<(String, String)> = Vec::new();
        let mut i: usize = 0;
        while i < self.files.len()
            invariant
                i <= self.files@.len(),
                files@.len() == i,
                forall|j: int| 0 <= j < i ==> #[trigger] files@[j].0@ == self.files@[j].0@ && files@[j].1@ == self.files@[j].1@,
            decreases self.files@.len() - i,
        {
            files.push((owned(self.files[i].0.as_str()), owned(self.files[i].1.as_str())));
            i += 1;
        }
        let r = FixedSourceSource { files };
        proof {
            assert(pairs_sorted(files@));
            assert forall|k: Seq<char>| #[trigger] pairs_view(files@).contains_key(k) <==> pairs_view(self.files@).contains_key(k) by {
                if pairs_view(files@).contains_key(k) {
                    let j = choose|j: int| 0 <= j < files@.len() && #[trigger] files@[j].0@ == k;
                    assert(self.files@[j].0@ == k);
                }
                if pairs_view(self.files@).contains_key(k) {
                    let j = choose|j: int| 0 <= j < self.files@.len() && #[trigger] self.files@[j].0@ == k;
                    assert(files@[j].0@ == k);
                }
            }
            assert forall|k: Seq<char>| #[trigger] pairs_view(files@).contains_key(k) implies pairs_view(files@)[k]@
                == pairs_view(self.files@)[k]@ by {
                let j = choose|j: int| 0 <= j < files@.len() && #[trigger] files@[j].0@ == k;
                lemma_pairs_at(files@, j);
                lemma_pairs_at(self.files@, j);
            }
            assert(r.view() =~= self.view());
        }
        r
    }

    /// The text of the named file, with a source for the files it names.
    pub fn lookup(&self, pos: &ParsePosition, filename: &str) -> (r: Result<(SourceSourceImpl, String), String>)
        requires
            self.wf(),
        ensures
            match r {
                Ok((s, text)) => self.view().contains_key(filename@) && text@ == self.view()[filename@] && s.view()
                    == self.view(),
                Err(e) => !self.view().contains_key(filename@) && e@ == cannot_find_message(filename@),
            },
    {
        let (p, found) = locate(&self.files, filename);
        if found {
            proof {
                lemma_pairs_at(self.files@, p as int);
            }
            let text = owned(self.files[p].1.as_str());
            Ok((SourceSourceImpl::new(self.copy()), text))
        } else {
            let mut e = owned("cannot find '");
            push_str(&mut e, filename);
            push_char(&mut e, '\'');
            proof {
                reveal_strlit("cannot find '");
                assert(e@ =~= cannot_find_message(filename@));
            }
            Err(e)
        }
    }
}

/// A source of texts for the compiler to read.
pub struct SourceSourceImpl {
    source: FixedSourceSource,
}

impl SourceSourceImpl {
    /// The texts, by file name.
    pub closed spec fn view(&self) -> Map<Seq<char>, Seq<char>> {
        self.source.view()
    }

    /// The internal invariant.
    pub closed spec fn wf(&self) -> bool {
        self.source.wf()
    }

    /// A source that reads from `soso`.
    pub fn new(soso: FixedSourceSource) -> (r: SourceSourceImpl)
        requires
            soso.wf(),
        ensures
            r.wf(),
            r.view() == soso.view(),
    {
        SourceSourceImpl { source: soso }
    }

    /// The text of the named file, with a source for the files it names.
    pub fn lookup(&self, pos: &ParsePosition, filename: &str) -> (r: Result<(SourceSourceImpl, String), String>)
        requires
            self.wf(),
        ensures
            match r {
                Ok((s, text)) => self.view().contains_key(filename@) && text@ == self.view()[filename@] && s.view()
                    == self.view(),
                Err(e) => !self.view().contains_key(filename@) && e@ == cannot_find_message(filename@),
            },
    {
        self.source.lookup(pos, filename)
    }
}

} // verus!
