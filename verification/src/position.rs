//! Source positions: a file and line, within a chain of inclusions.

use vstd::prelude::*;
use crate::text::{decimal, push_char, push_decimal, push_str};

verus! {

/// A file name and a line number within it.
#[derive(Debug)]
pub struct FilePosition {
    pub filename: String,
    pub line_no: u32,
}

impl Clone for FilePosition {
    fn clone(&self) -> (r: Self)
        ensures
            r == *self,
    {
        FilePosition { filename: self.filename.clone(), line_no: self.line_no }
    }
}

/// The text of a file position: `name:line`.
pub open spec fn file_text(f: FilePosition) -> Seq<char> {
    f.filename@ + seq![':'] + decimal(f.line_no as nat)
}

impl FilePosition {
    /// The position of anonymous input, `*anon*` line 0.
    pub fn anon() -> (r: FilePosition)
        ensures
            r.filename@ == "*anon*"@,
            r.line_no == 0,
    {
        FilePosition { filename: String::from_str("*anon*"), line_no: 0 }
    }

    /// The start of the named file, line 0.
    pub fn new(filename: &str) -> (r: FilePosition)
        ensures
            r.filename@ == filename@,
            r.line_no == 0,
    {
        FilePosition { filename: String::from_str(filename), line_no: 0 }
    }

    /// The text `name:line`.
    pub fn to_text(&self) -> (r: String)
        ensures
            r@ == file_text(*self),
    {
        let mut out = self.filename.clone();
        push_char(&mut out, ':');
        push_decimal(&mut out, self.line_no as u64);
        out
    }
}

/// A file position and the positions through which it was reached: the
/// outermost first, the node's own file last.
#[derive(Debug)]
pub struct PositionNode {
    chain: Vec<FilePosition>,
}

/// The text of the files of `chain`, nearest first, each as `prefix`,
/// `name:line` and `suffix`.
pub open spec fn node_text(chain: Seq<FilePosition>, prefix: Seq<char>, suffix: Seq<char>) -> Seq<char>
    decreases chain.len(),
{
    if chain.len() == 0 {
        Seq::empty()
    } else {
        prefix + file_text(chain.last()) + suffix + node_text(chain.drop_last(), prefix, suffix)
    }
}

impl Clone for PositionNode {
    fn clone(&self) -> (r: Self)
        ensures
            r.files() == self.files(),
    {
        let mut chain: Vec<FilePosition> = Vec::new();
        let mut i: usize = 0;
        while i < self.chain.len()
            invariant
                i <= self.chain@.len(),
                chain@ == self.chain@.take(i as int),
            decreases self.chain@.len() - i,
        {
            chain.push(self.chain[i].clone());
            i += 1;
            proof {
                assert(chain@ =~= self.chain@.take(i as int));
            }
        }
        proof {
            assert(chain@ =~= self.chain@);
        }
        PositionNode { chain }
    }
}

impl PositionNode {
    /// The files of the node, outermost first, its own last.
    pub closed spec fn files(&self) -> Seq<FilePosition> {
        self.chain@
    }

    /// The text of the node's files, nearest first, each between `prefix`
    /// and `suffix`.
    pub fn to_str(&self, prefix: &str, suffix: &str) -> (r: String)
        ensures
            r@ == node_text(self.files(), prefix@, suffix@),
    {
        let mut out = String::new();
        let mut i: usize = self.chain.len();
        proof {
            assert(self.chain@.take(i as int) =~= self.chain@);
        }
        while i > 0
            invariant
                i <= self.chain@.len(),
                out@ + node_text(self.chain@.take(i as int), prefix@, suffix@) == node_text(self.chain@, prefix@, suffix@),
            decreases i,
        {
            let ghost before = out@;
            push_str(&mut out, prefix);
            let t = self.chain[i - 1].to_text();
            push_str(&mut out, t.as_str());
            push_str(&mut out, suffix);
            proof {
                let c = self.chain@.take(i as int);
                assert(c.last() == self.chain@[i - 1]);
                assert(c.drop_last() =~= self.chain@.take(i - 1));
                assert(out@ =~= before + (prefix@ + file_text(c.last()) + suffix@));
                assert(out@ + node_text(self.chain@.take(i - 1), prefix@, suffix@) =~= before + node_text(c, prefix@, suffix@));
            }
            i -= 1;
        }
        proof {
            assert(node_text(self.chain@.take(0), prefix@, suffix@) == Seq::<char>::empty());
            assert(out@ + Seq::<char>::empty() =~= out@);
        }
        out
    }

    /// Whether the named file occurs anywhere in the node's files.
    pub fn contains(&self, filename: &str) -> (r: bool)
        ensures
            r == exists|i: int| 0 <= i < self.files().len() && #[trigger] self.files()[i].filename@ == filename@,
    {
        let wanted = String::from_str(filename);
        let mut i: usize = 0;
        while i < self.chain.len()
            invariant
                i <= self.chain@.len(),
                wanted@ == filename@,
                forall|j: int| 0 <= j < i ==> #[trigger] self.chain@[j].filename@ != filename@,
            decreases self.chain@.len() - i,
        {
            if self.chain[i].filename == wanted {
                assert(self.files()[i as int].filename@ == filename@);
                return true;
            }
            i += 1;
        }
        false
    }

    /// The node through which this one was reached: all but its own file.
    fn parent(&self) -> (r: PositionNode)
        requires
            self.files().len() > 0,
        ensures
            r.files() == self.files().drop_last(),
    {
        let mut chain: Vec<FilePosition> = Vec::new();
        let mut i: usize = 0;
        let n: usize = self.chain.len() - 1;
        while i < n
            invariant
                n == self.chain@.len() - 1,
                i <= n,
                chain@ == self.chain@.take(i as int),
            decreases n - i,
        {
            chain.push(self.chain[i].clone());
            i += 1;
            proof {
                assert(chain@ =~= self.chain@.take(i as int));
            }
        }
        proof {
            assert(chain@ =~= self.chain@.drop_last());
        }
        PositionNode { chain }
    }
}

/// A position in the source: the node of files through which it was
/// reached, the current file last, and the word that describes how one
/// file leads to the next.
#[derive(Debug)]
pub struct ParsePosition {
    node: PositionNode,
    variety: String,
}

impl Clone for ParsePosition {
    fn clone(&self) -> (r: Self)
        ensures
            r.files() == self.files(),
            r.spec_variety() == self.spec_variety(),
    {
        ParsePosition { node: self.node.clone(), variety: self.variety.clone() }
    }
}

impl ParsePosition {
    /// Well-formed: the chain holds at least the current file.
    pub open spec fn wf(&self) -> bool {
        self.files().len() > 0
    }

    /// The chain of files, outermost first, current last.
    pub closed spec fn files(&self) -> Seq<FilePosition> {
        self.node.files()
    }

    /// The word that describes how one file leads to the next.
    pub closed spec fn spec_variety(&self) -> Seq<char> {
        self.variety@
    }

    /// The current file position.
    pub open spec fn current(&self) -> FilePosition {
        self.files().last()
    }

    /// The full text of the position: the current file, then each outer
    /// file nearest first, as ` (variety from name:line)`.
    pub open spec fn spec_full_text(&self) -> Seq<char> {
        file_text(self.current()) + node_text(
            self.files().drop_last(),
            " ("@ + self.spec_variety() + " from "@,
            ")"@,
        )
    }

    /// A position at the start of the named file.
    pub fn new(filename: &str, variety: &str) -> (r: ParsePosition)
        ensures
            r.wf(),
            r.files().len() == 1,
            r.current().filename@ == filename@,
            r.current().line_no == 0,
            r.spec_variety() == variety@,
    {
        ParsePosition { node: PositionNode { chain: vec![FilePosition::new(filename)] }, variety: String::from_str(variety) }
    }

    /// A position in anonymous input.
    pub fn empty(variety: &str) -> (r: ParsePosition)
        ensures
            r.wf(),
            r.files().len() == 1,
            r.current().filename@ == "*anon*"@,
            r.current().line_no == 0,
            r.spec_variety() == variety@,
    {
        ParsePosition { node: PositionNode { chain: vec![FilePosition::anon()] }, variety: String::from_str(variety) }
    }

    /// Whether the named file occurs anywhere in the chain.
    pub fn contains(&self, filename: &str) -> (r: bool)
        ensures
            r == exists|i: int| 0 <= i < self.files().len() && #[trigger] self.files()[i].filename@ == filename@,
    {
        let r = self.node.contains(filename);
        proof {
            assert(self.files() == self.node.files());
        }
        r
    }

    /// The same position at another line of the current file.
    pub fn at_line(&self, line_no: u32) -> (r: ParsePosition)
        requires
            self.wf(),
        ensures
            r.wf(),
            r.spec_variety() == self.spec_variety(),
            r.files().len() == self.files().len(),
            r.files().drop_last() == self.files().drop_last(),
            r.current().filename == self.current().filename,
            r.current().line_no == line_no,
    {
        let mut out = self.clone();
        let last = out.node.chain.len() - 1;
        out.node.chain[last].line_no = line_no;
        proof {
            assert(out.node.chain@.drop_last() =~= self.node.chain@.drop_last());
        }
        out
    }

    /// Replaces the current file, keeping the outer files.
    pub fn update(&mut self, file: &FilePosition)
        requires
            old(self).wf(),
        ensures
            final(self).wf(),
            final(self).spec_variety() == old(self).spec_variety(),
            final(self).files() == old(self).files().drop_last().push(*file),
    {
        let last = self.node.chain.len() - 1;
        self.node.chain.set(last, file.clone());
        proof {
            assert(self.node.chain@ =~= old(self).node.chain@.drop_last().push(*file));
        }
    }

    /// A position one file deeper: `pos` reached from this position.
    pub fn add(&self, pos: &FilePosition) -> (r: ParsePosition)
        requires
            self.wf(),
        ensures
            r.wf(),
            r.spec_variety() == self.spec_variety(),
            r.files() == self.files().push(*pos),
    {
        let mut out = self.clone();
        out.node.chain.push(pos.clone());
        out
    }

    /// A position at the start of the named file, reached from this one.
    pub fn push(&self, filename: &str) -> (r: ParsePosition)
        requires
            self.wf(),
        ensures
            r.wf(),
            r.spec_variety() == self.spec_variety(),
            r.files().drop_last() == self.files(),
            r.current().filename@ == filename@,
            r.current().line_no == 0,
    {
        let r = self.add(&FilePosition::new(filename));
        proof {
            assert(r.files().drop_last() =~= self.files());
        }
        r
    }

    /// The current file position.
    pub fn last(&self) -> (r: &FilePosition)
        requires
            self.wf(),
        ensures
            *r == self.current(),
    {
        &self.node.chain[self.node.chain.len() - 1]
    }

    /// The text of the current file position.
    pub fn last_str(&self) -> (r: String)
        requires
            self.wf(),
        ensures
            r@ == file_text(self.current()),
    {
        self.last().to_text()
    }

    /// The full text of the position, e.g.
    /// `b:3 (included from a:7)`.
    pub fn full_str(&self) -> (r: String)
        requires
            self.wf(),
        ensures
            r@ == self.spec_full_text(),
    {
        let n = self.node.chain.len();
        let mut out = self.node.chain[n - 1].to_text();
        let mut prefix = String::from_str(" (");
        push_str(&mut prefix, self.variety.as_str());
        push_str(&mut prefix, " from ");
        let rest = self.node.parent().to_str(prefix.as_str(), ")");
        push_str(&mut out, rest.as_str());
        proof {
            reveal_strlit(" (");
            reveal_strlit(" from ");
            reveal_strlit(")");
            assert(prefix@ =~= " ("@ + self.variety@ + " from "@);
        }
        out
    }

    /// A message located at this position: `msg at <full position>`.
    pub fn message(&self, msg: &str) -> (r: String)
        requires
            self.wf(),
        ensures
            r@ == msg@ + " at "@ + self.spec_full_text(),
    {
        let mut out = String::from_str(msg);
        push_str(&mut out, " at ");
        let full = self.full_str();
        push_str(&mut out, full.as_str());
        out
    }
}

} // verus!
