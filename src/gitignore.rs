//! One language's ignore document: the ordered path patterns of a `.gitignore`.
use vstd::prelude::*;

use crate::text::{free_of, join, join_lines, lemma_split_shape, split, split_on};

verus! {

/// Lines that can make up a document: at least one, none holding a newline.
pub open spec fn is_document(lines: Seq<Seq<char>>) -> bool {
    &&& lines.len() >= 1
    &&& forall|k: int| 0 <= k < lines.len() ==> free_of(#[trigger] lines[k], '\n')
}

/// A `.gitignore` template.
#[derive(Clone, Debug)]
pub struct Gitignore {
    /// Paths to ignore, one per line.
    ignored_paths: Vec<String>,
}

impl View for Gitignore {
    type V = Seq<Seq<char>>;

    /// The lines of the document.
    closed spec fn view(&self) -> Seq<Seq<char>> {
        self.ignored_paths@.map_values(|p: String| p@)
    }
}

impl Gitignore {
    /// The document is made of well-formed lines.
    pub open spec fn wf(&self) -> bool {
        is_document(self@)
    }

    /// Creates a document from text, one line per newline-separated piece.
    pub fn from_string(string: &str) -> (r: Gitignore)
        ensures
            r@ == split(string@, '\n'),
            r.wf(),
    {
        proof {
            lemma_split_shape(string@, '\n', '\n');
        }
        Gitignore { ignored_paths: split_on(string, '\n') }
    }

    /// The lines of the document.
    pub fn lines(&self) -> (r: &Vec<String>)
        ensures
            r@.map_values(|p: String| p@) == self@,
    {
        &self.ignored_paths
    }

    /// The document as file text: its lines joined by newlines.
    pub fn text(&self) -> (r: String)
        ensures
            r@ == join(self@, '\n'),
    {
        join_lines(&self.ignored_paths)
    }

    /// The document as printed: its text followed by a newline.
    pub fn to_string(&self) -> (r: String)
        ensures
            r@ == join(self@, '\n').push('\n'),
    {
        let mut out = join_lines(&self.ignored_paths);
        out.append("\n");
        proof {
            reveal_strlit("\n");
        }
        out
    }

    /// A copy of the document with the same lines.
    pub fn duplicate(&self) -> (r: Gitignore)
        ensures
            r@ == self@,
    {
        let mut lines: Vec<String> = Vec::new();
        let mut i: usize = 0;
        while i < self.ignored_paths.len()
            invariant
                i <= self.ignored_paths@.len(),
                lines@.map_values(|p: String| p@) == self@.subrange(0, i as int),
            decreases self.ignored_paths@.len() - i,
        {
            let ghost before = lines@.map_values(|p: String| p@);
            lines.push(self.ignored_paths[i].clone());
            proof {
                assert(lines@.map_values(|p: String| p@) =~= before.push(self@[i as int]));
                assert(self@.subrange(0, i + 1) =~= self@.subrange(0, i as int).push(
                    self@[i as int],
                ));
            }
            i = i + 1;
        }
        proof {
            assert(self@.subrange(0, i as int) =~= self@);
        }
        Gitignore { ignored_paths: lines }
    }
}

} // verus!
