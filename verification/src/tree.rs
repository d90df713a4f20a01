//! The syntax tree that the walker reads: typed nodes over byte ranges.

use vstd::prelude::*;

verus! {

/// A node of a syntax tree: its kind, the half-open byte range
/// `[start_byte, end_byte)` of the source that it covers, and its children
/// from left to right.
#[derive(Debug)]
pub struct SyntaxNode {
    pub kind: String,
    pub start_byte: usize,
    pub end_byte: usize,
    pub children: Vec<SyntaxNode>,
}

impl SyntaxNode {
    /// The ranges are well formed: a node's range is not reversed, it
    /// contains the ranges of its children, and siblings follow one another
    /// without overlap (gaps between them are allowed).
    pub open spec fn wf(&self) -> bool
        decreases self,
    {
        &&& self.start_byte <= self.end_byte
        &&& forall|i: int|
            0 <= i < self.children@.len() ==> {
                &&& (#[trigger] self.children@[i]).wf()
                &&& self.start_byte <= self.children@[i].start_byte
                &&& self.children@[i].end_byte <= self.end_byte
            }
        &&& forall|i: int, j: int|
            0 <= i < j < self.children@.len() ==> (#[trigger] self.children@[i]).end_byte <= (
            #[trigger] self.children@[j]).start_byte
    }

    /// Whether the ranges of this tree are well formed.
    pub fn is_well_formed(&self) -> (ok: bool)
        ensures
            ok == self.wf(),
        decreases self,
    {
        if self.start_byte > self.end_byte {
            return false;
        }
        let n: usize = self.children.len();
        let mut i: usize = 0;
        let mut floor: usize = self.start_byte;
        while i < n
            invariant
                n == self.children@.len(),
                i <= n,
                self.start_byte <= floor <= self.end_byte,
                forall|a: int|
                    0 <= a < i ==> {
                        &&& (#[trigger] self.children@[a]).wf()
                        &&& self.start_byte <= self.children@[a].start_byte
                        &&& self.children@[a].end_byte <= floor
                    },
                forall|a: int, b: int|
                    0 <= a < b < i ==> (#[trigger] self.children@[a]).end_byte <= (
                    #[trigger] self.children@[b]).start_byte,
                i == 0 ==> floor == self.start_byte,
                i > 0 ==> floor == self.children@[i - 1].end_byte,
            decreases n - i,
        {
            let child = &self.children[i];
            if !child.is_well_formed() || child.start_byte < floor || child.end_byte
                > self.end_byte {
                proof {
                    if i > 0 {
                        assert(self.children@[i - 1].end_byte == floor);
                    }
                    assert(self.children@[i as int] == *child);
                }
                return false;
            }
            floor = child.end_byte;
            i += 1;
        }
        true
    }
}

} // verus!
