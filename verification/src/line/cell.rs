//! The cells of a line, one after another.

use crate::unicode::{
    cells, cells_at, lemma_cells_within, lemma_text_ends, next_cluster, width_at, width_of,
    CellView,
};
use vstd::prelude::*;
use vstd::string::StringSliceAdditionalSpecFns;
use vstd::utf8::*;

verus! {

/// A cluster of non-zero width with its place in the line.
#[derive(Copy, Clone, Eq, PartialEq, Debug)]
pub struct Cell<'a> {
    /// Offset in bytes of the cluster.
    pub index: usize,
    /// The first column that the cluster covers.
    pub column: u16,
    /// The number of columns it covers: 1 or 2.
    pub width: u16,
    /// The cluster itself.
    pub str: &'a str,
}

impl<'a> View for Cell<'a> {
    type V = CellView;

    open spec fn view(&self) -> CellView {
        CellView {
            index: self.index as nat,
            len: self.str.spec_bytes().len(),
            column: self.column as nat,
            width: self.width as nat,
        }
    }
}

/// A cursor over the cells of a text that is no wider than a line can be.
/// Clusters of width 0 are passed over.
#[derive(Debug)]
pub struct Cells<'a> {
    text: &'a str,
    index: usize,
    column: u16,
}

impl<'a> Clone for Cells<'a> {
    fn clone(&self) -> (cursor: Self)
        ensures
            cursor == *self,
    {
        proof {
            use_type_invariant(self);
        }
        Cells { text: self.text, index: self.index, column: self.column }
    }
}

impl<'a> Cells<'a> {
    #[verifier::type_invariant]
    spec fn inv(self) -> bool {
        &&& self.index <= self.text.spec_bytes().len()
        &&& is_char_boundary(self.text.spec_bytes(), self.index as int)
        &&& self.column + width_at(self.text.spec_bytes(), self.index as nat) == width_of(
            self.text.spec_bytes(),
        )
        &&& width_of(self.text.spec_bytes()) <= u16::MAX
    }

    /// The bytes of the text that the cursor walks.
    pub closed spec fn text(self) -> Seq<u8> {
        self.text.spec_bytes()
    }

    /// The cells still to come.
    pub closed spec fn remaining(self) -> Seq<CellView> {
        cells_at(self.text.spec_bytes(), self.index as nat, self.column as nat)
    }

    /// A cursor before the first cell of `str`.
    pub fn new(str: &'a str) -> (cursor: Self)
        requires
            width_of(str.spec_bytes()) <= u16::MAX,
        ensures
            cursor.text() == str.spec_bytes(),
            cursor.remaining() == cells(str.spec_bytes()),
    {
        proof {
            lemma_text_ends(str@);
        }
        Cells { text: str, index: 0, column: 0 }
    }

    /// The next cell, if there is one.
    pub fn next(&mut self) -> (cell: Option<Cell<'a>>)
        ensures
            final(self).text() == old(self).text(),
            cell is None ==> old(self).remaining().len() == 0 && final(self).remaining().len() == 0,
            cell matches Some(c) ==> {
                &&& old(self).remaining() == seq![c@] + final(self).remaining()
                &&& c@.end() <= old(self).text().len()
                &&& c.str.spec_bytes() == old(self).text().subrange(
                    c@.index as int,
                    c@.end() as int,
                )
                &&& 1 <= c.width <= 2
                &&& c@.right() <= width_of(old(self).text())
                &&& forall|k: int|
                    0 <= k < final(self).remaining().len() ==> c@.right() <= (
                    #[trigger] final(self).remaining()[k]).column
            },
    {
        proof {
            use_type_invariant(&*self);
            lemma_cells_within(
                self.text.spec_bytes(),
                self.index as nat,
                self.column as nat,
            );
        }
        match next_cluster(self.text, self.index) {
            Some(cluster) => {
                let cell = Cell {
                    index: cluster.index,
                    column: self.column,
                    width: cluster.width,
                    str: cluster.str,
                };
                *self = Cells {
                    text: self.text,
                    index: cluster.index + cluster.len,
                    column: self.column + cluster.width,
                };
                proof {
                    lemma_cells_within(
                        self.text.spec_bytes(),
                        self.index as nat,
                        self.column as nat,
                    );
                }
                Some(cell)
            },
            None => None,
        }
    }
}

} // verus!
