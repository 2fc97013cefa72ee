//! The cells of a text, one after another.

use crate::unicode::{cells, cells_at, next_cluster, CellView};
use vstd::prelude::*;
use vstd::string::StringSliceAdditionalSpecFns;
use vstd::utf8::*;

verus! {

/// A cluster of non-zero width with its place in the text.
#[derive(Copy, Clone, Eq, PartialEq, Debug)]
pub struct Cell<'a> {
    /// Offset in bytes of the cluster.
    pub index: usize,
    /// The first column that the cluster covers.
    pub column: usize,
    /// The number of columns it covers: 1 or 2.
    pub width: usize,
    /// The cluster itself.
    pub str: &'a str,
}

impl<'a> View for Cell<'a> {
    type V = CellView;

    open spec fn view(&self) -> CellView {
        CellView {
            index: self.index as nat,
            len: self.str.spec_bytes().len(),
            column: self.column as nat,
            width: self.width as nat,
        }
    }
}

/// A cursor over the cells of a text. Clusters of width 0 are passed over.
#[derive(Debug)]
pub struct Cells<'a> {
    text: &'a str,
    index: usize,
    column: usize,
}

impl<'a> Clone for Cells<'a> {
    fn clone(&self) -> (cursor: Self)
        ensures
            cursor == *self,
    {
        proof {
            use_type_invariant(self);
        }
        Cells { text: self.text, index: self.index, column: self.column }
    }
}

impl<'a> Cells<'a> {
    #[verifier::type_invariant]
    spec fn inv(self) -> bool {
        &&& self.index <= self.text.spec_bytes().len()
        &&& is_char_boundary(self.text.spec_bytes(), self.index as int)
        &&& self.column + 2 * (self.text.spec_bytes().len() - self.index) <= usize::MAX
    }

    /// The bytes of the text that the cursor walks.
    pub closed spec fn text(self) -> Seq<u8> {
        self.text.spec_bytes()
    }

    /// The cells still to come.
    pub closed spec fn remaining(self) -> Seq<CellView> {
        cells_at(self.text.spec_bytes(), self.index as nat, self.column as nat)
    }

    /// A cursor before the first cell of `str`.
    pub fn new(str: &'a str) -> (cursor: Self)
        requires
            2 * str.spec_bytes().len() <= usize::MAX,
        ensures
            cursor.text() == str.spec_bytes(),
            cursor.remaining() == cells(str.spec_bytes()),
    {
        proof {
            encode_utf8_valid_utf8(str@);
            is_char_boundary_start_end_of_seq(str.spec_bytes());
        }
        Cells { text: str, index: 0, column: 0 }
    }

    /// The next cell, if there is one.
    pub fn next(&mut self) -> (cell: Option<Cell<'a>>)
        ensures
            final(self).text() == old(self).text(),
            cell is None ==> old(self).remaining().len() == 0 && final(self).remaining().len() == 0,
            cell matches Some(c) ==> {
                &&& old(self).remaining() == seq![c@] + final(self).remaining()
                &&& c@.end() <= old(self).text().len()
                &&& c.str.spec_bytes() == old(self).text().subrange(
                    c@.index as int,
                    c@.end() as int,
                )
            },
    {
        proof {
            use_type_invariant(&*self);
        }
        match next_cluster(self.text, self.index) {
            Some(cluster) => {
                let cell = Cell {
                    index: cluster.index,
                    column: self.column,
                    width: cluster.width as usize,
                    str: cluster.str,
                };
                self.index = cluster.index + cluster.len;
                self.column = self.column + cluster.width as usize;
                Some(cell)
            },
            None => None,
        }
    }
}

} // verus!
