//! The grapheme clusters of a text, one after another.

use crate::unicode::{first_grapheme_len, first_len};
use vstd::prelude::*;
use vstd::string::StringSliceAdditionalSpecFns;
use vstd::utf8::*;

verus! {

/// A cursor over the grapheme clusters of a text. Every cluster is yielded,
/// whatever its width.
pub struct Graphemes<'a> {
    str: &'a str,
}

impl<'a> Graphemes<'a> {
    /// The bytes of the text still to be walked.
    pub closed spec fn rest(self) -> Seq<u8> {
        self.str.spec_bytes()
    }

    /// A cursor before the first cluster of `str`.
    pub fn new(str: &'a str) -> (cursor: Self)
        ensures
            cursor.rest() == str.spec_bytes(),
    {
        Self { str }
    }

    /// The next cluster, if the text is not used up: the cluster with which
    /// the rest of the text starts. The cursor moves past it.
    pub fn next(&mut self) -> (cluster: Option<&'a str>)
        ensures
            cluster is None <==> old(self).rest().len() == 0,
            cluster is None ==> final(self).rest() == old(self).rest(),
            cluster matches Some(cluster) ==> {
                let len = first_len(old(self).rest());
                &&& 0 < len <= old(self).rest().len()
                &&& cluster.spec_bytes() == old(self).rest().take(len as int)
                &&& final(self).rest() == old(self).rest().skip(len as int)
            },
    {
        let str = self.str;
        proof {
            encode_utf8_decode_utf8(str@);
        }
        let len = match first_grapheme_len(str) {
            Some(len) => len,
            None => {
                return None;
            },
        };
        let (cluster, rest) = str.split_at(len);
        self.str = rest;
        proof {
            assert(cluster.spec_bytes() =~= str.spec_bytes().take(len as int));
            assert(rest.spec_bytes() =~= str.spec_bytes().skip(len as int));
        }
        Some(cluster)
    }
}

} // verus!
