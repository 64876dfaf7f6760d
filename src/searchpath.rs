//! Search paths for `require`: a colon-separated list of directories.
//!
//! Whether a directory exists is for the caller to find out; this module
//! splits the list and sorts its entries by the answers it is given.

use crate::text::nonempty;
use crate::text::pieces;
use crate::text::split_nonempty;
use crate::text::string_views;
use vstd::prelude::*;

verus! {

/// The directories searched for `require`d files, in order.
pub struct SearchPath {
    pub paths: Vec<String>,
}

/// The entries of a search path that do not exist, and the search path made
/// of those that do.
pub struct SearchPathError {
    pub missing: Vec<String>,
    pub kept: SearchPath,
}

/// The entries of a search path string.
pub open spec fn components(s: Seq<char>) -> Seq<Seq<char>> {
    nonempty(pieces(s, ':'))
}

/// Whether entry `i` exists, by the answers `present`.
pub open spec fn exists_at(present: Seq<bool>, i: int) -> bool {
    i < present.len() && present[i]
}

/// The entries among `cs` that exist (`keep`), or those that do not.
pub open spec fn select(cs: Seq<Seq<char>>, present: Seq<bool>, keep: bool) -> Seq<Seq<char>>
    decreases cs.len(),
{
    if cs.len() == 0 {
        Seq::empty()
    } else if exists_at(present, cs.len() - 1) == keep {
        select(cs.drop_last(), present, keep).push(cs.last())
    } else {
        select(cs.drop_last(), present, keep)
    }
}

impl SearchPath {
    pub fn new(paths: Vec<String>) -> (r: SearchPath)
        ensures
            r.paths@ == paths@,
    {
        SearchPath { paths }
    }

    /// Adds a directory at the end.
    pub fn add(&mut self, path: String)
        ensures
            final(self).paths@ == old(self).paths@.push(path),
    {
        self.paths.push(path);
    }

    /// The entries of a colon-separated list, empty ones left out.
    pub fn components(s: &str) -> (r: Vec<String>)
        ensures
            string_views(r@) == components(s@),
    {
        split_nonempty(s, ':')
    }

    /// The search path of the entries of `s` (a colon-separated list, empty
    /// entries left out), where `present[i]` tells whether entry `i` exists
    /// (an entry without an answer does not). Every entry that does not exist
    /// is reported, and the error still carries the entries that do.
    pub fn from_string(s: &str, present: &Vec<bool>) -> (r: Result<SearchPath, SearchPathError>)
        ensures
            match r {
                Ok(p) => {
                    &&& select(components(s@), present@, false).len() == 0
                    &&& string_views(p.paths@) == select(components(s@), present@, true)
                },
                Err(e) => {
                    &&& select(components(s@), present@, false).len() > 0
                    &&& string_views(e.missing@) == select(components(s@), present@, false)
                    &&& string_views(e.kept.paths@) == select(components(s@), present@, true)
                },
            },
    {
        let comps = SearchPath::components(s);
        let ghost cs = string_views(comps@);
        let mut kept: Vec<String> = Vec::new();
        let mut missing: Vec<String> = Vec::new();
        let mut k: usize = 0;
        assert(cs.subrange(0, 0) =~= Seq::<Seq<char>>::empty());
        assert(string_views(kept@) =~= Seq::<Seq<char>>::empty());
        assert(string_views(missing@) =~= Seq::<Seq<char>>::empty());
        while k < comps.len()
            invariant
                k <= comps@.len(),
                cs == string_views(comps@),
                string_views(kept@) == select(cs.subrange(0, k as int), present@, true),
                string_views(missing@) == select(cs.subrange(0, k as int), present@, false),
            decreases comps@.len() - k,
        {
            let ghost sub = cs.subrange(0, k + 1);
            assert(sub.drop_last() =~= cs.subrange(0, k as int));
            assert(sub.last() == comps@[k as int]@);
            let here = k < present.len() && present[k];
            let piece = comps[k].clone();
            if here {
                let ghost before = string_views(kept@);
                kept.push(piece);
                assert(string_views(kept@) =~= before.push(comps@[k as int]@));
            } else {
                let ghost before = string_views(missing@);
                missing.push(piece);
                assert(string_views(missing@) =~= before.push(comps@[k as int]@));
            }
            k = k + 1;
        }
        assert(cs.subrange(0, k as int) =~= cs);
        if missing.len() > 0 {
            Err(SearchPathError { missing, kept: SearchPath { paths: kept } })
        } else {
            Ok(SearchPath { paths: kept })
        }
    }
}

} // verus!
