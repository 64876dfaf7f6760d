//! Source strings: statements and file paths separated by semicolons.
//!
//! A source string is split at every `;`, empty entries left out. An entry
//! with no `=` and without the word `require` names a file whose statements
//! stand in its place; any other entry is one statement.

use crate::text::chars_of;
use crate::text::nonempty;
use crate::text::pieces;
use crate::text::split_nonempty;
use crate::text::string_of;
use crate::text::string_views;
use vstd::prelude::*;

verus! {

/// An entry of a source string: one statement (with its closing `;`), or the
/// path of a file.
#[derive(Debug, PartialEq, Eq)]
pub enum Entry {
    Statement(String),
    File(String),
}

/// `w` stands in `s` at position `i`.
pub open spec fn occurs_at(s: Seq<char>, w: Seq<char>, i: int) -> bool {
    0 <= i && i + w.len() <= s.len() && s.subrange(i, i + w.len()) == w
}

/// `w` stands somewhere in `s`.
pub open spec fn occurs(s: Seq<char>, w: Seq<char>) -> bool {
    exists|i: int| occurs_at(s, w, i)
}

pub open spec fn require_word() -> Seq<char> {
    seq!['r', 'e', 'q', 'u', 'i', 'r', 'e']
}

/// An entry that names a file: it holds no `=` and not the word `require`.
pub open spec fn names_file(p: Seq<char>) -> bool {
    !p.contains('=') && !occurs(p, require_word())
}

/// The entry that the text `p` is.
pub open spec fn entry_matches(e: Entry, p: Seq<char>) -> bool {
    match e {
        Entry::File(path) => names_file(p) && path@ == p,
        Entry::Statement(text) => !names_file(p) && text@ == p.push(';'),
    }
}

/// Whether `w` stands in `s`.
fn occurs_exec(s: &Vec<char>, w: &Vec<char>) -> (r: bool)
    ensures
        r == occurs(s@, w@),
{
    if w.len() > s.len() {
        assert forall|i: int| !occurs_at(s@, w@, i) by {}
        return false;
    }
    if w.len() == 0 {
        assert(s@.subrange(0, 0) =~= w@);
        assert(occurs_at(s@, w@, 0));
        return true;
    }
    let last = s.len() - w.len();
    let mut i: usize = 0;
    while i <= last
        invariant
            0 < w@.len() <= s@.len(),
            s@.len() <= usize::MAX,
            last == s@.len() - w@.len(),
            forall|k: int| 0 <= k < i ==> !occurs_at(s@, w@, k),
        decreases last + 1 - i,
    {
        let mut j: usize = 0;
        let mut same = true;
        while j < w.len()
            invariant
                i <= last,
                0 < w@.len() <= s@.len(),
                s@.len() <= usize::MAX,
                last == s@.len() - w@.len(),
                j <= w@.len(),
                same == forall|m: int| 0 <= m < j ==> s@[i + m] == w@[m],
            decreases w@.len() - j,
        {
            if s[i + j] != w[j] {
                same = false;
            }
            j = j + 1;
        }
        if same {
            assert(s@.subrange(i as int, i + w@.len()) =~= w@);
            assert(occurs_at(s@, w@, i as int));
            return true;
        }
        assert(!occurs_at(s@, w@, i as int)) by {
            if occurs_at(s@, w@, i as int) {
                assert forall|m: int| 0 <= m < w@.len() implies s@[i + m] == w@[m] by {
                    assert(s@.subrange(i as int, i + w@.len())[m] == s@[i + m]);
                }
            }
        }
        i = i + 1;
    }
    assert forall|k: int| !occurs_at(s@, w@, k) by {
        if 0 <= k < i {
        }
    }
    false
}

/// Classifies one entry.
fn entry_of(p: &String) -> (r: Entry)
    ensures
        entry_matches(r, p@),
{
    let mut cs = chars_of(p.as_str());
    let mut has_eq = false;
    let mut k: usize = 0;
    while k < cs.len()
        invariant
            k <= cs@.len(),
            cs@ == p@,
            has_eq == exists|m: int| 0 <= m < k && cs@[m] == '=',
        decreases cs@.len() - k,
    {
        if cs[k] == '=' {
            has_eq = true;
        }
        k = k + 1;
    }
    let word = vec!['r', 'e', 'q', 'u', 'i', 'r', 'e'];
    assert(word@ =~= require_word());
    let has_require = occurs_exec(&cs, &word);
    if !has_eq && !has_require {
        assert(!p@.contains('='));
        Entry::File(p.clone())
    } else {
        assert(has_eq ==> p@.contains('='));
        cs.push(';');
        Entry::Statement(string_of(&cs))
    }
}

/// The entries of a source string, in order.
pub fn entries(s: &str) -> (r: Vec<Entry>)
    ensures
        r@.len() == nonempty(pieces(s@, ';')).len(),
        forall|i: int| 0 <= i < r@.len() ==> entry_matches(#[trigger] r@[i], nonempty(pieces(s@, ';'))[i]),
{
    let ps = split_nonempty(s, ';');
    let ghost pv = string_views(ps@);
    let mut out: Vec<Entry> = Vec::new();
    let mut k: usize = 0;
    while k < ps.len()
        invariant
            k <= ps@.len(),
            pv == string_views(ps@),
            pv == nonempty(pieces(s@, ';')),
            out@.len() == k,
            forall|i: int| 0 <= i < k ==> entry_matches(#[trigger] out@[i], pv[i]),
        decreases ps@.len() - k,
    {
        assert(pv[k as int] == ps@[k as int]@);
        out.push(entry_of(&ps[k]));
        k = k + 1;
    }
    out
}

} // verus!
