//! Splitting text at a separator.

use vstd::prelude::*;

verus! {

/// The views of a list of strings.
pub open spec fn string_views(s: Seq<String>) -> Seq<Seq<char>> {
    s.map_values(|p: String| p@)
}

/// The pieces of `s` between occurrences of `sep`; the last one may be empty.
pub open spec fn pieces(s: Seq<char>, sep: char) -> Seq<Seq<char>>
    decreases s.len(),
{
    if s.len() == 0 {
        seq![Seq::empty()]
    } else {
        let rest = pieces(s.drop_last(), sep);
        if s.last() == sep {
            rest.push(Seq::empty())
        } else {
            rest.update(rest.len() - 1, rest.last().push(s.last()))
        }
    }
}

/// The pieces that are not empty.
pub open spec fn nonempty(ps: Seq<Seq<char>>) -> Seq<Seq<char>>
    decreases ps.len(),
{
    if ps.len() == 0 {
        Seq::empty()
    } else if ps.last().len() > 0 {
        nonempty(ps.drop_last()).push(ps.last())
    } else {
        nonempty(ps.drop_last())
    }
}

/// Relies on `Iterator::collect` over `str::chars`: the characters of `s`.
#[verifier::external_body]
pub(crate) fn chars_of(s: &str) -> (r: Vec<char>)
    ensures
        r@ == s@,
{
    s.chars().collect()
}

/// Relies on `String: FromIterator<&char>`: the string of the characters `cs`.
#[verifier::external_body]
pub(crate) fn string_of(cs: &Vec<char>) -> (r: String)
    ensures
        r@ == cs@,
{
    cs.iter().collect()
}

/// The pieces of `s` between occurrences of `sep`, empty ones left out.
pub fn split_nonempty(s: &str, sep: char) -> (r: Vec<String>)
    ensures
        string_views(r@) == nonempty(pieces(s@, sep)),
{
    let chars = chars_of(s);
    let mut out: Vec<String> = Vec::new();
    let mut current: Vec<char> = Vec::new();
    let ghost mut closed: Seq<Seq<char>> = Seq::empty();
    let mut k: usize = 0;
    assert(chars@.subrange(0, 0) =~= Seq::<char>::empty());
    assert(string_views(out@) =~= Seq::<Seq<char>>::empty());
    while k < chars.len()
        invariant
            k <= chars@.len(),
            pieces(chars@.subrange(0, k as int), sep) == closed.push(current@),
            string_views(out@) == nonempty(closed),
        decreases chars@.len() - k,
    {
        let ghost sub = chars@.subrange(0, k + 1);
        assert(sub.drop_last() =~= chars@.subrange(0, k as int));
        assert(sub.last() == chars@[k as int]);
        let c = chars[k];
        if c == sep {
            if current.len() > 0 {
                let piece = string_of(&current);
                let ghost before = string_views(out@);
                out.push(piece);
                assert(string_views(out@) =~= before.push(current@));
            }
            proof {
                assert(closed.push(current@).drop_last() =~= closed);
                closed = closed.push(current@);
            }
            current = Vec::new();
            assert(pieces(sub, sep) =~= closed.push(current@));
        } else {
            current.push(c);
            assert(pieces(sub, sep) =~= closed.push(current@));
        }
        k = k + 1;
    }
    assert(chars@.subrange(0, k as int) =~= chars@);
    let ghost all = closed.push(current@);
    assert(all.drop_last() =~= closed);
    if current.len() > 0 {
        let piece = string_of(&current);
        let ghost before = string_views(out@);
        out.push(piece);
        assert(string_views(out@) =~= before.push(current@));
    }
    out
}

} // verus!
