//! Literal substring occurrence on character sequences.

use vstd::prelude::*;

verus! {

/// `pat` occurs in `w` at position `i`.
pub open spec fn occurs_at(w: Seq<char>, pat: Seq<char>, i: int) -> bool {
    0 <= i && i + pat.len() <= w.len() && w.subrange(i, i + pat.len()) == pat
}

/// `pat` occurs somewhere in `w` as a contiguous substring.
pub open spec fn has_substring(w: Seq<char>, pat: Seq<char>) -> bool {
    exists|i: int| occurs_at(w, pat, i)
}

/// Some pattern of `pats` occurs in `w`.
pub open spec fn contains_any(w: Seq<char>, pats: Seq<Seq<char>>) -> bool {
    exists|k: int| 0 <= k < pats.len() && #[trigger] has_substring(w, pats[k])
}

/// The character sequences held by a list of vectors.
pub open spec fn views_of(v: Seq<Vec<char>>) -> Seq<Seq<char>> {
    v.map_values(|p: Vec<char>| p@)
}

/// Whether `w[start..start + |pat|]` equals `pat`.
pub(crate) fn matches_at(w: &Vec<char>, pat: &Vec<char>, start: usize) -> (r: bool)
    requires
        start + pat@.len() <= w@.len(),
    ensures
        r == (w@.subrange(start as int, start + pat@.len()) == pat@),
{
    let n: usize = w.len();
    let mut j: usize = 0;
    while j < pat.len()
        invariant
            j <= pat@.len(),
            start + pat@.len() <= w@.len(),
            n == w@.len(),
            forall|t: int| 0 <= t < j ==> w@[start + t] == pat@[t],
        decreases pat@.len() - j,
    {
        if w[start + j] != pat[j] {
            assert(w@.subrange(start as int, start + pat@.len())[j as int] != pat@[j as int]);
            return false;
        }
        j += 1;
    }
    assert(w@.subrange(start as int, start + pat@.len()) =~= pat@);
    true
}

/// Whether `pat` occurs anywhere in `w`.
pub(crate) fn find_substring(w: &Vec<char>, pat: &Vec<char>) -> (r: bool)
    ensures
        r == has_substring(w@, pat@),
{
    if pat.len() > w.len() {
        return false;
    }
    let last: usize = w.len() - pat.len();
    let mut i: usize = 0;
    loop
        invariant
            i <= last,
            last + pat@.len() == w@.len(),
            forall|t: int| 0 <= t < i ==> !occurs_at(w@, pat@, t),
        decreases last - i,
    {
        if matches_at(w, pat, i) {
            assert(occurs_at(w@, pat@, i as int));
            return true;
        }
        if i == last {
            return false;
        }
        i += 1;
    }
}

/// Whether some pattern of `pats` occurs in `w`.
pub(crate) fn find_any(w: &Vec<char>, pats: &Vec<Vec<char>>) -> (r: bool)
    ensures
        r == contains_any(w@, views_of(pats@)),
{
    let mut k: usize = 0;
    while k < pats.len()
        invariant
            k <= pats@.len(),
            forall|t: int| 0 <= t < k ==> !has_substring(w@, #[trigger] views_of(pats@)[t]),
        decreases pats@.len() - k,
    {
        if find_substring(w, &pats[k]) {
            assert(has_substring(w@, views_of(pats@)[k as int]));
            return true;
        }
        k += 1;
    }
    false
}

} // verus!
