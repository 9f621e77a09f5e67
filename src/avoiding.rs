//! Classes of words that start with a literal prefix and avoid a list of
//! forbidden literal substrings.

use vstd::prelude::*;
use crate::words::{contains_any, views_of, find_any};
use crate::text::{chars_of, string_of};
use crate::odometer::{extensions, lemma_extensions_shape, lemma_spell_rank, WordOfSizeIterator};

verus! {

/// What a class is, mathematically: its prefix, its forbidden patterns in
/// order, its alphabet in order, and whether it stands for the prefix alone.
pub ghost struct ClassView {
    pub prefix: Seq<char>,
    pub patterns: Seq<Seq<char>>,
    pub alphabet: Seq<char>,
    pub atom: bool,
}

/// `w` starts with `prefix`, is at least as long, and holds none of `patterns`.
pub open spec fn admits(prefix: Seq<char>, patterns: Seq<Seq<char>>, w: Seq<char>) -> bool {
    &&& w.len() >= prefix.len()
    &&& w.subrange(0, prefix.len() as int) == prefix
    &&& !contains_any(w, patterns)
}

/// The length of the longest pattern, 0 for none.
pub open spec fn longest(patterns: Seq<Seq<char>>) -> int
    decreases patterns.len(),
{
    if patterns.len() == 0 {
        0
    } else {
        let rest = longest(patterns.drop_last());
        if patterns.last().len() > rest {
            patterns.last().len() as int
        } else {
            rest
        }
    }
}

/// The reach of a future pattern occurrence: the longest pattern, or 1 when
/// there is none.
pub open spec fn reach(patterns: Seq<Seq<char>>) -> int {
    if patterns.len() == 0 {
        1
    } else {
        longest(patterns)
    }
}

/// The tail `prefix[i..]` is the start of some pattern, so that a later
/// letter could complete an occurrence that begins at `i`.
pub open spec fn pending(prefix: Seq<char>, patterns: Seq<Seq<char>>, i: int) -> bool {
    exists|k: int|
        0 <= k < patterns.len() && #[trigger] patterns[k].len() >= prefix.len() - i
            && prefix.subrange(i, prefix.len() as int) == patterns[k].subrange(
            0,
            prefix.len() - i,
        )
}

/// The first position from `i` on whose tail is pending, or the length of
/// the prefix when there is none.
pub open spec fn first_pending(prefix: Seq<char>, patterns: Seq<Seq<char>>, i: int) -> int
    decreases prefix.len() - i,
{
    if i >= prefix.len() {
        prefix.len() as int
    } else if pending(prefix, patterns, i) {
        i
    } else {
        first_pending(prefix, patterns, i + 1)
    }
}

/// Where scanning for a pending tail starts: the reach of the patterns back
/// from the end of the prefix, and not before its start.
pub open spec fn scan_start(prefix: Seq<char>, patterns: Seq<Seq<char>>) -> int {
    if prefix.len() > reach(patterns) {
        prefix.len() - reach(patterns)
    } else {
        0
    }
}

/// The length of the front of the prefix that no future letter can bring
/// into a pattern occurrence.
pub open spec fn removable_len(prefix: Seq<char>, patterns: Seq<Seq<char>>) -> int {
    first_pending(prefix, patterns, scan_start(prefix, patterns))
}

/// Every extension of `prefix` by letters of `alphabet` to length `n`, in
/// the order in which the counter visits them.
pub open spec fn candidates(prefix: Seq<char>, alphabet: Seq<char>, n: nat) -> Seq<Seq<char>> {
    let ext = extensions(alphabet, (n - prefix.len()) as nat);
    Seq::new(ext.len(), |r: int| prefix + ext[r])
}

/// The strings held by a vector, as character sequences.
pub open spec fn strings_of(v: Seq<String>) -> Seq<Seq<char>> {
    v.map_values(|s: String| s@)
}

impl ClassView {
    /// The class with the same patterns and alphabet and the given prefix and
    /// atom flag.
    pub open spec fn rebased(self, prefix: Seq<char>, atom: bool) -> ClassView {
        ClassView { prefix, patterns: self.patterns, alphabet: self.alphabet, atom }
    }

    /// The prefix already holds a pattern, so no word of the class avoids them.
    pub open spec fn empty(self) -> bool {
        contains_any(self.prefix, self.patterns)
    }

    /// `w` starts with the prefix and holds no pattern.
    pub open spec fn admits(self, w: Seq<char>) -> bool {
        admits(self.prefix, self.patterns, w)
    }

    pub open spec fn removable(self) -> int {
        removable_len(self.prefix, self.patterns)
    }

    /// The words the class stands for: the prefix alone for an atom that
    /// holds no pattern; otherwise the words it admits whose letters after
    /// the prefix come from the alphabet.
    pub open spec fn denotes(self, w: Seq<char>) -> bool {
        if self.atom {
            w == self.prefix && !contains_any(self.prefix, self.patterns)
        } else {
            self.admits(w) && forall|j: int|
                self.prefix.len() <= j < w.len() ==> self.alphabet.contains(#[trigger] w[j])
        }
    }

    /// The words of length `n` that the counter produces and the class
    /// admits, in the counter's order.
    pub open spec fn objects_of_size(self, n: nat) -> Seq<Seq<char>> {
        if n < self.prefix.len() {
            Seq::empty()
        } else {
            candidates(self.prefix, self.alphabet, n).filter(|w: Seq<char>| self.admits(w))
        }
    }
}

/// The reason an operation did not complete.
#[derive(Debug, PartialEq, Eq, Structural, Clone, Copy)]
pub enum ClassError {
    /// The operation is not provided.
    NotImplemented,
}

/// A class of words over a fixed alphabet: the words that start with
/// `prefix` and contain no pattern, or, for an atom, the prefix alone.
#[derive(Debug, Hash)]
pub struct AvoidingWithPrefix {
    prefix: Vec<char>,
    patterns: Vec<Vec<char>>,
    alphabet: Vec<char>,
    is_just_prefix: bool,
}

impl View for AvoidingWithPrefix {
    type V = ClassView;

    closed spec fn view(&self) -> ClassView {
        ClassView {
            prefix: self.prefix@,
            patterns: views_of(self.patterns@),
            alphabet: self.alphabet@,
            atom: self.is_just_prefix,
        }
    }
}

fn copy_chars(v: &Vec<char>) -> (r: Vec<char>)
    ensures
        r@ == v@,
{
    let r = v.clone();
    assert(r@ =~= v@);
    r
}

fn copy_patterns(v: &Vec<Vec<char>>) -> (r: Vec<Vec<char>>)
    ensures
        views_of(r@) == views_of(v@),
{
    let mut out: Vec<Vec<char>> = Vec::new();
    let mut i: usize = 0;
    while i < v.len()
        invariant
            i <= v@.len(),
            out@.len() == i,
            forall|t: int| 0 <= t < i ==> #[trigger] out@[t]@ == v@[t]@,
        decreases v@.len() - i,
    {
        out.push(copy_chars(&v[i]));
        i += 1;
    }
    assert(views_of(out@) =~= views_of(v@));
    out
}

/// Whether `prefix[i..]` is the start of `pat`.
fn tail_starts(prefix: &Vec<char>, i: usize, pat: &Vec<char>) -> (r: bool)
    requires
        i <= prefix@.len(),
    ensures
        r == (pat@.len() >= prefix@.len() - i && prefix@.subrange(i as int, prefix@.len() as int)
            == pat@.subrange(0, prefix@.len() - i)),
{
    let total: usize = prefix.len();
    let n: usize = total - i;
    if pat.len() < n {
        return false;
    }
    let mut j: usize = 0;
    while j < n
        invariant
            j <= n,
            n == prefix@.len() - i,
            total == prefix@.len(),
            n <= pat@.len(),
            forall|t: int| 0 <= t < j ==> prefix@[i + t] == pat@[t],
        decreases n - j,
    {
        if prefix[i + j] != pat[j] {
            assert(prefix@.subrange(i as int, prefix@.len() as int)[j as int] != pat@.subrange(
                0,
                n as int,
            )[j as int]);
            return false;
        }
        j += 1;
    }
    assert(prefix@.subrange(i as int, prefix@.len() as int) =~= pat@.subrange(0, n as int));
    true
}

/// The letters `v[from..to]`.
fn slice_chars(v: &Vec<char>, from: usize, to: usize) -> (r: Vec<char>)
    requires
        from <= to <= v@.len(),
    ensures
        r@ == v@.subrange(from as int, to as int),
{
    let mut out: Vec<char> = Vec::new();
    let mut i: usize = from;
    while i < to
        invariant
            from <= i <= to <= v@.len(),
            out@ == v@.subrange(from as int, i as int),
        decreases to - i,
    {
        out.push(v[i]);
        i += 1;
        assert(out@ =~= v@.subrange(from as int, i as int));
    }
    out
}

/// Whether two letter vectors are equal.
fn same_chars(a: &Vec<char>, b: &Vec<char>) -> (r: bool)
    ensures
        r == (a@ == b@),
{
    if a.len() != b.len() {
        return false;
    }
    let mut i: usize = 0;
    while i < a.len()
        invariant
            i <= a@.len() == b@.len(),
            forall|t: int| 0 <= t < i ==> a@[t] == b@[t],
        decreases a@.len() - i,
    {
        if a[i] != b[i] {
            return false;
        }
        i += 1;
    }
    assert(a@ =~= b@);
    true
}

/// Whether two pattern lists are equal, order included.
fn same_patterns(a: &Vec<Vec<char>>, b: &Vec<Vec<char>>) -> (r: bool)
    ensures
        r == (views_of(a@) == views_of(b@)),
{
    if a.len() != b.len() {
        assert(views_of(a@).len() != views_of(b@).len());
        return false;
    }
    let mut i: usize = 0;
    while i < a.len()
        invariant
            i <= a@.len() == b@.len(),
            forall|t: int| 0 <= t < i ==> #[trigger] a@[t]@ == b@[t]@,
        decreases a@.len() - i,
    {
        if !same_chars(&a[i], &b[i]) {
            assert(views_of(a@)[i as int] != views_of(b@)[i as int]);
            return false;
        }
        i += 1;
    }
    assert(views_of(a@) =~= views_of(b@));
    true
}

impl AvoidingWithPrefix {
    /// The class of the words that start with `prefix` and avoid
    /// `patterns`, or the atom of `prefix` alone when `just_prefix` holds.
    pub fn new(prefix: String, patterns: Vec<String>, alphabet: Vec<char>, just_prefix: bool) -> (r:
        AvoidingWithPrefix)
        ensures
            r@ == (ClassView {
                prefix: prefix@,
                patterns: strings_of(patterns@),
                alphabet: alphabet@,
                atom: just_prefix,
            }),
    {
        let mut pats: Vec<Vec<char>> = Vec::new();
        let mut i: usize = 0;
        while i < patterns.len()
            invariant
                i <= patterns@.len(),
                pats@.len() == i,
                forall|t: int| 0 <= t < i ==> #[trigger] pats@[t]@ == patterns@[t]@,
            decreases patterns@.len() - i,
        {
            pats.push(chars_of(patterns[i].as_str()));
            i += 1;
        }
        assert(views_of(pats@) =~= patterns@.map_values(|p: String| p@));
        AvoidingWithPrefix {
            prefix: chars_of(prefix.as_str()),
            patterns: pats,
            alphabet,
            is_just_prefix: just_prefix,
        }
    }

    /// A class with the same patterns and alphabet as this one.
    pub fn with_same_base(&self, prefix: &str, is_just_prefix: bool) -> (r: AvoidingWithPrefix)
        ensures
            r@ == self@.rebased(prefix@, is_just_prefix),
    {
        AvoidingWithPrefix {
            prefix: chars_of(prefix),
            alphabet: copy_chars(&self.alphabet),
            patterns: copy_patterns(&self.patterns),
            is_just_prefix,
        }
    }

    fn rebase(&self, prefix: Vec<char>, is_just_prefix: bool) -> (r: AvoidingWithPrefix)
        ensures
            r@ == self@.rebased(prefix@, is_just_prefix),
    {
        AvoidingWithPrefix {
            prefix,
            alphabet: copy_chars(&self.alphabet),
            patterns: copy_patterns(&self.patterns),
            is_just_prefix,
        }
    }

    /// Whether the class holds no word: the prefix already contains a pattern.
    pub fn is_empty(&self) -> (r: bool)
        ensures
            r == self@.empty(),
    {
        find_any(&self.prefix, &self.patterns)
    }

    fn tail_pending(&self, i: usize) -> (r: bool)
        requires
            i <= self@.prefix.len(),
        ensures
            r == pending(self@.prefix, self@.patterns, i as int),
    {
        let mut k: usize = 0;
        while k < self.patterns.len()
            invariant
                i <= self@.prefix.len(),
                k <= self.patterns@.len(),
                forall|t: int|
                    0 <= t < k ==> !(#[trigger] self@.patterns[t].len() >= self@.prefix.len() - i
                        && self@.prefix.subrange(i as int, self@.prefix.len() as int)
                        == self@.patterns[t].subrange(0, self@.prefix.len() - i)),
            decreases self.patterns@.len() - k,
        {
            if tail_starts(&self.prefix, i, &self.patterns[k]) {
                assert(self@.patterns[k as int] == self.patterns@[k as int]@);
                return true;
            }
            k += 1;
        }
        false
    }

    /// How many leading letters of the prefix no future letter can bring into
    /// a pattern occurrence. Scanning starts the reach of the longest pattern
    /// back from the end of the prefix and stops at the first position whose
    /// tail could still grow into a pattern.
    pub fn removable_prefix_length(&self) -> (r: usize)
        ensures
            r == self@.removable(),
    {
        let ghost pats = self@.patterns;
        let mut longest_len: usize = 0;
        let mut k: usize = 0;
        while k < self.patterns.len()
            invariant
                k <= pats.len(),
                pats == self@.patterns,
                longest_len == longest(pats.subrange(0, k as int)),
            decreases pats.len() - k,
        {
            assert(pats.subrange(0, k + 1).drop_last() =~= pats.subrange(0, k as int));
            if self.patterns[k].len() > longest_len {
                longest_len = self.patterns[k].len();
            }
            k += 1;
        }
        assert(pats.subrange(0, pats.len() as int) =~= pats);
        let m: usize = if self.patterns.len() == 0 {
            1
        } else {
            longest_len
        };
        let len = self.prefix.len();
        let mut safe: usize = if len > m {
            len - m
        } else {
            0
        };
        while safe < len
            invariant
                safe <= len == self@.prefix.len(),
                pats == self@.patterns,
                first_pending(self@.prefix, pats, safe as int) == self@.removable(),
            decreases len - safe,
        {
            if self.tail_pending(safe) {
                return safe;
            }
            safe += 1;
        }
        safe
    }

    /// Whether the class stands for its prefix alone.
    pub fn is_atom(&self) -> (r: bool)
        ensures
            r == self@.atom,
    {
        self.is_just_prefix
    }

    /// Branches the class by one letter: first the atom of the unchanged
    /// prefix, then, for each letter of the alphabet in order, the class whose
    /// prefix is extended by that letter.
    pub fn expand_one_letter(&self) -> (r: Vec<AvoidingWithPrefix>)
        ensures
            r@.len() == self@.alphabet.len() + 1,
            r@[0]@ == self@.rebased(self@.prefix, true),
            forall|i: int|
                0 <= i < self@.alphabet.len() ==> #[trigger] r@[i + 1]@ == self@.rebased(
                    self@.prefix.push(self@.alphabet[i]),
                    false,
                ),
    {
        let mut res: Vec<AvoidingWithPrefix> = Vec::new();
        res.push(self.rebase(copy_chars(&self.prefix), true));
        let mut i: usize = 0;
        while i < self.alphabet.len()
            invariant
                i <= self@.alphabet.len(),
                res@.len() == i + 1,
                res@[0]@ == self@.rebased(self@.prefix, true),
                forall|t: int|
                    0 <= t < i ==> #[trigger] res@[t + 1]@ == self@.rebased(
                        self@.prefix.push(self@.alphabet[t]),
                        false,
                    ),
            decreases self@.alphabet.len() - i,
        {
            let mut prefix = copy_chars(&self.prefix);
            prefix.push(self.alphabet[i]);
            res.push(self.rebase(prefix, false));
            i += 1;
        }
        res
    }

    /// Splits off the removable front of the prefix: the atom of the front
    /// and the class of the rest. Nothing for an atom, or when no front is
    /// removable.
    pub fn remove_front_of_prefix(&self) -> (r: Option<Vec<AvoidingWithPrefix>>)
        ensures
            r is None <==> (self@.atom || self@.removable() == 0),
            r is Some ==> r->0@.len() == 2 && r->0@[0]@ == self@.rebased(
                self@.prefix.subrange(0, self@.removable()),
                true,
            ) && r->0@[1]@ == self@.rebased(
                self@.prefix.subrange(self@.removable(), self@.prefix.len() as int),
                false,
            ),
    {
        if self.is_just_prefix {
            return None;
        }
        let safe = self.removable_prefix_length();
        if safe == 0 {
            return None;
        }
        proof {
            lemma_removable_bounds(self@.prefix, self@.patterns);
        }
        let start_prefix = slice_chars(&self.prefix, 0, safe);
        let end_prefix = slice_chars(&self.prefix, safe, self.prefix.len());
        let mut parts: Vec<AvoidingWithPrefix> = Vec::new();
        parts.push(self.rebase(start_prefix, true));
        parts.push(self.rebase(end_prefix, false));
        Some(parts)
    }

    /// Every word of length `n` that extends the prefix by letters of the
    /// alphabet and holds no pattern, in the counter's order.
    pub fn objects_of_size(&self, n: usize) -> (r: Vec<String>)
        ensures
            strings_of(r@) == self@.objects_of_size(n as nat),
    {
        if n < self.prefix.len() {
            assert(strings_of(Seq::<String>::empty()) =~= Seq::<Seq<char>>::empty());
            return Vec::new();
        }
        let ghost v = self@;
        let ghost m = (n - v.prefix.len()) as nat;
        let ghost cands = candidates(v.prefix, v.alphabet, n as nat);
        let ghost pred = |w: Seq<char>| v.admits(w);
        let mut it = WordOfSizeIterator::new(copy_chars(&self.alphabet), n, copy_chars(&self.prefix));
        proof {
            lemma_extensions_shape(v.alphabet, m);
        }
        let mut out: Vec<String> = Vec::new();
        loop
            invariant
                v == self@,
                m == n - v.prefix.len(),
                cands == candidates(v.prefix, v.alphabet, n as nat),
                pred == (|w: Seq<char>| v.admits(w)),
                it.wf(),
                it.alphabet@ == v.alphabet,
                it.prefix@ == v.prefix,
                it.current@.len() == m,
                it.total() == cands.len(),
                0 <= it.position() <= it.total(),
                strings_of(out@) == cands.take(it.position()).filter(pred),
            ensures
                strings_of(out@) == cands.filter(pred),
            decreases it.total() - it.position(),
        {
            let ghost before = it;
            match it.next() {
                None => {
                    assert(cands.take(it.position()) =~= cands);
                    break;
                },
                Some(w) => {
                    let ghost pos = before.position();
                    proof {
                        lemma_spell_rank(before.current@, v.alphabet);
                        assert(cands[pos] == w@);
                        assert(cands.take(pos + 1) =~= cands.take(pos).push(w@));
                        lemma_filter_push(cands.take(pos), w@, pred);
                    }
                    if self.admits_chars(&w) {
                        let s = string_of(&w);
                        out.push(s);
                        assert(strings_of(out@) =~= cands.take(pos).filter(pred).push(w@));
                    }
                },
            }
        }
        out
    }

    /// How many words `objects_of_size(n)` holds.
    pub fn count_objects_of_size(&self, n: usize) -> (r: usize)
        ensures
            r == self@.objects_of_size(n as nat).len(),
    {
        let words = self.objects_of_size(n);
        words.len()
    }

    /// The prefix that every word of the class starts with.
    pub fn prefix(&self) -> (r: String)
        ensures
            r@ == self@.prefix,
    {
        string_of(&self.prefix)
    }

    /// The forbidden patterns, in order.
    pub fn patterns(&self) -> (r: Vec<String>)
        ensures
            r@.map_values(|p: String| p@) == self@.patterns,
    {
        let mut out: Vec<String> = Vec::new();
        let mut i: usize = 0;
        while i < self.patterns.len()
            invariant
                i <= self.patterns@.len(),
                out@.len() == i,
                forall|t: int| 0 <= t < i ==> #[trigger] out@[t]@ == self.patterns@[t]@,
            decreases self.patterns@.len() - i,
        {
            out.push(string_of(&self.patterns[i]));
            i += 1;
        }
        assert(out@.map_values(|p: String| p@) =~= self@.patterns);
        out
    }

    /// The alphabet, in order.
    pub fn alphabet(&self) -> (r: Vec<char>)
        ensures
            r@ == self@.alphabet,
    {
        copy_chars(&self.alphabet)
    }

    /// Whether the class stands for its prefix alone.
    pub fn just_prefix(&self) -> (r: bool)
        ensures
            r == self@.atom,
    {
        self.is_just_prefix
    }

    /// The length of the prefix: the size of the word of an atom, the least
    /// size of a word otherwise.
    pub fn minimum_size_of_object(&self) -> (r: usize)
        ensures
            r == self@.prefix.len(),
    {
        self.prefix.len()
    }

    /// A byte encoding of the class, which is not provided.
    pub fn to_bytes(&self) -> (r: Result<Vec<u8>, ClassError>)
        ensures
            r == Err::<Vec<u8>, ClassError>(ClassError::NotImplemented),
    {
        Err(ClassError::NotImplemented)
    }

    fn admits_chars(&self, w: &Vec<char>) -> (r: bool)
        ensures
            r == self@.admits(w@),
    {
        if w.len() < self.prefix.len() {
            return false;
        }
        let mut i: usize = 0;
        while i < self.prefix.len()
            invariant
                i <= self@.prefix.len() <= w@.len(),
                forall|t: int| 0 <= t < i ==> w@[t] == self@.prefix[t],
            decreases self@.prefix.len() - i,
        {
            if w[i] != self.prefix[i] {
                assert(w@.subrange(0, self@.prefix.len() as int)[i as int] != self@.prefix[i as int]);
                return false;
            }
            i += 1;
        }
        assert(w@.subrange(0, self@.prefix.len() as int) =~= self@.prefix);
        !find_any(w, &self.patterns)
    }

    /// Whether `word` starts with the prefix and holds no pattern.
    pub fn contains(&self, word: &str) -> (r: bool)
        ensures
            r == self@.admits(word@),
    {
        let w = chars_of(word);
        self.admits_chars(&w)
    }
}

impl PartialEq for AvoidingWithPrefix {
    /// Equal classes have equal prefixes, patterns in the same order,
    /// alphabets in the same order, and the same atom flag.
    fn eq(&self, other: &Self) -> (r: bool) {
        same_chars(&self.prefix, &other.prefix) && same_patterns(&self.patterns, &other.patterns)
            && same_chars(&self.alphabet, &other.alphabet) && self.is_just_prefix
            == other.is_just_prefix
    }
}

impl vstd::std_specs::cmp::PartialEqSpecImpl for AvoidingWithPrefix {
    open spec fn obeys_eq_spec() -> bool {
        true
    }

    open spec fn eq_spec(&self, other: &AvoidingWithPrefix) -> bool {
        self@ == other@
    }
}

impl Eq for AvoidingWithPrefix {

}

/// The removable front lies within the prefix, and is all of it when there
/// are no patterns.
pub proof fn lemma_removable_bounds(prefix: Seq<char>, patterns: Seq<Seq<char>>)
    ensures
        0 <= removable_len(prefix, patterns) <= prefix.len(),
        patterns.len() == 0 ==> removable_len(prefix, patterns) == prefix.len(),
{
    lemma_first_pending_bounds(prefix, patterns, scan_start(prefix, patterns));
    if patterns.len() == 0 {
        lemma_first_pending_none(prefix, patterns, scan_start(prefix, patterns));
    }
}

proof fn lemma_first_pending_bounds(prefix: Seq<char>, patterns: Seq<Seq<char>>, i: int)
    requires
        0 <= i,
    ensures
        i <= prefix.len() ==> i <= first_pending(prefix, patterns, i) <= prefix.len(),
        i > prefix.len() ==> first_pending(prefix, patterns, i) == prefix.len(),
    decreases prefix.len() - i,
{
    if i < prefix.len() && !pending(prefix, patterns, i) {
        lemma_first_pending_bounds(prefix, patterns, i + 1);
    }
}

proof fn lemma_first_pending_none(prefix: Seq<char>, patterns: Seq<Seq<char>>, i: int)
    requires
        patterns.len() == 0,
    ensures
        first_pending(prefix, patterns, i) == prefix.len(),
    decreases prefix.len() - i,
{
    if i < prefix.len() {
        lemma_first_pending_none(prefix, patterns, i + 1);
    }
}

proof fn lemma_filter_push(s: Seq<Seq<char>>, x: Seq<char>, pred: spec_fn(Seq<char>) -> bool)
    ensures
        s.push(x).filter(pred) == if pred(x) {
            s.filter(pred).push(x)
        } else {
            s.filter(pred)
        },
{
    reveal(Seq::filter);
    assert(s.push(x).drop_last() =~= s);
}

} // verus!
