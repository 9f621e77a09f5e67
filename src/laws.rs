//! Properties that relate the operations of a class to one another.

use vstd::prelude::*;
use crate::avoiding::{AvoidingWithPrefix, ClassView, candidates};
use crate::odometer::{extensions, lemma_extensions_shape, lemma_spell_rank, spell};
use vstd::arithmetic::power::pow;
use crate::words::{has_substring, occurs_at};
use vstd::std_specs::cmp::PartialEqSpec;

verus! {

/// Splitting the prefix at the removable length and joining the two parts
/// gives back the prefix, so the front atom and the remaining class that
/// `remove_front_of_prefix` returns hold the parent's prefix between them.
pub proof fn lemma_front_split_rejoins(v: ClassView)
    ensures
        v.prefix.subrange(0, v.removable()) + v.prefix.subrange(
            v.removable(),
            v.prefix.len() as int,
        ) == v.prefix,
{
    crate::avoiding::lemma_removable_bounds(v.prefix, v.patterns);
    assert(v.prefix.subrange(0, v.removable()) + v.prefix.subrange(
        v.removable(),
        v.prefix.len() as int,
    ) =~= v.prefix);
}

/// Every word that `objects_of_size(n)` yields belongs to the class and has
/// length `n`.
pub proof fn lemma_objects_admitted(v: ClassView, n: nat)
    ensures
        forall|i: int|
            0 <= i < v.objects_of_size(n).len() ==> v.admits(#[trigger] v.objects_of_size(n)[i])
                && v.objects_of_size(n)[i].len() == n,
{
    if n >= v.prefix.len() {
        let cands = candidates(v.prefix, v.alphabet, n);
        let pred = |w: Seq<char>| v.admits(w);
        let m = (n - v.prefix.len()) as nat;
        lemma_extensions_shape(v.alphabet, m);
        assert forall|r: int| 0 <= r < cands.len() implies #[trigger] cands[r].len() == n by {}
        lemma_filter_keeps_length(cands, pred, n);
        assert forall|i: int| 0 <= i < cands.filter(pred).len() implies v.admits(
            #[trigger] cands.filter(pred)[i],
        ) by {
            cands.lemma_filter_pred(pred, i);
        }
    }
}

/// There are `|alphabet|^(n - |prefix|)` candidate words of length `n`.
pub proof fn lemma_candidate_count(v: ClassView, n: nat)
    requires
        n >= v.prefix.len(),
    ensures
        candidates(v.prefix, v.alphabet, n).len() == pow(
            v.alphabet.len() as int,
            (n - v.prefix.len()) as nat,
        ),
{
    lemma_extensions_shape(v.alphabet, (n - v.prefix.len()) as nat);
}

/// Every word of length `n` that the class admits and whose letters after
/// the prefix come from the alphabet is among `objects_of_size(n)`.
pub proof fn lemma_objects_complete(v: ClassView, n: nat, w: Seq<char>)
    requires
        v.alphabet.len() <= usize::MAX,
        w.len() == n,
        v.admits(w),
        forall|j: int| v.prefix.len() <= j < n ==> v.alphabet.contains(#[trigger] w[j]),
    ensures
        v.objects_of_size(n).contains(w),
{
    let p = v.prefix;
    let k = v.alphabet.len() as int;
    let m = (n - p.len()) as nat;
    let tail = w.subrange(p.len() as int, n as int);
    let d = Seq::new(
        m,
        |j: int| (choose|t: int| 0 <= t < k && v.alphabet[t] == tail[j]) as usize,
    );
    assert forall|j: int| 0 <= j < m implies d[j] < k && v.alphabet[d[j] as int] == tail[j] by {
        assert(v.alphabet.contains(w[p.len() + j]));
        assert(tail[j] == w[p.len() + j]);
    }
    assert(spell(d, v.alphabet) =~= tail);
    lemma_spell_rank(d, v.alphabet);
    let ext = extensions(v.alphabet, m);
    let cands = candidates(p, v.alphabet, n);
    let r = crate::odometer::rank(d, k);
    assert(cands[r] =~= w);
    let pred = |x: Seq<char>| v.admits(x);
    cands.lemma_filter_contains(pred, r);
}

/// A class that is not an atom stands for exactly the words that its
/// branches by one letter stand for: the atom of its prefix, and for each
/// letter the class of the prefix extended by it.
pub proof fn lemma_expand_preserves_words(v: ClassView, w: Seq<char>)
    requires
        !v.atom,
    ensures
        v.denotes(w) <==> (v.rebased(v.prefix, true).denotes(w) || exists|i: int|
            0 <= i < v.alphabet.len() && #[trigger] v.rebased(
                v.prefix.push(v.alphabet[i]),
                false,
            ).denotes(w)),
{
    let p = v.prefix;
    if v.denotes(w) {
        if w.len() == p.len() {
            assert(w =~= p);
        } else {
            assert(v.alphabet.contains(w[p.len() as int]));
            let i = choose|i: int| 0 <= i < v.alphabet.len() && v.alphabet[i] == w[p.len() as int];
            let c = v.rebased(p.push(v.alphabet[i]), false);
            assert(w.subrange(0, p.len() as int + 1) =~= p.push(v.alphabet[i]));
            assert(c.denotes(w));
        }
    }
    if v.rebased(p, true).denotes(w) {
        assert(w.subrange(0, p.len() as int) =~= p);
    }
    if exists|i: int|
        0 <= i < v.alphabet.len() && #[trigger] v.rebased(p.push(v.alphabet[i]), false).denotes(w)
    {
        let i = choose|i: int|
            0 <= i < v.alphabet.len() && #[trigger] v.rebased(p.push(v.alphabet[i]), false).denotes(
                w,
            );
        let q = p.push(v.alphabet[i]);
        assert(w.subrange(0, p.len() as int) =~= q.subrange(0, p.len() as int));
        assert(q.subrange(0, p.len() as int) =~= p);
        assert(w[p.len() as int] == q[p.len() as int]);
        assert(v.alphabet.contains(v.alphabet[i]));
        assert forall|j: int| p.len() <= j < w.len() implies v.alphabet.contains(#[trigger] w[j]) by {
            if j > p.len() {
                assert(q.len() <= j);
            }
        }
    }
}

/// A class whose prefix already holds a pattern stands for no word: every
/// extension of the prefix holds that occurrence too.
pub proof fn lemma_empty_denotes_nothing(v: ClassView, w: Seq<char>)
    requires
        v.empty(),
    ensures
        !v.denotes(w),
{
    if !v.atom && v.admits(w) {
        let k = choose|k: int| 0 <= k < v.patterns.len() && #[trigger] has_substring(
            v.prefix,
            v.patterns[k],
        );
        let i = choose|i: int| occurs_at(v.prefix, v.patterns[k], i);
        let pat = v.patterns[k];
        assert(w.subrange(i, i + pat.len()) =~= v.prefix.subrange(i, i + pat.len()));
        assert(occurs_at(w, pat, i));
        assert(has_substring(w, v.patterns[k]));
    }
}

/// Two classes that differ only in the order of their patterns are unequal.
pub proof fn lemma_pattern_order_matters(a: AvoidingWithPrefix, b: AvoidingWithPrefix)
    requires
        a@.prefix == b@.prefix,
        a@.alphabet == b@.alphabet,
        a@.atom == b@.atom,
        a@.patterns.to_multiset() == b@.patterns.to_multiset(),
        a@.patterns != b@.patterns,
    ensures
        !a.eq_spec(&b),
{
}

proof fn lemma_filter_keeps_length(
    s: Seq<Seq<char>>,
    pred: spec_fn(Seq<char>) -> bool,
    n: nat,
)
    requires
        forall|r: int| 0 <= r < s.len() ==> #[trigger] s[r].len() == n,
    ensures
        forall|i: int| 0 <= i < s.filter(pred).len() ==> #[trigger] s.filter(pred)[i].len() == n,
    decreases s.len(),
{
    reveal(Seq::filter);
    if s.len() > 0 {
        let rest = s.drop_last();
        assert forall|r: int| 0 <= r < rest.len() implies #[trigger] rest[r].len() == n by {
            assert(rest[r] == s[r]);
        }
        lemma_filter_keeps_length(rest, pred, n);
        let sub = rest.filter(pred);
        assert(s.filter(pred) == if pred(s.last()) {
            sub.push(s.last())
        } else {
            sub
        });
        assert(s.last().len() == n);
        assert forall|i: int| 0 <= i < s.filter(pred).len() implies #[trigger] s.filter(pred)[i].len()
            == n by {
            if i < sub.len() {
                assert(sub[i].len() == n);
            }
        }
    }
}

} // verus!
