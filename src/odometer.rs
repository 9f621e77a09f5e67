//! Enumeration of the fixed-length extensions of a prefix by a mixed-radix
//! counter whose least significant digit is the rightmost one.

use vstd::prelude::*;
use vstd::arithmetic::power::*;
use vstd::arithmetic::div_mod::{
    lemma_div_pos_is_pos, lemma_fundamental_div_mod_converse, lemma_multiply_divide_lt,
};
use vstd::arithmetic::mul::lemma_mul_inequality;

verus! {

/// The number whose base-`k` digits are `d`, most significant first.
pub open spec fn rank(d: Seq<usize>, k: int) -> int
    decreases d.len(),
{
    if d.len() == 0 {
        0
    } else {
        rank(d.drop_last(), k) * k + d.last()
    }
}

/// Every digit of `d` is below `k`.
pub open spec fn digits_below(d: Seq<usize>, k: int) -> bool {
    forall|i: int| 0 <= i < d.len() ==> d[i] < k
}

/// The word that the digits `d` select from `alphabet`.
pub open spec fn spell(d: Seq<usize>, alphabet: Seq<char>) -> Seq<char> {
    Seq::new(d.len(), |i: int| alphabet[d[i] as int])
}

/// All words of length `m` over `alphabet`, in the order in which the counter
/// visits them: the last position varies fastest, each position in alphabet
/// order.
pub open spec fn extensions(alphabet: Seq<char>, m: nat) -> Seq<Seq<char>>
    decreases m,
{
    if m == 0 {
        seq![Seq::empty()]
    } else {
        let shorter = extensions(alphabet, (m - 1) as nat);
        let k = alphabet.len() as int;
        Seq::new(
            (shorter.len() * k) as nat,
            |r: int| shorter[r / k].push(alphabet[r % k]),
        )
    }
}

/// `j` zero digits.
pub open spec fn zeros(j: nat) -> Seq<usize> {
    Seq::new(j, |i: int| 0usize)
}

/// `j` copies of the largest base-`k` digit.
pub open spec fn maxes(j: nat, k: int) -> Seq<usize> {
    Seq::new(j, |i: int| (k - 1) as usize)
}

/// There are `|alphabet|^m` extensions of length `m`, each of length `m`.
pub proof fn lemma_extensions_shape(alphabet: Seq<char>, m: nat)
    ensures
        extensions(alphabet, m).len() == pow(alphabet.len() as int, m),
        forall|r: int|
            0 <= r < extensions(alphabet, m).len() ==> #[trigger] extensions(alphabet, m)[r].len()
                == m,
    decreases m,
{
    reveal(pow);
    let k = alphabet.len() as int;
    if m > 0 {
        let shorter = extensions(alphabet, (m - 1) as nat);
        lemma_extensions_shape(alphabet, (m - 1) as nat);
        assert(shorter.len() * k == k * shorter.len()) by (nonlinear_arith);
        assert forall|r: int| 0 <= r < extensions(alphabet, m).len() implies #[trigger] extensions(
            alphabet,
            m,
        )[r].len() == m by {
            assert(k > 0) by (nonlinear_arith)
                requires
                    0 <= r < shorter.len() * k,
                    k >= 0,
            ;
            lemma_div_pos_is_pos(r, k);
            lemma_multiply_divide_lt(r, k, shorter.len() as int);
        }
    }
}

/// Digits below `k` name the extension of index `rank(d)`, and that
/// extension is the word they spell.
pub proof fn lemma_spell_rank(d: Seq<usize>, alphabet: Seq<char>)
    requires
        digits_below(d, alphabet.len() as int),
    ensures
        0 <= rank(d, alphabet.len() as int) < extensions(alphabet, d.len()).len(),
        extensions(alphabet, d.len())[rank(d, alphabet.len() as int)] == spell(d, alphabet),
    decreases d.len(),
{
    let k = alphabet.len() as int;
    if d.len() > 0 {
        let dl = d.drop_last();
        assert(digits_below(dl, k));
        lemma_spell_rank(dl, alphabet);
        let q = rank(dl, k);
        let shorter = extensions(alphabet, dl.len());
        let x = rank(d, k);
        assert(x == q * k + d.last());
        lemma_fundamental_div_mod_converse(x, k, q, d.last() as int);
        lemma_mul_inequality(q + 1, shorter.len() as int, k);
        assert((q + 1) * k == q * k + k) by (nonlinear_arith);
        assert(0 <= q * k) by (nonlinear_arith)
            requires
                0 <= q,
                0 < k,
        ;
        assert(shorter[q].push(alphabet[d.last() as int]) =~= spell(d, alphabet));
    }
}

/// Appending `j` zero digits multiplies the rank by `k^j`.
pub proof fn lemma_rank_zeros(a: Seq<usize>, j: nat, k: int)
    ensures
        rank(a + zeros(j), k) == rank(a, k) * pow(k, j),
    decreases j,
{
    reveal(pow);
    if j == 0 {
        assert(a + zeros(0) =~= a);
    } else {
        let prev = a + zeros((j - 1) as nat);
        assert((a + zeros(j)).drop_last() =~= prev);
        lemma_rank_zeros(a, (j - 1) as nat, k);
        let ra = rank(a, k);
        let p = pow(k, (j - 1) as nat);
        assert(ra * p * k == ra * (k * p)) by (nonlinear_arith);
    }
}

/// Appending `j` largest digits gives the rank just below that of the
/// successor of `a` followed by `j` zeros.
/// A positive power of zero is zero.
pub proof fn lemma_pow_zero_base(e: nat)
    requires
        e > 0,
    ensures
        pow(0, e) == 0,
{
    reveal(pow);
    assert(pow(0, e) == 0 * pow(0, (e - 1) as nat));
}

pub proof fn lemma_rank_maxes(a: Seq<usize>, j: nat, k: int)
    requires
        1 <= k <= usize::MAX + 1,
    ensures
        rank(a + maxes(j, k), k) == (rank(a, k) + 1) * pow(k, j) - 1,
    decreases j,
{
    reveal(pow);
    if j == 0 {
        assert(a + maxes(0, k) =~= a);
    } else {
        let prev = a + maxes((j - 1) as nat, k);
        assert((a + maxes(j, k)).drop_last() =~= prev);
        lemma_rank_maxes(a, (j - 1) as nat, k);
        let ra = rank(a, k);
        let p = pow(k, (j - 1) as nat);
        assert(((ra + 1) * p - 1) * k + (k - 1) == (ra + 1) * (k * p) - 1) by (nonlinear_arith);
    }
}

/// A single-pass generator of every extension of `prefix` by letters of
/// `alphabet` to one fixed length.
pub(crate) struct WordOfSizeIterator {
    pub(crate) alphabet: Vec<char>,
    pub(crate) prefix: Vec<char>,
    pub(crate) current: Vec<usize>,
    pub(crate) done: bool,
}

impl WordOfSizeIterator {
    /// The counter's digits are all valid letters while it runs over a
    /// non-empty alphabet.
    pub(crate) open spec fn wf(&self) -> bool {
        !self.done && self.alphabet@.len() > 0 ==> digits_below(
            self.current@,
            self.alphabet@.len() as int,
        )
    }

    /// The generator runs over an empty alphabet with positions to fill, so
    /// it has no word to emit.
    pub(crate) open spec fn starved(&self) -> bool {
        self.alphabet@.len() == 0 && self.current@.len() > 0
    }

    /// How many words the generator emits in all.
    pub(crate) open spec fn total(&self) -> int {
        pow(self.alphabet@.len() as int, self.current@.len())
    }

    /// How many words the generator has emitted so far.
    pub(crate) open spec fn position(&self) -> int {
        if self.done || self.starved() {
            self.total()
        } else {
            rank(self.current@, self.alphabet@.len() as int)
        }
    }

    /// A generator of the extensions of `prefix` to length `size`, positioned
    /// before the first one: all digits zero, or finished at once when `size`
    /// is shorter than the prefix.
    pub(crate) fn new(alphabet: Vec<char>, size: usize, prefix: Vec<char>) -> (r: Self)
        ensures
            r.wf(),
            r.alphabet@ == alphabet@,
            r.prefix@ == prefix@,
            r.done == (size < prefix@.len()),
            r.current@ == if r.done {
                Seq::<usize>::empty()
            } else {
                zeros((size - prefix@.len()) as nat)
            },
            !r.done ==> r.position() == 0,
    {
        let done = size < prefix.len();
        let mut current: Vec<usize> = Vec::new();
        if !done {
            let free: usize = size - prefix.len();
            let mut i: usize = 0;
            while i < free
                invariant
                    i <= free,
                    current@ == zeros(i as nat),
                decreases free - i,
            {
                current.push(0);
                i += 1;
                assert(current@ =~= zeros(i as nat));
            }
            proof {
                lemma_rank_zeros(Seq::empty(), free as nat, alphabet@.len() as int);
                assert(Seq::<usize>::empty() + zeros(free as nat) =~= zeros(free as nat));
                if alphabet@.len() == 0 && free > 0 {
                    lemma_pow_zero_base(free as nat);
                }
            }
        }
        assert(done ==> current@ =~= Seq::<usize>::empty());
        WordOfSizeIterator { alphabet, prefix, current, done }
    }

    /// The next word, the prefix followed by the letters that the counter
    /// selects; the counter then advances by one.
    pub(crate) fn next(&mut self) -> (r: Option<Vec<char>>)
        requires
            old(self).wf(),
        ensures
            final(self).wf(),
            final(self).alphabet@ == old(self).alphabet@,
            final(self).prefix@ == old(self).prefix@,
            final(self).current@.len() == old(self).current@.len(),
            r is None ==> final(self).done && final(self).current@ == old(self).current@
                && final(self).position() == old(self).position(),
            old(self).done || old(self).starved() ==> r is None,
            !old(self).done && !old(self).starved() && final(self).done ==> final(self).current@
                == zeros(old(self).current@.len()),
            !old(self).done && !old(self).starved() ==> r is Some && r->0@ == old(self).prefix@ + spell(
                old(self).current@,
                old(self).alphabet@,
            ) && final(self).position() == old(self).position() + 1,
    {
        if self.done {
            return None;
        }
        let kk: usize = self.alphabet.len();
        if kk == 0 && self.current.len() > 0 {
            self.done = true;
            return None;
        }
        let ghost k = kk as int;
        let ghost start = self.current@;
        let mut word: Vec<char> = self.prefix.clone();
        let mut t: usize = 0;
        while t < self.current.len()
            invariant
                !self.done,
                self.wf(),
                !self.starved(),
                self.alphabet@ == old(self).alphabet@,
                self.prefix@ == old(self).prefix@,
                k == self.alphabet@.len(),
                start == self.current@,
                t <= start.len(),
                word@ == self.prefix@ + spell(start.subrange(0, t as int), self.alphabet@),
            decreases start.len() - t,
        {
            word.push(self.alphabet[self.current[t]]);
            t += 1;
            assert(word@ =~= self.prefix@ + spell(start.subrange(0, t as int), self.alphabet@));
        }
        assert(start.subrange(0, start.len() as int) =~= start);
        assert(digits_below(start, k));
        let len = self.current.len();
        proof {
            if len > 0 {
                assert(start[0] < k);
            }
        }
        let mut i: usize = len;
        let mut carried = true;
        while carried && i > 0
            invariant
                k == self.alphabet@.len(),
                k == kk,
                len > 0 ==> k > 0,
                self.alphabet@ == old(self).alphabet@,
                self.prefix@ == old(self).prefix@,
                !self.done,
                digits_below(start, k),
                self.current@.len() == len == start.len(),
                i <= len,
                carried ==> self.current@ == start.subrange(0, i as int) + zeros((len - i) as nat)
                    && start == start.subrange(0, i as int) + maxes((len - i) as nat, k),
                !carried ==> digits_below(self.current@, k) && rank(self.current@, k) == rank(
                    start,
                    k,
                ) + 1,
            decreases i,
        {
            let ghost j = (len - i) as nat;
            let ghost a = start.subrange(0, i as int);
            i -= 1;
            assert(self.current@[i as int] == start[i as int]) by {
                assert(self.current@[i as int] == a[i as int]);
            };
            if self.current[i] + 1 < kk {
                let d = self.current[i] + 1;
                self.current.set(i, d);
                proof {
                    let a2 = a.update(i as int, d);
                    assert(self.current@ =~= a2 + zeros(j));
                    assert(a2.drop_last() =~= a.drop_last());
                    lemma_rank_zeros(a2, j, k);
                    lemma_rank_maxes(a, j, k);
                    assert(rank(a2, k) == rank(a, k) + 1);
                    assert(digits_below(self.current@, k));
                }
                carried = false;
            } else {
                self.current.set(i, 0);
                assert(self.current@ =~= start.subrange(0, i as int) + zeros((len - i) as nat));
                assert(start =~= start.subrange(0, i as int) + maxes((len - i) as nat, k)) by {
                    assert(start[i as int] == (k - 1) as usize);
                    assert(a =~= start.subrange(0, i as int).push(start[i as int]));
                };
            }
        }
        if carried {
            self.done = true;
        }
        proof {
            if carried {
                assert(self.current@ =~= zeros(len as nat));
                if len == 0 {
                    reveal(pow);
                } else {
                    assert(start =~= Seq::<usize>::empty() + maxes(len as nat, k));
                    lemma_rank_maxes(Seq::empty(), len as nat, k);
                    assert((0 + 1) * pow(k, len as nat) == pow(k, len as nat)) by (nonlinear_arith);
                }
            }
        }
        Some(word)
    }
}

} // verus!
