//! The simple substitution cipher and its hill-climbing solver: repeated
//! restarts from shuffled keys, full sweeps of pairwise swaps accepting
//! only strict improvements, and early termination once several restarts
//! in a row fail to find anything new.

use vstd::prelude::*;

use crate::key::alphabet::Alphabet;
use crate::lang::Language;
use crate::lang::ScoreSize;
use crate::util::is_permutation_of;

verus! {

/// The iteration cap on random restarts.
pub const MAX_ITERATIONS: usize = 1000;

/// How many stagnant restarts in a row end the search early.
pub const MAX_REPETITIONS: usize = 3;

pub struct SimpleSubstitution {
    pub alphabet: Alphabet,
}

/// The sequence mapped symbol by symbol through a substitution table.
pub open spec fn subst_map(table: Seq<i16>, cps: Seq<i16>) -> Seq<i16> {
    Seq::new(cps.len(), |j: int| table[cps[j] as int])
}

impl SimpleSubstitution {
    /// A new cipher with the identity alphabet.
    pub fn new(language: &Language) -> (r: SimpleSubstitution)
        requires
            language.wf(),
        ensures
            r.alphabet.wf(language.alph().spec_length()),
    {
        SimpleSubstitution { alphabet: Alphabet::identity(language) }
    }

    /// Encrypts the message: each letter maps through the substitution
    /// alphabet.
    pub fn encrypt(&self, language: &Language, msg: &str) -> (r: String)
        requires
            language.wf(),
            self.alphabet.wf(language.alph().spec_length()),
        ensures
            r@ == crate::lang::spec_rethread(
                *language,
                msg@,
                subst_map(
                    self.alphabet.value@,
                    crate::lang::spec_string_to_cps(language.alph(), msg@),
                ),
            ),
    {
        let cps = language.string_to_vec(msg);
        let out = map_through(&cps, &self.alphabet.value, Ghost(language.alph().spec_length()));
        language.rethread(msg, out.as_slice())
    }

    /// Decrypts the message: each letter maps through the inverse alphabet.
    pub fn decrypt(&self, language: &Language, msg: &str) -> (r: String)
        requires
            language.wf(),
            self.alphabet.wf(language.alph().spec_length()),
        ensures
            r@ == crate::lang::spec_rethread(
                *language,
                msg@,
                subst_map(
                    self.alphabet.inverse@,
                    crate::lang::spec_string_to_cps(language.alph(), msg@),
                ),
            ),
    {
        let cps = language.string_to_vec(msg);
        let out = map_through(&cps, &self.alphabet.inverse, Ghost(language.alph().spec_length()));
        language.rethread(msg, out.as_slice())
    }

    /// Solves the ciphertext by coordinate-ascent over pairwise swaps of a
    /// candidate inverse alphabet: each restart shuffles afresh and sweeps
    /// all swaps until none improves the quadgram score strictly; the
    /// search ends early after several restarts within tolerance of the
    /// best score seen. The cipher's key becomes the inverse of the last
    /// local optimum.
    pub fn solve(&mut self, language: &Language, msg: &str)
        requires
            language.wf(),
            msg@.len() <= 0x100000,
        ensures
            final(self).alphabet.wf(language.alph().spec_length()),
            ({
                let ct = crate::lang::spec_string_to_cps(language.alph(), msg@);
                let ln = language.alph().spec_length();
                exists|inv: Seq<i16>|
                    {
                        &&& #[trigger] is_permutation_of(inv, ln)
                        &&& (forall|i: int|
                            0 <= i < ln ==> final(self).alphabet.value@[#[trigger] inv[i] as int]
                                == i as i16)
                        &&& (forall|i: int, j: int|
                            #![trigger inv.update(i, inv[j]).update(j, inv[i])]
                            0 <= i <= j < ln ==> language.spec_score_of(
                                subst_map(inv.update(i, inv[j]).update(j, inv[i]), ct),
                                ScoreSize::Quadgrams,
                            ) <= language.spec_score_of(subst_map(inv, ct), ScoreSize::Quadgrams))
                    }
            }),
    {
        let ghost n = language.alph().spec_length();
        let ciphertext = language.string_to_vec(msg);
        let count = language.cp_count();
        let len = language.alphabet_len();
        let mut inv_key: Vec<i16> = Vec::new();
        let mut k: i16 = 0;
        while k < count
            invariant
                0 <= k <= count,
                inv_key@.len() == k,
                forall|p: int| 0 <= p < k ==> #[trigger] inv_key@[p] == p,
            decreases count - k,
        {
            inv_key.push(k);
            k = k + 1;
        }
        proof {
            assert(inv_key@.no_duplicates());
            assert(is_permutation_of(inv_key@, n));
        }
        let mut best_score: i64 = i64::MIN;
        let mut repetitions: usize = 0;
        let mut iter: usize = 0;
        while iter < MAX_ITERATIONS
            invariant
                language.wf(),
                n == language.alph().spec_length(),
                1 <= count == n <= 32,
                len == n,
                ciphertext@.len() <= 0x100000,
                forall|j: int|
                    0 <= j < ciphertext@.len() ==> 0 <= #[trigger] ciphertext@[j] < n,
                is_permutation_of(inv_key@, n),
                best_score <= 0 || best_score == i64::MIN,
                repetitions <= MAX_REPETITIONS,
                iter > 0 ==> (forall|i: int, j: int|
                    #![trigger inv_key@.update(i, inv_key@[j]).update(j, inv_key@[i])]
                    0 <= i <= j < n ==> language.spec_score_of(
                        subst_map(inv_key@.update(i, inv_key@[j]).update(j, inv_key@[i]), ciphertext@),
                        ScoreSize::Quadgrams,
                    ) <= language.spec_score_of(
                        subst_map(inv_key@, ciphertext@),
                        ScoreSize::Quadgrams,
                    )),
            ensures
                is_permutation_of(inv_key@, n),
                forall|i: int, j: int|
                    #![trigger inv_key@.update(i, inv_key@[j]).update(j, inv_key@[i])]
                    0 <= i <= j < n ==> language.spec_score_of(
                        subst_map(inv_key@.update(i, inv_key@[j]).update(j, inv_key@[i]), ciphertext@),
                        ScoreSize::Quadgrams,
                    ) <= language.spec_score_of(
                        subst_map(inv_key@, ciphertext@),
                        ScoreSize::Quadgrams,
                    ),
            decreases MAX_ITERATIONS - iter,
        {
            let mut local_best: i64 = i64::MIN;
            let ghost pre_shuffle = inv_key@;
            crate::util::shuffle(&mut inv_key);
            proof {
                crate::util::lemma_multiset_permutation_transfer(pre_shuffle, inv_key@, n);
            }
            let mut improved = true;
            while improved
                invariant
                    language.wf(),
                    n == language.alph().spec_length(),
                    1 <= count == n <= 32,
                    len == n,
                    ciphertext@.len() <= 0x100000,
                    forall|j: int|
                        0 <= j < ciphertext@.len() ==> 0 <= #[trigger] ciphertext@[j] < n,
                    is_permutation_of(inv_key@, n),
                    local_best <= 0 || local_best == i64::MIN,
                    local_best >= -0x10000000000 * 0x100000 || local_best == i64::MIN,
                    local_best == i64::MIN || local_best == language.spec_score_of(
                        subst_map(inv_key@, ciphertext@),
                        ScoreSize::Quadgrams,
                    ),
                    improved || local_best != i64::MIN || n < 2,
                    !improved && local_best != i64::MIN ==> (forall|i: int, j: int|
                        #![trigger inv_key@.update(i, inv_key@[j]).update(j, inv_key@[i])]
                        0 <= i <= j < n ==> language.spec_score_of(
                            subst_map(
                                inv_key@.update(i, inv_key@[j]).update(j, inv_key@[i]),
                                ciphertext@,
                            ),
                            ScoreSize::Quadgrams,
                        ) <= local_best),
                decreases (if improved {
                    1int
                } else {
                    0int
                }) + (if local_best == i64::MIN {
                    0x2000000000000000int
                } else {
                    0int - local_best
                }),
            {
                improved = false;
                let ghost entry_best = local_best;
                let mut i: usize = 0;
                while i + 1 < len
                    invariant
                        language.wf(),
                        n == language.alph().spec_length(),
                        1 <= count == n <= 32,
                        len == n,
                        i <= len,
                        ciphertext@.len() <= 0x100000,
                        forall|j: int|
                            0 <= j < ciphertext@.len() ==> 0 <= #[trigger] ciphertext@[j] < n,
                        is_permutation_of(inv_key@, n),
                        local_best <= 0 || local_best == i64::MIN,
                        local_best >= -0x10000000000 * 0x100000 || local_best == i64::MIN,
                        local_best >= entry_best || entry_best == i64::MIN,
                        improved ==> entry_best == i64::MIN || local_best >= entry_best + 1,
                        improved ==> local_best > i64::MIN,
                        local_best == i64::MIN || local_best == language.spec_score_of(
                            subst_map(inv_key@, ciphertext@),
                            ScoreSize::Quadgrams,
                        ),
                        n >= 2 && i > 0 ==> local_best != i64::MIN,
                        !improved && local_best != i64::MIN ==> (forall|p: int, q: int|
                            #![trigger inv_key@.update(p, inv_key@[q]).update(q, inv_key@[p])]
                            0 <= p <= q < n && p < i ==> language.spec_score_of(
                                subst_map(
                                    inv_key@.update(p, inv_key@[q]).update(q, inv_key@[p]),
                                    ciphertext@,
                                ),
                                ScoreSize::Quadgrams,
                            ) <= local_best),
                    decreases len - i,
                {
                    let mut j: usize = i;
                    while j < len
                        invariant
                            language.wf(),
                            n == language.alph().spec_length(),
                            1 <= count == n <= 32,
                            len == n,
                            i < len,
                            i <= j <= len,
                            ciphertext@.len() <= 0x100000,
                            forall|p: int|
                                0 <= p < ciphertext@.len() ==> 0 <= #[trigger] ciphertext@[p]
                                    < n,
                            is_permutation_of(inv_key@, n),
                            local_best <= 0 || local_best == i64::MIN,
                            local_best >= -0x10000000000 * 0x100000 || local_best == i64::MIN,
                            local_best >= entry_best || entry_best == i64::MIN,
                            improved ==> entry_best == i64::MIN || local_best >= entry_best + 1,
                            improved ==> local_best > i64::MIN,
                            local_best == i64::MIN || local_best == language.spec_score_of(
                                subst_map(inv_key@, ciphertext@),
                                ScoreSize::Quadgrams,
                            ),
                            n >= 2 && i > 0 ==> local_best != i64::MIN,
                            n >= 2 && i == 0 && j > i ==> local_best != i64::MIN,
                            !improved && local_best != i64::MIN ==> (forall|p: int, q: int|
                                #![trigger inv_key@.update(p, inv_key@[q]).update(q, inv_key@[p])]
                                0 <= p <= q < n && (p < i || (p == i && q < j))
                                    ==> language.spec_score_of(
                                    subst_map(
                                        inv_key@.update(p, inv_key@[q]).update(q, inv_key@[p]),
                                        ciphertext@,
                                    ),
                                    ScoreSize::Quadgrams,
                                ) <= local_best),
                        decreases len - j,
                    {
                        let ghost before = inv_key@;
                        swap_entries(&mut inv_key, i, j);
                        proof {
                            crate::util::lemma_swap_preserves_multiset(before, i as int, j as int);
                            crate::util::lemma_multiset_permutation_transfer(before, inv_key@, n);
                        }
                        let dec = map_through(&ciphertext, &inv_key, Ghost(n));
                        let score = language.score(dec.as_slice(), ScoreSize::Quadgrams);
                        proof {
                            assert(score as int == language.spec_score_of(
                                subst_map(
                                    before.update(i as int, before[j as int]).update(
                                        j as int,
                                        before[i as int],
                                    ),
                                    ciphertext@,
                                ),
                                ScoreSize::Quadgrams,
                            ));
                        }
                        if score > local_best {
                            local_best = score;
                            improved = true;
                        } else {
                            let ghost before2 = inv_key@;
                            swap_entries(&mut inv_key, i, j);
                            proof {
                                crate::util::lemma_swap_preserves_multiset(
                                    before2,
                                    i as int,
                                    j as int,
                                );
                                crate::util::lemma_multiset_permutation_transfer(
                                    before2,
                                    inv_key@,
                                    n,
                                );
                                assert(inv_key@ =~= before);
                            }
                        }
                        j = j + 1;
                    }
                    i = i + 1;
                }
                proof {
                    if !improved && local_best != i64::MIN {
                        assert forall|p: int, q: int|
                            #![trigger inv_key@.update(p, inv_key@[q]).update(q, inv_key@[p])]
                            0 <= p <= q < n implies language.spec_score_of(
                            subst_map(
                                inv_key@.update(p, inv_key@[q]).update(q, inv_key@[p]),
                                ciphertext@,
                            ),
                            ScoreSize::Quadgrams,
                        ) <= local_best by {
                            if p >= i {
                                assert(p == q);
                                assert(inv_key@.update(p, inv_key@[q]).update(q, inv_key@[p])
                                    =~= inv_key@);
                            }
                        }
                    }
                }
            }
            proof {
                assert forall|i: int, j: int|
                    #![trigger inv_key@.update(i, inv_key@[j]).update(j, inv_key@[i])]
                    0 <= i <= j < n implies language.spec_score_of(
                    subst_map(inv_key@.update(i, inv_key@[j]).update(j, inv_key@[i]), ciphertext@),
                    ScoreSize::Quadgrams,
                ) <= language.spec_score_of(
                    subst_map(inv_key@, ciphertext@),
                    ScoreSize::Quadgrams,
                ) by {
                    if local_best == i64::MIN {
                        assert(n < 2);
                        assert(i == 0 && j == 0);
                        assert(inv_key@.update(i, inv_key@[j]).update(j, inv_key@[i])
                            =~= inv_key@);
                    }
                }
            }
            // update the stagnation counter against the best score seen
            let close = best_score != i64::MIN && local_best != i64::MIN && (if local_best
                >= best_score {
                local_best - best_score
            } else {
                best_score - local_best
            }) < 6554;
            if close {
                if repetitions < MAX_REPETITIONS {
                    repetitions = repetitions + 1;
                }
            } else {
                repetitions = 0;
            }
            if local_best > best_score {
                best_score = local_best;
            }
            iter = iter + 1;
            if repetitions >= MAX_REPETITIONS {
                break ;
            }
        }
        let final_key = crate::util::invert(inv_key.as_slice());
        proof {
            crate::util::lemma_invert_permutation(inv_key@, final_key@, n);
        }
        let set_r = self.alphabet.set_slice(language, final_key.as_slice());
        proof {
            crate::util::lemma_fill_of_permutation(final_key@, n);
            assert(self.alphabet.value@ =~= final_key@);
            let ln = language.alph().spec_length();
            assert(is_permutation_of(inv_key@, ln));
            assert(forall|i: int|
                0 <= i < ln ==> self.alphabet.value@[#[trigger] inv_key@[i] as int] == i as i16);
        }
    }
}

/// Maps every code point through a substitution table.
pub fn map_through(cps: &Vec<i16>, table: &Vec<i16>, Ghost(n): Ghost<int>) -> (r: Vec<i16>)
    requires
        table@.len() == n,
        forall|j: int| 0 <= j < table@.len() ==> 0 <= #[trigger] table@[j] < n,
        0 < n <= 32,
        forall|j: int| 0 <= j < cps@.len() ==> 0 <= #[trigger] cps@[j] < n,
    ensures
        r@ == subst_map(table@, cps@),
        forall|j: int| 0 <= j < r@.len() ==> 0 <= #[trigger] r@[j] < n,
{
    let m = cps.len();
    let mut out: Vec<i16> = Vec::new();
    let mut p: usize = 0;
    while p < m
        invariant
            p <= m,
            m == cps@.len(),
            table@.len() == n,
            forall|j: int| 0 <= j < table@.len() ==> 0 <= #[trigger] table@[j] < n,
            0 < n <= 32,
            forall|j: int| 0 <= j < cps@.len() ==> 0 <= #[trigger] cps@[j] < n,
            out@.len() == p,
            forall|j: int| 0 <= j < p ==> #[trigger] out@[j] == table@[cps@[j] as int],
            forall|j: int| 0 <= j < p ==> 0 <= #[trigger] out@[j] < n,
        decreases m - p,
    {
        out.push(table[cps[p] as usize]);
        p = p + 1;
    }
    proof {
        assert(out@ =~= subst_map(table@, cps@));
    }
    out
}

/// Swaps two entries of a vector.
fn swap_entries(v: &mut Vec<i16>, i: usize, j: usize)
    requires
        i < old(v).len(),
        j < old(v).len(),
    ensures
        final(v)@ == old(v)@.update(i as int, old(v)@[j as int]).update(
            j as int,
            old(v)@[i as int],
        ),
        final(v).len() == old(v).len(),
{
    let a = v[i];
    let b = v[j];
    v.set(i, b);
    v.set(j, a);
}

} // verus!
