//! The Caesar cipher: a single shift over the alphabet, and an exhaustive
//! solver that tries every shift and keeps the best-scoring decryption.

use vstd::prelude::*;

use crate::key::number::Number;
use crate::lang::Language;
use crate::lang::ScoreSize;

verus! {

/// The decryption of a code-point sequence under a fixed shift.
pub open spec fn shift_decrypt(ct: Seq<i16>, shift: int, len: int) -> Seq<i16> {
    Seq::new(ct.len(), |j: int| ((ct[j] - shift) % len) as i16)
}

/// The encryption of a code-point sequence under a fixed shift.
pub open spec fn shift_encrypt(ct: Seq<i16>, shift: int, len: int) -> Seq<i16> {
    Seq::new(ct.len(), |j: int| ((ct[j] + shift) % len) as i16)
}

/// The quadgram score a language model gives the decryption of `ct` under a
/// shift.
pub open spec fn shift_score(lang: Language, ct: Seq<i16>, shift: int) -> int {
    lang.spec_score_of(
        shift_decrypt(ct, shift, lang.alph().spec_length()),
        ScoreSize::Quadgrams,
    )
}

pub struct Caesar {
    pub shift: Number,
}

impl Caesar {
    /// A new Caesar cipher with a zero shift and the language's code points
    /// as legal shift values.
    pub fn new(language: &Language) -> (r: Caesar)
        requires
            language.wf(),
        ensures
            r.shift.wf(),
            r.shift.value == 0,
            r.shift.legal_values@.len() == language.alph().spec_length(),
            forall|k: i16|
                0 <= k < language.alph().spec_length() ==> #[trigger] r.shift.legal_values@.contains(
                    k,
                ),
    {
        let shift = match Number::new(language, 0) {
            Ok(n) => n,
            Err(_) => {
                proof {
                    assert(false);
                }
                unreached()
            },
        };
        proof {
            assert forall|k: i16|
                0 <= k < language.alph().spec_length() implies #[trigger] shift.legal_values@.contains(
                k,
            ) by {
                assert(shift.legal_values@[k as int] == k);
            }
        }
        Caesar { shift }
    }

    /// Resets the shift to its first legal value.
    pub fn reset(&mut self, language: &Language)
        requires
            old(self).shift.legal_values@.len() >= 1,
        ensures
            final(self).shift.wf(),
    {
        self.shift.reset(language);
    }

    /// Draws a random legal shift.
    pub fn randomize(&mut self, language: &Language)
        requires
            old(self).shift.legal_values@.len() >= 1,
        ensures
            final(self).shift.wf(),
    {
        self.shift.randomize(language);
    }

    /// Encrypts the message: each letter moves forward by the shift,
    /// wrapping around the alphabet; other characters pass through.
    pub fn encrypt(&self, language: &Language, msg: &str) -> (r: String)
        requires
            language.wf(),
            0 <= self.shift.value < language.alph().spec_length(),
        ensures
            r@ == crate::lang::spec_rethread(
                *language,
                msg@,
                shift_encrypt(
                    crate::lang::spec_string_to_cps(language.alph(), msg@),
                    self.shift.value as int,
                    language.alph().spec_length(),
                ),
            ),
    {
        let cps = language.string_to_vec(msg);
        let out = apply_shift(&cps, self.shift.get(), language.cp_count());
        language.rethread(msg, out.as_slice())
    }

    /// Decrypts the message: each letter moves backward by the shift.
    pub fn decrypt(&self, language: &Language, msg: &str) -> (r: String)
        requires
            language.wf(),
            0 <= self.shift.value < language.alph().spec_length(),
        ensures
            r@ == crate::lang::spec_rethread(
                *language,
                msg@,
                shift_decrypt(
                    crate::lang::spec_string_to_cps(language.alph(), msg@),
                    self.shift.value as int,
                    language.alph().spec_length(),
                ),
            ),
    {
        let cps = language.string_to_vec(msg);
        let out = apply_shift(&cps, -self.shift.get(), language.cp_count());
        proof {
            assert(shift_encrypt(cps@, -self.shift.value as int, language.alph().spec_length())
                =~= shift_decrypt(cps@, self.shift.value as int, language.alph().spec_length()));
        }
        language.rethread(msg, out.as_slice())
    }

    /// Solves the ciphertext by trying every shift, scoring the full
    /// decryption with quadgram statistics, and keeping the first shift
    /// whose score no later one strictly beats.
    pub fn solve(&mut self, language: &Language, msg: &str)
        requires
            language.wf(),
            msg@.len() <= 0x100000,
            forall|k: i16|
                0 <= k < language.alph().spec_length() ==> #[trigger] old(
                    self,
                ).shift.legal_values@.contains(k),
        ensures
            final(self).shift.legal_values == old(self).shift.legal_values,
            ({
                let ct = crate::lang::spec_string_to_cps(language.alph(), msg@);
                let best = final(self).shift.value as int;
                let len = language.alph().spec_length();
                &&& 0 <= best < len
                &&& (forall|s: int|
                    0 <= s < len ==> shift_score(*language, ct, s) <= shift_score(
                        *language,
                        ct,
                        best,
                    ))
                &&& (forall|s: int|
                    0 <= s < best ==> shift_score(*language, ct, s) < shift_score(
                        *language,
                        ct,
                        best,
                    ))
            }),
    {
        let ciphertext = language.string_to_vec(msg);
        let count = language.cp_count();
        let mut best_score: i64 = i64::MIN;
        let mut shift: i16 = 0;
        while shift < count
            invariant
                language.wf(),
                0 < count == language.alph().spec_length(),
                0 <= shift <= count,
                ciphertext@ == crate::lang::spec_string_to_cps(language.alph(), msg@),
                ciphertext@.len() <= 0x100000,
                forall|j: int|
                    0 <= j < ciphertext@.len() ==> 0 <= #[trigger] ciphertext@[j] < count,
                forall|k: i16|
                    0 <= k < count ==> #[trigger] self.shift.legal_values@.contains(k),
                self.shift.legal_values == old(self).shift.legal_values,
                shift > 0 ==> {
                    &&& 0 <= self.shift.value < shift
                    &&& best_score == shift_score(*language, ciphertext@, self.shift.value as int)
                    &&& (forall|s: int|
                        0 <= s < shift ==> shift_score(*language, ciphertext@, s) <= best_score)
                    &&& (forall|s: int|
                        0 <= s < self.shift.value ==> shift_score(*language, ciphertext@, s)
                            < best_score)
                },
                shift == 0 ==> best_score == i64::MIN,
            decreases count - shift,
        {
            let dec = apply_shift(&ciphertext, -shift, count);
            let score = language.score(dec.as_slice(), ScoreSize::Quadgrams);
            proof {
                assert(shift_encrypt(ciphertext@, -shift as int, count as int) =~= shift_decrypt(
                    ciphertext@,
                    shift as int,
                    count as int,
                ));
            }
            if score > best_score {
                best_score = score;
                let set_r = self.shift.set(language, shift);
                proof {
                    assert(set_r is Ok);
                }
            }
            shift = shift + 1;
        }
    }
}

/// Shifts every code point by `delta`, wrapping around the alphabet.
pub fn apply_shift(cps: &Vec<i16>, delta: i16, count: i16) -> (r: Vec<i16>)
    requires
        0 < count <= 32,
        -32767 + 32 <= delta <= 32767 - 32,
        forall|j: int| 0 <= j < cps@.len() ==> 0 <= #[trigger] cps@[j] < count,
    ensures
        r@ == shift_encrypt(cps@, delta as int, count as int),
        forall|j: int| 0 <= j < r@.len() ==> 0 <= #[trigger] r@[j] < count,
{
    let n = cps.len();
    let mut out: Vec<i16> = Vec::new();
    let mut i: usize = 0;
    while i < n
        invariant
            i <= n,
            n == cps@.len(),
            0 < count <= 32,
            -32767 + 32 <= delta <= 32767 - 32,
            forall|j: int| 0 <= j < cps@.len() ==> 0 <= #[trigger] cps@[j] < count,
            out@.len() == i,
            forall|j: int| 0 <= j < i ==> #[trigger] out@[j] == ((cps@[j] + delta) % (count as int)) as i16,
            forall|j: int| 0 <= j < i ==> 0 <= #[trigger] out@[j] < count,
        decreases n - i,
    {
        let v = crate::util::modulo(cps[i] + delta, count);
        out.push(v);
        i = i + 1;
    }
    proof {
        assert(out@ =~= shift_encrypt(cps@, delta as int, count as int));
    }
    out
}

} // verus!
