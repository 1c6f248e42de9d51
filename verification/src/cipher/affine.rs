//! The Affine cipher: each letter maps to `a*x + b` modulo the alphabet
//! length, where `a` must be coprime to it. Besides an exhaustive solver
//! over all valid key pairs, a deterministic known-plaintext attack solves
//! the 2-by-2 linear system exactly.

use vstd::prelude::*;

use crate::key::number::Number;
use crate::lang::Language;
use crate::lang::ScoreSize;
use crate::util::is_mod_inverse;

verus! {

/// Does `a` have a modular inverse, making it a valid multiplier?
pub open spec fn valid_mult(a: int, len: int) -> bool {
    exists|m: int| is_mod_inverse(a, len, m)
}

/// The modular inverse of `a`, when one exists.
pub open spec fn spec_inv(a: int, len: int) -> int {
    choose|m: int| is_mod_inverse(a, len, m)
}

/// Encryption of a code-point sequence under the pair `(a, b)`.
pub open spec fn affine_encrypt(ct: Seq<i16>, a: int, b: int, len: int) -> Seq<i16> {
    Seq::new(ct.len(), |j: int| ((ct[j] * a + b) % len) as i16)
}

/// Decryption of a code-point sequence given the inverse of the multiplier.
pub open spec fn affine_decrypt(ct: Seq<i16>, inv: int, b: int, len: int) -> Seq<i16> {
    Seq::new(ct.len(), |j: int| ((inv * (ct[j] - b)) % len) as i16)
}

/// The quadgram score of the decryption under the pair `(a, b)`.
pub open spec fn pair_score(lang: Language, ct: Seq<i16>, a: int, b: int) -> int {
    lang.spec_score_of(
        affine_decrypt(ct, spec_inv(a, lang.alph().spec_length()), b, lang.alph().spec_length()),
        ScoreSize::Quadgrams,
    )
}

/// Does `(a1, b1)` come before `(a2, b2)` in the solver's scan order?
pub open spec fn pair_before(a1: int, b1: int, a2: int, b2: int) -> bool {
    a1 < a2 || (a1 == a2 && b1 < b2)
}

/// A product is bounded by the product of the factors' bounds.
proof fn lemma_mul_bounds(x: int, y: int, bx: int, by: int)
    requires
        0 <= bx,
        0 <= by,
        -bx <= x <= bx,
        -by <= y <= by,
    ensures
        -(bx * by) <= x * y <= bx * by,
{
    assert(-(bx * by) <= x * y <= bx * by) by (nonlinear_arith)
        requires
            0 <= bx,
            0 <= by,
            -bx <= x <= bx,
            -by <= y <= by,
    ;
}

/// A modular inverse is unique within `0..n`.
pub proof fn lemma_inverse_unique(a: int, n: int, m1: int, m2: int)
    requires
        n >= 1,
        is_mod_inverse(a, n, m1),
        is_mod_inverse(a, n, m2),
    ensures
        m1 == m2,
{
    vstd::arithmetic::div_mod::lemma_mul_mod_noop_right(m1, a * m2, n);
    assert(m1 * (a * m2) == (m1 * a) * m2) by (nonlinear_arith);
    vstd::arithmetic::div_mod::lemma_mul_mod_noop_left(m1 * a, m2, n);
    vstd::arithmetic::div_mod::lemma_small_mod(m1 as nat, n as nat);
    vstd::arithmetic::div_mod::lemma_small_mod(m2 as nat, n as nat);
    assert((m1 * (a * m2)) % n == (m1 * ((a * m2) % n)) % n);
    assert((m1 * 1) % n == m1 % n);
    assert(((m1 * a) % n * m2) % n == ((m1 * a) * m2) % n);
    assert((m1 * a) % n == (a * m1) % n) by (nonlinear_arith);
    assert((1 * m2) % n == m2 % n);
}

pub struct Affine {
    pub a: Number,
    pub b: Number,
}

impl Affine {
    /// The multiplier values valid for this language: those in
    /// `1..alphabet_len` with a modular inverse, in ascending order.
    pub fn valid_a_values(language: &Language) -> (r: Vec<i16>)
        requires
            language.wf(),
        ensures
            ({
                let len = language.alph().spec_length();
                &&& (forall|k: int|
                    0 <= k < r@.len() ==> 1 <= #[trigger] r@[k] < len && (len > 1 ==> valid_mult(
                        r@[k] as int,
                        len,
                    )))
                &&& (forall|a: i16|
                    1 <= a < len && valid_mult(a as int, len) ==> #[trigger] r@.contains(a))
                &&& (forall|k1: int, k2: int| 0 <= k1 < k2 < r@.len() ==> r@[k1] < r@[k2])
            }),
    {
        let count = language.cp_count();
        let mut result: Vec<i16> = Vec::new();
        let mut a: i16 = 1;
        while a < count
            invariant
                language.wf(),
                1 <= a <= count,
                count == language.alph().spec_length(),
                forall|k: int|
                    0 <= k < result@.len() ==> 1 <= #[trigger] result@[k] < a && (count > 1
                        ==> valid_mult(result@[k] as int, count as int)),
                forall|v: i16|
                    1 <= v < a && valid_mult(v as int, count as int) ==> #[trigger] result@.contains(
                        v,
                    ),
                forall|k1: int, k2: int| 0 <= k1 < k2 < result@.len() ==> result@[k1] < result@[k2],
            decreases count - a,
        {
            let ghost pre = result@;
            match crate::util::mmi(a, count) {
                Some(m) => {
                    proof {
                        if count > 1 {
                            assert(is_mod_inverse(a as int, count as int, m as int));
                        } else {
                            assert(false);
                        }
                    }
                    result.push(a);
                    proof {
                        assert forall|v: i16|
                            1 <= v < a + 1 && valid_mult(v as int, count as int) implies
                        #[trigger] result@.contains(v) by {
                            if v < a {
                                assert(pre.contains(v));
                                let k = choose|k: int| 0 <= k < pre.len() && pre[k] == v;
                                assert(result@[k] == v);
                            } else {
                                assert(result@[result@.len() - 1] == a);
                            }
                        }
                    }
                },
                None => {
                    proof {
                        if count > 1 {
                            assert forall|v: i16|
                                1 <= v < a + 1 && valid_mult(v as int, count as int) implies
                            #[trigger] result@.contains(v) by {
                                if v == a {
                                    let m = choose|m: int|
                                        is_mod_inverse(a as int, count as int, m);
                                    assert(false);
                                } else {
                                    assert(pre.contains(v));
                                }
                            }
                        }
                    }
                },
            }
            a = a + 1;
        }
        result
    }

    /// A new Affine cipher with the identity pair: multiplier one, offset
    /// zero. The multiplier's legal values are the invertible ones.
    pub fn new(language: &Language) -> (r: Affine)
        requires
            language.wf(),
            language.alph().spec_length() >= 2,
        ensures
            r.a.value == 1,
            r.b.value == 0,
            r.a.wf(),
            r.b.wf(),
            forall|v: i16|
                1 <= v < language.alph().spec_length() && valid_mult(
                    v as int,
                    language.alph().spec_length(),
                ) ==> #[trigger] r.a.legal_values@.contains(v),
            forall|v: i16|
                0 <= v < language.alph().spec_length() ==> #[trigger] r.b.legal_values@.contains(
                    v,
                ),
    {
        let ghost len = language.alph().spec_length();
        let b = match Number::new(language, 0) {
            Ok(n) => n,
            Err(_) => {
                proof {
                    assert(false);
                }
                unreached()
            },
        };
        let mut a = match Number::new(language, 1) {
            Ok(n) => n,
            Err(_) => {
                proof {
                    assert(false);
                }
                unreached()
            },
        };
        let values = Affine::valid_a_values(language);
        proof {
            assert(values@.contains(1i16)) by {
                assert(is_mod_inverse(1, len, 1)) by {
                    vstd::arithmetic::div_mod::lemma_small_mod(1nat, len as nat);
                    assert((1int * 1) % len == 1int % len);
                }
            }
        }
        a.set_legal_values(values);
        proof {
            let k = choose|k: int| 0 <= k < a.legal_values@.len() && a.legal_values@[k] == 1i16;
            assert(a.legal_values@.contains(a.value));
            assert forall|v: i16|
                0 <= v < len implies #[trigger] b.legal_values@.contains(v) by {
                assert(b.legal_values@[v as int] == v);
            }
        }
        Affine { a, b }
    }

    /// Resets both numbers to their first legal values.
    pub fn reset(&mut self, language: &Language)
        requires
            old(self).a.legal_values@.len() >= 1,
            old(self).b.legal_values@.len() >= 1,
        ensures
            final(self).a.wf(),
            final(self).b.wf(),
    {
        self.a.reset(language);
        self.b.reset(language);
    }

    /// Draws a random valid key pair.
    pub fn randomize(&mut self, language: &Language)
        requires
            old(self).a.legal_values@.len() >= 1,
            old(self).b.legal_values@.len() >= 1,
        ensures
            final(self).a.wf(),
            final(self).b.wf(),
    {
        self.a.randomize(language);
        self.b.randomize(language);
    }

    /// Decrypts a single code point given the multiplier's inverse.
    pub fn decrypt_one(language: &Language, cp: i16, inv: i16, b: i16) -> (r: i16)
        requires
            language.wf(),
            0 <= cp < 32,
            0 <= inv < 32,
            0 <= b < 32,
        ensures
            r as int == (inv * (cp - b)) % (language.alph().spec_length() as int),
            0 <= r < language.alph().spec_length(),
    {
        proof {
            lemma_mul_bounds(inv as int, (cp - b) as int, 31, 31);
        }
        crate::util::modulo(inv * (cp - b), language.cp_count())
    }

    /// Encrypts the message: each letter maps to `a * x + b` modulo the
    /// alphabet length.
    pub fn encrypt(&self, language: &Language, msg: &str) -> (r: String)
        requires
            language.wf(),
            0 <= self.a.value < 32,
            0 <= self.b.value < 32,
        ensures
            r@ == crate::lang::spec_rethread(
                *language,
                msg@,
                affine_encrypt(
                    crate::lang::spec_string_to_cps(language.alph(), msg@),
                    self.a.value as int,
                    self.b.value as int,
                    language.alph().spec_length(),
                ),
            ),
    {
        let cps = language.string_to_vec(msg);
        let count = language.cp_count();
        let n = cps.len();
        let mut out: Vec<i16> = Vec::new();
        let mut i: usize = 0;
        while i < n
            invariant
                language.wf(),
                i <= n,
                n == cps@.len(),
                0 < count == language.alph().spec_length() <= 32,
                0 <= self.a.value < 32,
                0 <= self.b.value < 32,
                forall|j: int| 0 <= j < cps@.len() ==> 0 <= #[trigger] cps@[j] < count,
                out@.len() == i,
                forall|j: int|
                    0 <= j < i ==> #[trigger] out@[j] == ((cps@[j] * self.a.value + self.b.value) % (
                    count as int)) as i16,
                forall|j: int| 0 <= j < i ==> 0 <= #[trigger] out@[j] < count,
            decreases n - i,
        {
            proof {
                lemma_mul_bounds(cps@[i as int] as int, self.a.value as int, 31, 31);
            }
            let v = crate::util::modulo(cps[i] * self.a.get() + self.b.get(), count);
            out.push(v);
            i = i + 1;
        }
        proof {
            assert(out@ =~= affine_encrypt(
                cps@,
                self.a.value as int,
                self.b.value as int,
                count as int,
            ));
        }
        language.rethread(msg, out.as_slice())
    }

    /// Decrypts the message through the multiplier's modular inverse, which
    /// must exist.
    pub fn decrypt(&self, language: &Language, msg: &str) -> (r: String)
        requires
            language.wf(),
            0 <= self.a.value < 32,
            0 <= self.b.value < 32,
            language.alph().spec_length() > 1,
            valid_mult(self.a.value as int, language.alph().spec_length()),
        ensures
            r@ == crate::lang::spec_rethread(
                *language,
                msg@,
                affine_decrypt(
                    crate::lang::spec_string_to_cps(language.alph(), msg@),
                    spec_inv(self.a.value as int, language.alph().spec_length()),
                    self.b.value as int,
                    language.alph().spec_length(),
                ),
            ),
    {
        let count = language.cp_count();
        let inv = match crate::util::mmi(self.a.get(), count) {
            Some(m) => m,
            None => {
                proof {
                    let m0 = choose|m: int|
                        is_mod_inverse(self.a.value as int, count as int, m);
                    assert(false);
                }
                unreached()
            },
        };
        proof {
            lemma_inverse_unique(
                self.a.value as int,
                count as int,
                inv as int,
                spec_inv(self.a.value as int, count as int),
            );
        }
        let cps = language.string_to_vec(msg);
        let out = decrypt_all(&cps, inv, self.b.get(), count);
        language.rethread(msg, out.as_slice())
    }

    /// Performs the known-plaintext attack: from two plaintext/ciphertext
    /// code-point pairs, solves the 2-by-2 linear system modulo the
    /// alphabet length through the modular inverse of the plaintext
    /// difference. This path is exact algebra, not search.
    pub fn solve_known_pair(
        &mut self,
        language: &Language,
        plain0: i16,
        plain1: i16,
        cipher0: i16,
        cipher1: i16,
    )
        requires
            language.wf(),
            language.alph().spec_length() > 1,
            0 <= plain0 < 32,
            0 <= plain1 < 32,
            0 <= cipher0 < 32,
            0 <= cipher1 < 32,
            valid_mult(
                ((plain0 - plain1) as int) % (language.alph().spec_length() as int),
                language.alph().spec_length(),
            ),
            forall|v: i16|
                0 <= v < language.alph().spec_length() ==> #[trigger] old(
                    self,
                ).a.legal_values@.contains(v),
            forall|v: i16|
                0 <= v < language.alph().spec_length() ==> #[trigger] old(
                    self,
                ).b.legal_values@.contains(v),
        ensures
            ({
                let len = language.alph().spec_length() as int;
                let inv_d = spec_inv(((plain0 - plain1) as int) % len, len);
                &&& final(self).a.value as int == (inv_d * (cipher0 - cipher1)) % len
                &&& final(self).b.value as int == (inv_d * (plain0 * cipher1 - plain1 * cipher0))
                    % len
            }),
    {
        let count = language.cp_count();
        let d = crate::util::modulo(plain0 - plain1, count);
        let inv_d = match crate::util::mmi(d, count) {
            Some(m) => m,
            None => {
                proof {
                    let m0 = choose|m: int| is_mod_inverse(d as int, count as int, m);
                    assert(false);
                }
                unreached()
            },
        };
        proof {
            lemma_inverse_unique(
                d as int,
                count as int,
                inv_d as int,
                spec_inv(d as int, count as int),
            );
        }
        proof {
            lemma_mul_bounds(inv_d as int, (cipher0 - cipher1) as int, 31, 31);
        }
        let new_a = crate::util::modulo(inv_d * (cipher0 - cipher1), count);
        proof {
            lemma_mul_bounds(plain0 as int, cipher1 as int, 31, 31);
            lemma_mul_bounds(plain1 as int, cipher0 as int, 31, 31);
        }
        let prod = plain0 * cipher1 - plain1 * cipher0;
        proof {
            lemma_mul_bounds(inv_d as int, prod as int, 31, 961);
        }
        let new_b = crate::util::modulo(inv_d * prod, count);
        let ra = self.a.set(language, new_a);
        let rb = self.b.set(language, new_b);
        proof {
            assert(ra is Ok);
            assert(rb is Ok);
        }
    }
}

impl Affine {
    /// Solves the ciphertext by trying every valid multiplier with every
    /// additive offset, scoring each full decryption with quadgram
    /// statistics; ties keep the pair found first (multiplier outer,
    /// offset inner, both ascending).
    pub fn solve(&mut self, language: &Language, msg: &str)
        requires
            language.wf(),
            msg@.len() <= 0x100000,
            forall|v: i16|
                0 <= v < language.alph().spec_length() ==> #[trigger] old(
                    self,
                ).a.legal_values@.contains(v),
            forall|v: i16|
                0 <= v < language.alph().spec_length() ==> #[trigger] old(
                    self,
                ).b.legal_values@.contains(v),
        ensures
            final(self).a.legal_values == old(self).a.legal_values,
            final(self).b.legal_values == old(self).b.legal_values,
            language.alph().spec_length() == 1 ==> *final(self) == *old(self),
            ({
                let len = language.alph().spec_length();
                let ct = crate::lang::spec_string_to_cps(language.alph(), msg@);
                let ba = final(self).a.value as int;
                let bb = final(self).b.value as int;
                len > 1 ==> {
                    &&& 1 <= ba < len && valid_mult(ba, len)
                    &&& 0 <= bb < len
                    &&& (forall|a: int, b: int|
                        1 <= a < len && valid_mult(a, len) && 0 <= b < len ==> pair_score(
                            *language,
                            ct,
                            a,
                            b,
                        ) <= pair_score(*language, ct, ba, bb))
                    &&& (forall|a: int, b: int|
                        1 <= a < len && valid_mult(a, len) && 0 <= b < len && pair_before(
                            a,
                            b,
                            ba,
                            bb,
                        ) ==> pair_score(*language, ct, a, b) < pair_score(*language, ct, ba, bb))
                }
            }),
    {
        let ciphertext = language.string_to_vec(msg);
        let count = language.cp_count();
        let values = Affine::valid_a_values(language);
        let nv = values.len();
        let mut best_score: i64 = i64::MIN;
        let ghost mut gk: int = 0;
        let ghost mut gb: int = 0;
        let mut ai: usize = 0;
        while ai < nv
            invariant
                language.wf(),
                0 < count == language.alph().spec_length() <= 32,
                ai <= nv,
                nv == values@.len(),
                ciphertext@ == crate::lang::spec_string_to_cps(language.alph(), msg@),
                ciphertext@.len() <= 0x100000,
                forall|j: int|
                    0 <= j < ciphertext@.len() ==> 0 <= #[trigger] ciphertext@[j] < count,
                forall|k: int|
                    0 <= k < values@.len() ==> 1 <= #[trigger] values@[k] < count && (count > 1
                        ==> valid_mult(values@[k] as int, count as int)),
                forall|v: i16|
                    1 <= v < count && valid_mult(v as int, count as int)
                        ==> #[trigger] values@.contains(v),
                forall|k1: int, k2: int|
                    0 <= k1 < k2 < values@.len() ==> values@[k1] < values@[k2],
                forall|v: i16| 0 <= v < count ==> #[trigger] self.a.legal_values@.contains(v),
                forall|v: i16| 0 <= v < count ==> #[trigger] self.b.legal_values@.contains(v),
                self.a.legal_values == old(self).a.legal_values,
                self.b.legal_values == old(self).b.legal_values,
                count == 1 ==> *self == *old(self),
                (ai > 0 && nv > 0) ==> {
                    &&& 0 <= gk < ai
                    &&& 0 <= gb < count
                    &&& self.a.value == values@[gk]
                    &&& self.b.value as int == gb
                    &&& best_score == pair_score(
                        *language,
                        ciphertext@,
                        values@[gk] as int,
                        gb,
                    )
                    &&& (forall|k: int, b: int|
                        #![trigger pair_score(*language, ciphertext@, values@[k] as int, b)]
                        0 <= k < ai && 0 <= b < count ==> pair_score(
                            *language,
                            ciphertext@,
                            values@[k] as int,
                            b,
                        ) <= best_score)
                    &&& (forall|k: int, b: int|
                        #![trigger pair_score(*language, ciphertext@, values@[k] as int, b)]
                        0 <= k < ai && 0 <= b < count && (k < gk || (k == gk && b < gb))
                            ==> pair_score(*language, ciphertext@, values@[k] as int, b)
                            < best_score)
                },
                ai == 0 ==> best_score == i64::MIN,
            decreases nv - ai,
        {
            let a = values[ai];
            let inv = match crate::util::mmi(a, count) {
                Some(m) => m,
                None => {
                    proof {
                        if count > 1 {
                            let m0 = choose|m: int| is_mod_inverse(a as int, count as int, m);
                        }
                        assert(false);
                    }
                    unreached()
                },
            };
            proof {
                lemma_inverse_unique(
                    a as int,
                    count as int,
                    inv as int,
                    spec_inv(a as int, count as int),
                );
            }
            let mut b: i16 = 0;
            while b < count
                invariant
                    language.wf(),
                    0 < count == language.alph().spec_length() <= 32,
                    ai < nv,
                    nv == values@.len(),
                    0 <= b <= count,
                    a == values@[ai as int],
                    1 <= a < count,
                    count > 1,
                    valid_mult(a as int, count as int),
                    0 <= inv < count,
                    inv as int == spec_inv(a as int, count as int),
                    ciphertext@ == crate::lang::spec_string_to_cps(language.alph(), msg@),
                    ciphertext@.len() <= 0x100000,
                    forall|j: int|
                        0 <= j < ciphertext@.len() ==> 0 <= #[trigger] ciphertext@[j] < count,
                    forall|k: int|
                        0 <= k < values@.len() ==> 1 <= #[trigger] values@[k] < count
                            && valid_mult(values@[k] as int, count as int),
                    forall|v: i16|
                        1 <= v < count && valid_mult(v as int, count as int)
                            ==> #[trigger] values@.contains(v),
                    forall|k1: int, k2: int|
                        0 <= k1 < k2 < values@.len() ==> values@[k1] < values@[k2],
                    forall|v: i16| 0 <= v < count ==> #[trigger] self.a.legal_values@.contains(v),
                    forall|v: i16| 0 <= v < count ==> #[trigger] self.b.legal_values@.contains(v),
                    self.a.legal_values == old(self).a.legal_values,
                    self.b.legal_values == old(self).b.legal_values,
                    (ai > 0 || b > 0) ==> {
                        &&& 0 <= gk < nv
                        &&& (gk < ai || (gk == ai && gb < b))
                        &&& 0 <= gb < count
                        &&& self.a.value == values@[gk]
                        &&& self.b.value as int == gb
                        &&& best_score == pair_score(
                            *language,
                            ciphertext@,
                            values@[gk] as int,
                            gb,
                        )
                        &&& (forall|k: int, bb: int|
                            #![trigger pair_score(*language, ciphertext@, values@[k] as int, bb)]
                            0 <= k < values@.len() && 0 <= bb < count && (k < ai || (k == ai && bb
                                < b)) ==> pair_score(
                                *language,
                                ciphertext@,
                                values@[k] as int,
                                bb,
                            ) <= best_score)
                        &&& (forall|k: int, bb: int|
                            #![trigger pair_score(*language, ciphertext@, values@[k] as int, bb)]
                            0 <= k < values@.len() && 0 <= bb < count && (k < gk || (k == gk && bb
                                < gb)) ==> pair_score(*language, ciphertext@, values@[k] as int, bb)
                                < best_score)
                    },
                    (ai == 0 && b == 0) ==> best_score == i64::MIN,
                decreases count - b,
            {
                let dec = decrypt_all(&ciphertext, inv, b, count);
                let score = language.score(dec.as_slice(), ScoreSize::Quadgrams);
                proof {
                    assert(pair_score(*language, ciphertext@, a as int, b as int) == score);
                }
                if score > best_score {
                    best_score = score;
                    let ra = self.a.set(language, a);
                    let rb = self.b.set(language, b);
                    proof {
                        assert(ra is Ok);
                        assert(rb is Ok);
                        gk = ai as int;
                        gb = b as int;
                    }
                }
                b = b + 1;
            }
            ai = ai + 1;
        }
        proof {
            let len = language.alph().spec_length();
            if len > 1 {
                assert(values@.contains(1i16)) by {
                    assert(is_mod_inverse(1, len, 1)) by {
                        vstd::arithmetic::div_mod::lemma_small_mod(1nat, len as nat);
                        assert((1int * 1) % len == 1int % len);
                    }
                }
                assert(nv > 0);
                assert(self.a.value == values@[gk]);
                assert(valid_mult(self.a.value as int, len));
                assert forall|av: int, bv: int|
                    #![trigger pair_score(*language, ciphertext@, av, bv)]
                    1 <= av < len && valid_mult(av, len) && 0 <= bv < len implies pair_score(
                    *language,
                    ciphertext@,
                    av,
                    bv,
                ) <= pair_score(*language, ciphertext@, self.a.value as int, self.b.value as int)
                    by {
                    assert(values@.contains(av as i16));
                    let k = choose|k: int| 0 <= k < values@.len() && values@[k] == av as i16;
                    assert(pair_score(*language, ciphertext@, values@[k] as int, bv)
                        <= best_score);
                }
                assert forall|av: int, bv: int|
                    #![trigger pair_score(*language, ciphertext@, av, bv)]
                    1 <= av < len && valid_mult(av, len) && 0 <= bv < len && pair_before(
                    av,
                    bv,
                    self.a.value as int,
                    self.b.value as int,
                ) implies pair_score(*language, ciphertext@, av, bv) < pair_score(
                    *language,
                    ciphertext@,
                    self.a.value as int,
                    self.b.value as int,
                ) by {
                    assert(values@.contains(av as i16));
                    let k = choose|k: int| 0 <= k < values@.len() && values@[k] == av as i16;
                    if k < gk {
                    } else if k == gk {
                        assert(bv < gb);
                    } else {
                        assert(values@[gk] < values@[k]);
                        assert(false);
                    }
                    assert(pair_score(*language, ciphertext@, values@[k] as int, bv)
                        < best_score);
                }
            }
        }
    }
}

/// The known-plaintext attack is exact algebra: the pair it recovers
/// re-encrypts both known plaintext points to their ciphertext images.
/// With `d` the reduced plaintext difference and `inv_d` its inverse, the
/// recovered `a = inv_d*(c0 - c1) mod L` and
/// `b = inv_d*(p0*c1 - p1*c0) mod L` satisfy `a*p + b = c (mod L)` for
/// both pairs.
pub proof fn lemma_known_pair_consistent(p0: int, p1: int, c0: int, c1: int, len: int, inv_d: int)
    requires
        len >= 2,
        is_mod_inverse((p0 - p1) % len, len, inv_d),
    ensures
        ({
            let a = (inv_d * (c0 - c1)) % len;
            let b = (inv_d * (p0 * c1 - p1 * c0)) % len;
            &&& (a * p0 + b) % len == c0 % len
            &&& (a * p1 + b) % len == c1 % len
        }),
{
    lemma_known_pair_point(p0, c0, p0, p1, c0, c1, len, inv_d);
    lemma_known_pair_point(p1, c1, p0, p1, c0, c1, len, inv_d);
}

/// One point of the known-pair consistency argument.
#[verifier::rlimit(60)]
proof fn lemma_known_pair_point(
    p: int,
    c: int,
    p0: int,
    p1: int,
    c0: int,
    c1: int,
    len: int,
    inv_d: int,
)
    requires
        len >= 2,
        is_mod_inverse((p0 - p1) % len, len, inv_d),
        (p == p0 && c == c0) || (p == p1 && c == c1),
    ensures
        ({
            let a = (inv_d * (c0 - c1)) % len;
            let b = (inv_d * (p0 * c1 - p1 * c0)) % len;
            (a * p + b) % len == c % len
        }),
{
    let d = (p0 - p1) % len;
    let a = (inv_d * (c0 - c1)) % len;
    let b = (inv_d * (p0 * c1 - p1 * c0)) % len;
    vstd::arithmetic::div_mod::lemma_mul_mod_noop_left(inv_d * (c0 - c1), p, len);
    assert((a * p) % len == ((inv_d * (c0 - c1)) * p) % len);
    vstd::arithmetic::div_mod::lemma_add_mod_noop(
        (inv_d * (c0 - c1)) * p,
        inv_d * (p0 * c1 - p1 * c0),
        len,
    );
    vstd::arithmetic::div_mod::lemma_add_mod_noop(a * p, b, len);
    vstd::arithmetic::div_mod::lemma_mod_division_less_than_divisor(
        inv_d * (p0 * c1 - p1 * c0),
        len,
    );
    vstd::arithmetic::div_mod::lemma_small_mod(b as nat, len as nat);
    assert((a * p) % len + b % len == ((inv_d * (c0 - c1)) * p) % len + (inv_d * (p0 * c1 - p1
        * c0)) % len);
    let raw = (inv_d * (c0 - c1)) * p + inv_d * (p0 * c1 - p1 * c0);
    assert((a * p + b) % len == raw % len);
    assert(raw == inv_d * (c * (p0 - p1))) by (nonlinear_arith)
        requires
            raw == (inv_d * (c0 - c1)) * p + inv_d * (p0 * c1 - p1 * c0),
            (p == p0 && c == c0) || (p == p1 && c == c1),
            p == p0 || p == p1,
    ;
    vstd::arithmetic::div_mod::lemma_mul_mod_noop_right(inv_d * c, p0 - p1, len);
    assert(raw == (inv_d * c) * (p0 - p1)) by (nonlinear_arith)
        requires
            raw == inv_d * (c * (p0 - p1)),
    ;
    assert(raw % len == ((inv_d * c) * d) % len);
    assert((inv_d * c) * d == c * (d * inv_d)) by (nonlinear_arith);
    vstd::arithmetic::div_mod::lemma_mul_mod_noop_right(c, d * inv_d, len);
    assert((c * (d * inv_d)) % len == (c * ((d * inv_d) % len)) % len);
    assert((d * inv_d) % len == 1) by {
        assert((d * inv_d) == (inv_d * d)) by (nonlinear_arith);
    }
    assert((c * 1) % len == c % len);
}

/// Decrypts every code point through the multiplier's inverse.
fn decrypt_all(cps: &Vec<i16>, inv: i16, b: i16, count: i16) -> (r: Vec<i16>)
    requires
        0 < count <= 32,
        0 <= inv < 32,
        0 <= b < 32,
        forall|j: int| 0 <= j < cps@.len() ==> 0 <= #[trigger] cps@[j] < count,
    ensures
        r@ == affine_decrypt(cps@, inv as int, b as int, count as int),
        forall|j: int| 0 <= j < r@.len() ==> 0 <= #[trigger] r@[j] < count,
{
    let n = cps.len();
    let mut out: Vec<i16> = Vec::new();
    let mut i: usize = 0;
    while i < n
        invariant
            i <= n,
            n == cps@.len(),
            0 < count <= 32,
            0 <= inv < 32,
            0 <= b < 32,
            forall|j: int| 0 <= j < cps@.len() ==> 0 <= #[trigger] cps@[j] < count,
            out@.len() == i,
            forall|j: int|
                0 <= j < i ==> #[trigger] out@[j] == ((inv * (cps@[j] - b)) % (count as int)) as i16,
            forall|j: int| 0 <= j < i ==> 0 <= #[trigger] out@[j] < count,
        decreases n - i,
    {
        proof {
            lemma_mul_bounds(inv as int, (cps@[i as int] - b) as int, 31, 31);
        }
        let v = crate::util::modulo(inv * (cps[i] - b), count);
        out.push(v);
        i = i + 1;
    }
    proof {
        assert(out@ =~= affine_decrypt(cps@, inv as int, b as int, count as int));
    }
    out
}

} // verus!
