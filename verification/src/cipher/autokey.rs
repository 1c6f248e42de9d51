//! The autokey cipher: after the keyword, the key stream continues with
//! the plaintext itself. The generalized shift-stream solver recovers the
//! keyword with its self-extending key schedule.

use vstd::prelude::*;

use crate::cipher::classic_vig::vig_dec;
use crate::cipher::classic_vig::vig_dec_tableau;
use crate::cipher::classic_vig::vig_enc;
use crate::cipher::shift_stream;
use crate::cipher::shift_stream::KeySchedule;
use crate::key::keyword::Keyword;
use crate::key::vigenere_square::ClassicVigSquare;
use crate::lang::Language;

verus! {

pub struct Autokey {
    pub square: ClassicVigSquare,
    pub keyword: Keyword,
}

/// The autokey encryption of position `j`: the shift is the keyword entry
/// for the first `l` letters, and the plaintext letter `l` positions back
/// after that.
pub open spec fn autokey_enc_seq(cps: Seq<i16>, key: Seq<i16>) -> Seq<i16> {
    let l = key.len() as int;
    Seq::new(
        cps.len(),
        |j: int|
            if j < l {
                vig_enc(cps[j], key[j])
            } else {
                vig_enc(cps[j], cps[j - l])
            },
    )
}

/// The autokey decryption of position `j`, recovering each plaintext
/// letter from the one `l` positions back.
pub open spec fn autokey_plain(ct: Seq<i16>, key: Seq<i16>, j: int) -> i16
    recommends
        key.len() >= 1,
        0 <= j < ct.len(),
    decreases j,
{
    let l = key.len() as int;
    if j < l || l < 1 {
        vig_dec(ct[j], key[j])
    } else {
        vig_dec(ct[j], autokey_plain(ct, key, j - l))
    }
}

impl Autokey {
    /// A new cipher with the identity keyword.
    pub fn new(language: &Language) -> (r: Autokey)
        ensures
            r.keyword.value@ =~= seq![0i16],
    {
        Autokey {
            square: ClassicVigSquare::identity(language),
            keyword: Keyword::identity(language),
        }
    }

    /// Encrypts the message: the key stream is the keyword followed by the
    /// plaintext itself.
    pub fn encrypt(&self, language: &Language, msg: &str) -> (r: String)
        requires
            language.wf(),
            language.alph().spec_length() == 26,
            self.keyword.wf(26),
        ensures
            r@ == crate::lang::spec_rethread(
                *language,
                msg@,
                autokey_enc_seq(
                    crate::lang::spec_string_to_cps(language.alph(), msg@),
                    self.keyword.value@,
                ),
            ),
    {
        let cps = language.string_to_vec(msg);
        let l = self.keyword.len();
        let n = cps.len();
        let mut out: Vec<i16> = Vec::new();
        let mut j: usize = 0;
        while j < n
            invariant
                language.wf(),
                j <= n,
                n == cps@.len(),
                1 <= l == self.keyword.value@.len(),
                self.keyword.wf(26),
                forall|p: int| 0 <= p < cps@.len() ==> 0 <= #[trigger] cps@[p] < 26,
                out@.len() == j,
                forall|p: int|
                    0 <= p < j ==> #[trigger] out@[p] == autokey_enc_seq(
                        cps@,
                        self.keyword.value@,
                    )[p],
                forall|p: int| 0 <= p < j ==> 0 <= #[trigger] out@[p] < 26,
            decreases n - j,
        {
            let shift = if j < l {
                self.keyword.at(j)
            } else {
                cps[j - l]
            };
            let y = self.square.encrypt(cps[j], shift);
            out.push(y);
            j = j + 1;
        }
        proof {
            assert(out@ =~= autokey_enc_seq(cps@, self.keyword.value@));
        }
        language.rethread(msg, out.as_slice())
    }

    /// Decrypts the message: each recovered letter extends the key stream.
    pub fn decrypt(&self, language: &Language, msg: &str) -> (r: String)
        requires
            language.wf(),
            language.alph().spec_length() == 26,
            self.keyword.wf(26),
        ensures
            ({
                let ct = crate::lang::spec_string_to_cps(language.alph(), msg@);
                r@ == crate::lang::spec_rethread(
                    *language,
                    msg@,
                    Seq::new(ct.len(), |j: int| autokey_plain(ct, self.keyword.value@, j)),
                )
            }),
    {
        let cps = language.string_to_vec(msg);
        let l = self.keyword.len();
        let n = cps.len();
        let mut out: Vec<i16> = Vec::new();
        let mut j: usize = 0;
        while j < n
            invariant
                language.wf(),
                j <= n,
                n == cps@.len(),
                1 <= l == self.keyword.value@.len(),
                self.keyword.wf(26),
                forall|p: int| 0 <= p < cps@.len() ==> 0 <= #[trigger] cps@[p] < 26,
                out@.len() == j,
                forall|p: int|
                    0 <= p < j ==> #[trigger] out@[p] == autokey_plain(
                        cps@,
                        self.keyword.value@,
                        p,
                    ),
                forall|p: int| 0 <= p < j ==> 0 <= #[trigger] out@[p] < 26,
            decreases n - j,
        {
            let shift = if j < l {
                self.keyword.at(j)
            } else {
                out[j - l]
            };
            let y = self.square.decrypt(shift, cps[j]);
            out.push(y);
            j = j + 1;
        }
        proof {
            assert(out@ =~= Seq::new(
                cps@.len(),
                |j: int| autokey_plain(cps@, self.keyword.value@, j),
            ));
        }
        language.rethread(msg, out.as_slice())
    }

    /// Solves the ciphertext with the generalized shift-stream engine and
    /// its self-extending key schedule.
    pub fn solve(&mut self, language: &Language, msg: &str)
        requires
            language.wf(),
            language.alph().spec_length() == 26,
            msg@.len() <= 0x100000,
        ensures
            final(self).keyword.value@.len() >= 1,
            forall|j: int|
                0 <= j < final(self).keyword.value@.len() ==> 0 <= #[trigger] final(self).keyword.value@[j] < 26,
            ({
                let ct = crate::lang::spec_string_to_cps(language.alph(), msg@);
                let engine = shift_stream::solve_choice(
                    *language,
                    vig_dec_tableau(),
                    shift_stream::KeySchedule::SelfExtending,
                    ct,
                    1,
                    (if ct.len() < 30 {
                        ct.len() as int
                    } else {
                        30
                    }),
                ).0;
                if ct.len() == 0 {
                    final(self).keyword.value@ =~= seq![0i16]
                } else {
                    final(self).keyword.value@ == engine
                }
            }),
    {
        let ciphertext = language.string_to_vec(msg);
        let square = ClassicVigSquare {  };
        let key = shift_stream::vig_solve(
            ciphertext.as_slice(),
            1,
            language,
            (|cp: i16, s: i16| -> (y: i16)
                requires
                    0 <= cp < 32,
                    0 <= s < 32,
                ensures
                    y == vig_dec(cp, (s % 26) as i16),
                    0 <= y < 26,
                { square.decrypt(s % 26, cp) }),
            KeySchedule::SelfExtending,
            Ghost(vig_dec_tableau()),
        );
        self.keyword.set_slice(key.as_slice());
    }
}

} // verus!
