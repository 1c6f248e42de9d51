//! The Beaufort cipher: the reciprocal tableau `key - letter`, its own
//! inverse, solved by the generalized shift-stream engine.

use vstd::prelude::*;

use crate::cipher::shift_stream;
use crate::cipher::shift_stream::KeySchedule;
use crate::key::keyword::Keyword;
use crate::key::vigenere_square::ClassicVigSquare;
use crate::lang::Language;

verus! {

pub struct Beaufort {
    pub square: ClassicVigSquare,
    pub keyword: Keyword,
}

/// The Beaufort map: the key entry minus the letter, modulo 26.
pub open spec fn beaufort_map(cp: i16, k: i16) -> i16 {
    ((k - cp) % 26) as i16
}

/// The Beaufort tableau as the solver sees it: any shift is read modulo
/// 26.
pub open spec fn beaufort_tableau() -> spec_fn(i16, i16) -> i16 {
    |cp: i16, s: i16| beaufort_map(cp, (s % 26) as i16)
}

impl Beaufort {
    /// A new cipher with the identity keyword.
    pub fn new(language: &Language) -> (r: Beaufort)
        ensures
            r.keyword.value@ =~= seq![0i16],
    {
        Beaufort {
            square: ClassicVigSquare::identity(language),
            keyword: Keyword::identity(language),
        }
    }

    /// Runs the cipher: the transform is its own inverse.
    pub fn run(&self, language: &Language, msg: &str) -> (r: String)
        requires
            language.wf(),
            language.alph().spec_length() == 26,
            self.keyword.wf(26),
        ensures
            r@ == crate::lang::spec_rethread(
                *language,
                msg@,
                shift_stream::keyed_map_spec(
                    |cp: i16, k: i16| beaufort_map(cp, k),
                    crate::lang::spec_string_to_cps(language.alph(), msg@),
                    self.keyword.value@,
                ),
            ),
    {
        let cps = language.string_to_vec(msg);
        let square = &self.square;
        let out = shift_stream::keyed_map(
            cps.as_slice(),
            &self.keyword.value,
            &(|cp: i16, k: i16| -> (y: i16)
                requires
                    0 <= cp < 32,
                    0 <= k < 32,
                ensures
                    y == beaufort_map(cp, k),
                    0 <= y < 26,
                { square.decrypt(cp, k) }),
            Ghost(|cp: i16, k: i16| beaufort_map(cp, k)),
            Ghost(26int),
        );
        language.rethread(msg, out.as_slice())
    }

    /// Solves the ciphertext with the generalized shift-stream engine.
    pub fn solve(&mut self, language: &Language, msg: &str)
        requires
            language.wf(),
            language.alph().spec_length() == 26,
            msg@.len() <= 0x100000,
        ensures
            final(self).keyword.value@.len() >= 1,
            forall|j: int|
                0 <= j < final(self).keyword.value@.len() ==> 0 <= #[trigger] final(self).keyword.value@[j] < 26,
            ({
                let ct = crate::lang::spec_string_to_cps(language.alph(), msg@);
                let engine = shift_stream::solve_choice(
                    *language,
                    beaufort_tableau(),
                    shift_stream::KeySchedule::Repeating,
                    ct,
                    1,
                    (if ct.len() < 30 {
                        ct.len() as int
                    } else {
                        30
                    }),
                ).0;
                if ct.len() == 0 {
                    final(self).keyword.value@ =~= seq![0i16]
                } else {
                    final(self).keyword.value@ == engine
                }
            }),
    {
        let ciphertext = language.string_to_vec(msg);
        let square = ClassicVigSquare {  };
        let key = shift_stream::vig_solve(
            ciphertext.as_slice(),
            1,
            language,
            (|cp: i16, s: i16| -> (y: i16)
                requires
                    0 <= cp < 32,
                    0 <= s < 32,
                ensures
                    y == beaufort_map(cp, (s % 26) as i16),
                    0 <= y < 26,
                { square.decrypt(cp, s % 26) }),
            KeySchedule::Repeating,
            Ghost(beaufort_tableau()),
        );
        self.keyword.set_slice(key.as_slice());
    }
}

} // verus!
