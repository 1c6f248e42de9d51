//! The Porta cipher: a reciprocal tableau of thirteen shift classes, each
//! swapping the half-alphabets; the generalized shift-stream solver steps
//! its shifts by two, since the tableau only distinguishes thirteen
//! classes.

use vstd::prelude::*;

use crate::cipher::shift_stream;
use crate::cipher::shift_stream::KeySchedule;
use crate::key::keyword::Keyword;
use crate::key::vigenere_square::porta_entry;
use crate::key::vigenere_square::PortaSquare;
use crate::lang::Language;

verus! {

pub struct Porta {
    pub square: PortaSquare,
    pub keyword: Keyword,
}

/// The Porta tableau as the solver sees it: the shift class is half the
/// shift, reduced to the thirteen classes.
pub open spec fn porta_tableau() -> spec_fn(i16, i16) -> i16 {
    |cp: i16, s: i16| porta_entry(((s / 2) % 13) as int, (cp % 26) as int) as i16
}

impl Porta {
    /// A new cipher with the identity keyword.
    pub fn new(language: &Language) -> (r: Porta)
        ensures
            r.keyword.value@ =~= seq![0i16],
    {
        Porta { square: PortaSquare::identity(language), keyword: Keyword::identity(language) }
    }

    /// Runs the cipher: each letter maps through the shift class of half
    /// its column's keyword entry; the transform is its own inverse.
    pub fn run(&self, language: &Language, msg: &str) -> (r: String)
        requires
            language.wf(),
            language.alph().spec_length() == 26,
            self.keyword.wf(26),
        ensures
            r@ == crate::lang::spec_rethread(
                *language,
                msg@,
                shift_stream::keyed_map_spec(
                    |cp: i16, k: i16| porta_entry((k / 2) as int, cp as int) as i16,
                    crate::lang::spec_string_to_cps(language.alph(), msg@),
                    self.keyword.value@,
                ),
            ),
    {
        let cps = language.string_to_vec(msg);
        let square = &self.square;
        let out = shift_stream::keyed_map(
            cps.as_slice(),
            &self.keyword.value,
            &(|cp: i16, k: i16| -> (y: i16)
                requires
                    0 <= cp < 32,
                    0 <= k < 32,
                ensures
                    y == porta_entry(((k / 2) % 13) as int, (cp % 26) as int) as i16,
                    0 <= y < 26,
                { square.encrypt((k / 2) % 13, cp % 26) }),
            Ghost(
                |cp: i16, k: i16| porta_entry(((k / 2) % 13) as int, (cp % 26) as int) as i16,
            ),
            Ghost(26int),
        );
        proof {
            assert(shift_stream::keyed_map_spec(
                |cp: i16, k: i16| porta_entry(((k / 2) % 13) as int, (cp % 26) as int) as i16,
                cps@,
                self.keyword.value@,
            ) =~= shift_stream::keyed_map_spec(
                |cp: i16, k: i16| porta_entry((k / 2) as int, cp as int) as i16,
                cps@,
                self.keyword.value@,
            ));
        }
        language.rethread(msg, out.as_slice())
    }

    /// Solves the ciphertext, stepping trial shifts by two: the tableau
    /// only distinguishes thirteen shift classes.
    pub fn solve(&mut self, language: &Language, msg: &str)
        requires
            language.wf(),
            language.alph().spec_length() == 26,
            msg@.len() <= 0x100000,
        ensures
            final(self).keyword.value@.len() >= 1,
            forall|j: int|
                0 <= j < final(self).keyword.value@.len() ==> 0 <= #[trigger] final(self).keyword.value@[j] < 26,
            ({
                let ct = crate::lang::spec_string_to_cps(language.alph(), msg@);
                let engine = shift_stream::solve_choice(
                    *language,
                    porta_tableau(),
                    shift_stream::KeySchedule::Repeating,
                    ct,
                    2,
                    (if ct.len() < 30 {
                        ct.len() as int
                    } else {
                        30
                    }),
                ).0;
                if ct.len() == 0 {
                    final(self).keyword.value@ =~= seq![0i16]
                } else {
                    final(self).keyword.value@ == engine
                }
            }),
    {
        let ciphertext = language.string_to_vec(msg);
        let square = PortaSquare {  };
        let key = shift_stream::vig_solve(
            ciphertext.as_slice(),
            2,
            language,
            (|cp: i16, s: i16| -> (y: i16)
                requires
                    0 <= cp < 32,
                    0 <= s < 32,
                ensures
                    y == porta_entry(((s / 2) % 13) as int, (cp % 26) as int) as i16,
                    0 <= y < 26,
                { square.encrypt((s / 2) % 13, cp % 26) }),
            KeySchedule::Repeating,
            Ghost(porta_tableau()),
        );
        self.keyword.set_slice(key.as_slice());
    }
}

} // verus!
