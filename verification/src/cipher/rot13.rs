//! The half-rotation cipher: each letter reflects off half the alphabet
//! length, wrapping around; the transform is its own inverse over an even
//! alphabet.

use vstd::prelude::*;

use crate::lang::Language;

verus! {

pub struct Rot13 {}

impl Rot13 {
    /// Runs the cipher: letter `x` becomes `(len/2 - x) mod len`. The
    /// alphabet length must be even for the transform to invert itself.
    pub fn run(&self, language: &Language, msg: &str) -> (r: String)
        requires
            language.wf(),
            language.alph().spec_length() % 2 == 0,
        ensures
            ({
                let cps = crate::lang::spec_string_to_cps(language.alph(), msg@);
                let len = language.alph().spec_length();
                r@ == crate::lang::spec_rethread(
                    *language,
                    msg@,
                    Seq::new(cps.len(), |j: int| ((len / 2 - cps[j]) % len) as i16),
                )
            }),
    {
        let cps = language.string_to_vec(msg);
        let count = language.cp_count();
        let n = cps.len();
        let mut out: Vec<i16> = Vec::new();
        let mut i: usize = 0;
        while i < n
            invariant
                language.wf(),
                i <= n,
                n == cps@.len(),
                0 < count == language.alph().spec_length() <= 32,
                forall|j: int| 0 <= j < cps@.len() ==> 0 <= #[trigger] cps@[j] < count,
                out@.len() == i,
                forall|j: int|
                    0 <= j < i ==> #[trigger] out@[j] as int == ((count as int) / 2 - cps@[j]) % (
                    count as int),
                forall|j: int| 0 <= j < i ==> 0 <= #[trigger] out@[j] < count,
            decreases n - i,
        {
            let v = crate::util::modulo(count / 2 - cps[i], count);
            out.push(v);
            i = i + 1;
        }
        proof {
            let len = language.alph().spec_length();
            assert(out@ =~= Seq::new(cps@.len(), |j: int| ((len / 2 - cps@[j]) % len) as i16));
        }
        language.rethread(msg, out.as_slice())
    }
}

} // verus!
