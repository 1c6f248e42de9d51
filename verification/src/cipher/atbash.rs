//! The Atbash cipher: each letter reflects to its mirror position in the
//! alphabet; the transform is its own inverse.

use vstd::prelude::*;

use crate::lang::Language;

verus! {

pub struct Atbash {}

impl Atbash {
    /// Runs the cipher: letter `x` becomes `len - 1 - x`.
    pub fn run(&self, language: &Language, msg: &str) -> (r: String)
        requires
            language.wf(),
        ensures
            ({
                let cps = crate::lang::spec_string_to_cps(language.alph(), msg@);
                let len = language.alph().spec_length();
                r@ == crate::lang::spec_rethread(
                    *language,
                    msg@,
                    Seq::new(cps.len(), |j: int| (len - 1 - cps[j]) as i16),
                )
            }),
    {
        let cps = language.string_to_vec(msg);
        let count = language.cp_count();
        let n = cps.len();
        let mut out: Vec<i16> = Vec::new();
        let mut i: usize = 0;
        while i < n
            invariant
                language.wf(),
                i <= n,
                n == cps@.len(),
                0 < count == language.alph().spec_length() <= 32,
                forall|j: int| 0 <= j < cps@.len() ==> 0 <= #[trigger] cps@[j] < count,
                out@.len() == i,
                forall|j: int|
                    0 <= j < i ==> #[trigger] out@[j] == (count - 1 - cps@[j]) as i16,
                forall|j: int| 0 <= j < i ==> 0 <= #[trigger] out@[j] < count,
            decreases n - i,
        {
            out.push(count - 1 - cps[i]);
            i = i + 1;
        }
        proof {
            let len = language.alph().spec_length();
            assert(out@ =~= Seq::new(cps@.len(), |j: int| (len - 1 - cps@[j]) as i16));
        }
        language.rethread(msg, out.as_slice())
    }
}

} // verus!
