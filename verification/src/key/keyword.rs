//! A keyword key: a non-empty vector of code points (see the Vigenere-family
//! and transposition ciphers).

use vstd::prelude::*;

use crate::key::KeyInfo;
use crate::lang::Language;

verus! {

/// Represents a keyword.
pub struct Keyword {
    pub value: Vec<i16>,
    pub info: KeyInfo,
}

impl Keyword {
    /// A usable keyword: non-empty, with all entries inside the alphabet.
    pub open spec fn wf(&self, alphabet_len: int) -> bool {
        &&& self.value@.len() >= 1
        &&& forall|k: int| 0 <= k < self.value@.len() ==> 0 <= #[trigger] self.value@[k] < alphabet_len
    }

    /// Returns the length of the keyword.
    pub fn len(&self) -> (r: usize)
        ensures
            r == self.value@.len(),
    {
        self.value.len()
    }

    /// Is the keyword empty?
    pub fn is_empty(&self) -> (r: bool)
        ensures
            r <==> self.value@.len() == 0,
    {
        self.value.len() == 0
    }

    /// Get the value of the keyword at `idx` as a code point.
    pub fn at(&self, idx: usize) -> (r: i16)
        requires
            idx < self.value@.len(),
        ensures
            r == self.value@[idx as int],
    {
        self.value[idx]
    }

    /// Finds the sorting order of the keyword's entries: the permutation a
    /// columnar transposition reads its columns in.
    pub fn find_order(&self) -> (r: Vec<usize>)
        ensures
            r.len() == self.value@.len(),
            forall|i: int| 0 <= i < self.value@.len() ==> #[trigger] r@[i] == crate::util::rank_count(
                self.value@,
                i,
                self.value@.len() as int,
            ),
    {
        crate::util::find_order(self.value.as_slice())
    }

    /// The identity keyword: a single zero shift.
    pub fn identity(_language: &Language) -> (r: Keyword)
        ensures
            r.value@ =~= seq![0i16],
            forall|len: int| len >= 1 ==> r.wf(len),
    {
        let mut v: Vec<i16> = Vec::new();
        v.push(0);
        Keyword { value: v, info: KeyInfo::new() }
    }

    /// Sets the keyword from a string converted through the language; an
    /// empty conversion leaves the single zero shift.
    pub fn set_str(&mut self, language: &Language, arg: &str)
        requires
            language.wf(),
        ensures
            ({
                let cps = crate::lang::spec_string_to_cps(language.alph(), arg@);
                if cps.len() == 0 {
                    final(self).value@ =~= seq![0i16]
                } else {
                    final(self).value@ == cps
                }
            }),
            final(self).wf(language.alph().spec_length()),
    {
        let cps = language.string_to_vec(arg);
        if cps.len() == 0 {
            let mut v: Vec<i16> = Vec::new();
            v.push(0);
            self.value = v;
        } else {
            self.value = cps;
        }
    }

    /// Sets the keyword from a slice of code points; an empty slice leaves
    /// the single zero shift.
    pub fn set_slice(&mut self, arg: &[i16])
        ensures
            arg@.len() == 0 ==> final(self).value@ =~= seq![0i16],
            arg@.len() > 0 ==> final(self).value@ == arg@,
    {
        let mut v: Vec<i16> = Vec::new();
        let mut k: usize = 0;
        while k < arg.len()
            invariant
                k <= arg@.len(),
                v@ == arg@.subrange(0, k as int),
            decreases arg@.len() - k,
        {
            v.push(arg[k]);
            proof {
                assert(v@ =~= arg@.subrange(0, k as int + 1));
            }
            k = k + 1;
        }
        proof {
            assert(arg@.subrange(0, arg@.len() as int) =~= arg@);
        }
        if v.len() == 0 {
            v.push(0);
        }
        self.value = v;
    }

    /// Resets the keyword to the single zero shift.
    pub fn reset(&mut self, _language: &Language)
        ensures
            final(self).value@ =~= seq![0i16],
    {
        let mut v: Vec<i16> = Vec::new();
        v.push(0);
        self.value = v;
    }

    /// Draws a random keyword of length 3 to 11 over the language's code
    /// points.
    pub fn randomize(&mut self, language: &Language)
        requires
            language.wf(),
        ensures
            final(self).wf(language.alph().spec_length()),
            3 <= final(self).value@.len() <= 11,
    {
        let length = crate::rng::rand_usize_below(9) + 3;
        let mut v: Vec<i16> = Vec::new();
        let mut k: usize = 0;
        while k < length
            invariant
                k <= length,
                v@.len() == k,
                forall|p: int| 0 <= p < k ==> #[trigger] v@[p] == 0,
            decreases length - k,
        {
            v.push(0);
            k = k + 1;
        }
        crate::util::fill_random_array(&mut v, language.cp_count());
        self.value = v;
    }
}

} // verus!
