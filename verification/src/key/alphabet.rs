//! A substitution alphabet key: a permutation of the code points, held
//! together with its inverse for constant-time decryption (see the simple
//! substitution cipher).

use vstd::prelude::*;

use crate::key::KeyInfo;
use crate::lang::Language;
use crate::util::is_permutation_of;

verus! {

/// Represents a substitution alphabet.
pub struct Alphabet {
    pub value: Vec<i16>,
    pub inverse: Vec<i16>,
    pub info: KeyInfo,
}

impl Alphabet {
    /// A usable key: the value is a permutation of `0..n` and the inverse
    /// inverts it.
    pub open spec fn wf(&self, n: int) -> bool {
        &&& is_permutation_of(self.value@, n)
        &&& self.inverse@.len() == n
        &&& forall|i: int|
            0 <= i < n ==> self.inverse@[#[trigger] self.value@[i] as int] == i as i16
        &&& forall|i: int| 0 <= i < n ==> 0 <= #[trigger] self.inverse@[i] < n
    }

    /// Encrypts a letter: looks its substitute up.
    pub fn encrypt(&self, letter: i16) -> (r: i16)
        requires
            0 <= letter < self.value@.len(),
        ensures
            r == self.value@[letter as int],
    {
        self.value[letter as usize]
    }

    /// Decrypts a letter: looks it up in the inverse.
    pub fn decrypt(&self, letter: i16) -> (r: i16)
        requires
            0 <= letter < self.inverse@.len(),
        ensures
            r == self.inverse@[letter as int],
    {
        self.inverse[letter as usize]
    }

    /// The substitution as a slice of code points.
    pub fn as_slice(&self) -> (r: &[i16])
        ensures
            r@ == self.value@,
    {
        self.value.as_slice()
    }

    /// The identity key for the language's alphabet.
    pub fn identity(language: &Language) -> (r: Alphabet)
        requires
            language.wf(),
        ensures
            r.wf(language.alph().spec_length()),
            forall|i: int| 0 <= i < language.alph().spec_length() ==> #[trigger] r.value@[i] == i,
    {
        let count = language.cp_count();
        let mut value: Vec<i16> = Vec::new();
        let mut k: i16 = 0;
        while k < count
            invariant
                0 <= k <= count,
                value@.len() == k,
                forall|p: int| 0 <= p < k ==> #[trigger] value@[p] == p,
            decreases count - k,
        {
            value.push(k);
            k = k + 1;
        }
        let inverse = crate::util::invert(value.as_slice());
        let r = Alphabet { value, inverse, info: KeyInfo::new() };
        proof {
            assert(r.value@.no_duplicates());
        }
        r
    }

    /// Sets the key from a slice of code points, completing it to a full
    /// keyed alphabet: the distinct key values first, the rest ascending.
    pub fn set_slice(&mut self, language: &Language, arg: &[i16]) -> (r: Result<
        (),
        crate::error::Error,
    >)
        requires
            language.wf(),
            forall|j: int|
                0 <= j < arg@.len() ==> 0 <= #[trigger] arg@[j] < language.alph().spec_length(),
        ensures
            r is Ok,
            final(self).wf(language.alph().spec_length()),
            final(self).value@ == crate::util::first_occurrences(arg@)
                + crate::util::ascending_missing(arg@, 0, language.alph().spec_length()),
    {
        let len = language.alphabet_len();
        let value = crate::util::fill_alphabet_from_start(arg, len);
        let inverse = crate::util::invert(value.as_slice());
        self.value = value;
        self.inverse = inverse;
        Ok(())
    }

    /// Sets the key from a string, as its code points complete to a keyed
    /// alphabet.
    pub fn set_str(&mut self, language: &Language, arg: &str) -> (r: Result<
        (),
        crate::error::Error,
    >)
        requires
            language.wf(),
        ensures
            r is Ok,
            final(self).wf(language.alph().spec_length()),
    {
        let cps = language.string_to_vec(arg);
        self.set_slice(language, cps.as_slice())
    }

    /// Shuffles the key into a fresh random permutation.
    pub fn randomize(&mut self, language: &Language)
        requires
            language.wf(),
            old(self).wf(language.alph().spec_length()),
        ensures
            final(self).wf(language.alph().spec_length()),
    {
        let ghost n = language.alph().spec_length();
        let ghost before = self.value@;
        crate::util::shuffle(&mut self.value);
        proof {
            crate::util::lemma_multiset_permutation_transfer(before, self.value@, n);
        }
        self.inverse = crate::util::invert(self.value.as_slice());
    }
}

} // verus!
