//! An Enigma plugboard: a self-inverse substitution over the 26-letter
//! alphabet in which most letters map to themselves and plugged pairs swap.

use vstd::prelude::*;

use crate::key::KeyInfo;
use crate::lang::Language;

verus! {

/// Represents an Enigma plugboard.
pub struct Plugboard {
    pub substitution: Vec<i16>,
    pub info: KeyInfo,
}

impl Plugboard {
    /// A usable plugboard: a self-inverse permutation of the alphabet.
    pub open spec fn wf(&self) -> bool {
        &&& self.substitution@.len() == 26
        &&& forall|i: int| 0 <= i < 26 ==> 0 <= #[trigger] self.substitution@[i] < 26
        &&& forall|i: int|
            0 <= i < 26 ==> self.substitution@[#[trigger] self.substitution@[i] as int] == i as i16
    }

    /// A plugboard with no plugs: every letter maps to itself.
    pub fn identity(_language: &Language) -> (r: Plugboard)
        ensures
            r.wf(),
            forall|i: int| 0 <= i < 26 ==> #[trigger] r.substitution@[i] == i,
    {
        let mut substitution: Vec<i16> = Vec::new();
        let mut k: i16 = 0;
        while k < 26
            invariant
                0 <= k <= 26,
                substitution@.len() == k,
                forall|p: int| 0 <= p < k ==> #[trigger] substitution@[p] == p,
            decreases 26 - k,
        {
            substitution.push(k);
            k = k + 1;
        }
        Plugboard { substitution, info: KeyInfo::new() }
    }

    /// Removes every plug.
    pub fn reset(&mut self, _language: &Language)
        ensures
            final(self).wf(),
            forall|i: int| 0 <= i < 26 ==> #[trigger] final(self).substitution@[i] == i,
    {
        let mut substitution: Vec<i16> = Vec::new();
        let mut k: i16 = 0;
        while k < 26
            invariant
                0 <= k <= 26,
                substitution@.len() == k,
                forall|p: int| 0 <= p < k ==> #[trigger] substitution@[p] == p,
            decreases 26 - k,
        {
            substitution.push(k);
            k = k + 1;
        }
        self.substitution = substitution;
    }

    /// Creates a new plug between two letters, provided that the plug is
    /// valid: both letters must still map to themselves.
    pub fn add_plug(&mut self, letter1: i16, letter2: i16)
        requires
            old(self).wf(),
            0 <= letter1 < 26,
            0 <= letter2 < 26,
            old(self).substitution@[letter1 as int] == letter1,
            old(self).substitution@[letter2 as int] == letter2,
            letter1 != letter2,
        ensures
            final(self).wf(),
            final(self).substitution@ == old(self).substitution@.update(
                letter1 as int,
                letter2,
            ).update(letter2 as int, letter1),
            final(self).substitution@[letter1 as int] == letter2,
            final(self).substitution@[letter2 as int] == letter1,
    {
        self.substitution.set(letter1 as usize, letter2);
        self.substitution.set(letter2 as usize, letter1);
        proof {
            assert forall|i: int| 0 <= i < 26 implies self.substitution@[
            #[trigger] self.substitution@[i] as int] == i as i16 by {
                if i != letter1 && i != letter2 {
                    assert(old(self).substitution@[i] != letter1);
                    assert(old(self).substitution@[i] != letter2);
                }
            }
        }
    }

    /// Removes a plug between two letters, provided that the plug exists.
    pub fn del_plug(&mut self, letter1: i16, letter2: i16)
        requires
            old(self).wf(),
            0 <= letter1 < 26,
            0 <= letter2 < 26,
            old(self).substitution@[letter1 as int] == letter2,
            old(self).substitution@[letter2 as int] == letter1,
            letter1 != letter2,
        ensures
            final(self).wf(),
            final(self).substitution@[letter1 as int] == letter1,
            final(self).substitution@[letter2 as int] == letter2,
    {
        self.substitution.set(letter1 as usize, letter1);
        self.substitution.set(letter2 as usize, letter2);
        proof {
            assert forall|i: int| 0 <= i < 26 implies self.substitution@[
            #[trigger] self.substitution@[i] as int] == i as i16 by {
                if i != letter1 && i != letter2 {
                    assert(old(self).substitution@[i] != letter1 || i == letter2);
                    assert(old(self).substitution@[i] != letter2 || i == letter1);
                }
            }
        }
    }

    /// Sends a letter through the plugboard; unplugged letters pass
    /// through unchanged.
    pub fn input(&self, letter: i16) -> (r: i16)
        requires
            self.wf(),
            0 <= letter < 26,
        ensures
            r == self.substitution@[letter as int],
            0 <= r < 26,
    {
        self.substitution[letter as usize]
    }

    /// Checks whether creating a plug between two letters is allowed.
    pub fn is_valid_plug(&self, letter1: i16, letter2: i16) -> (r: bool)
        requires
            self.wf(),
            0 <= letter1 < 26,
            0 <= letter2 < 26,
        ensures
            r <==> (self.substitution@[letter1 as int] == letter1
                && self.substitution@[letter2 as int] == letter2 && letter1 != letter2),
    {
        self.substitution[letter1 as usize] == letter1
            && self.substitution[letter2 as usize] == letter2 && letter1 != letter2
    }

    /// Checks whether two letters are plugged together.
    pub fn is_existing_plug(&self, letter1: i16, letter2: i16) -> (r: bool)
        requires
            self.wf(),
            0 <= letter1 < 26,
            0 <= letter2 < 26,
        ensures
            r <==> (self.substitution@[letter1 as int] == letter2
                && self.substitution@[letter2 as int] == letter1 && letter1 != letter2),
    {
        self.substitution[letter1 as usize] == letter2
            && self.substitution[letter2 as usize] == letter1 && letter1 != letter2
    }

    /// Checks whether a letter is used in a plug.
    pub fn is_letter_used(&self, letter: i16) -> (r: bool)
        requires
            self.wf(),
            0 <= letter < 26,
        ensures
            r <==> self.substitution@[letter as int] != letter,
    {
        self.substitution[letter as usize] != letter
    }

    /// Draws a random plugboard: five to twelve plugs over a shuffled pair
    /// list.
    pub fn randomize(&mut self, language: &Language)
        ensures
            final(self).wf(),
    {
        self.reset(language);
        let mut values: Vec<i16> = Vec::new();
        let mut k: i16 = 0;
        while k < 26
            invariant
                0 <= k <= 26,
                values@.len() == k,
                forall|p: int| 0 <= p < k ==> #[trigger] values@[p] == p,
            decreases 26 - k,
        {
            values.push(k);
            k = k + 1;
        }
        proof {
            assert(values@.no_duplicates());
            assert(crate::util::is_permutation_of(values@, 26));
        }
        let ghost before = values@;
        crate::util::shuffle(&mut values);
        proof {
            crate::util::lemma_multiset_permutation_transfer(before, values@, 26);
        }
        let num_plugs = crate::rng::rand_usize_below(8) + 5;
        let mut i: usize = 0;
        while i < num_plugs
            invariant
                i <= num_plugs,
                num_plugs < 13,
                self.wf(),
                crate::util::is_permutation_of(values@, 26),
                forall|p: int|
                    0 <= p < 2 * i ==> #[trigger] self.substitution@[values@[p] as int] != values@[p],
                forall|p: int|
                    2 * i <= p < 26 ==> #[trigger] self.substitution@[values@[p] as int]
                        == values@[p],
            decreases num_plugs - i,
        {
            let a = values[2 * i];
            let b = values[2 * i + 1];
            proof {
                assert(values@[2 * i as int] != values@[2 * i as int + 1]);
            }
            let ghost pre = self.substitution@;
            self.add_plug(a, b);
            proof {
                assert forall|p: int|
                    0 <= p < 2 * (i + 1) implies #[trigger] self.substitution@[values@[p] as int]
                    != values@[p] by {
                    if p < 2 * i {
                        assert(values@[p] != a && values@[p] != b);
                    }
                }
                assert forall|p: int|
                    2 * (i + 1) <= p < 26 implies #[trigger] self.substitution@[values@[p] as int]
                    == values@[p] by {
                    assert(values@[p] != a && values@[p] != b);
                }
            }
            i = i + 1;
        }
    }
}

} // verus!
