//! An integer key with a set of legal values (see the Caesar and Affine
//! ciphers, and the transposition ciphers' size parameters).

use vstd::prelude::*;

use crate::error::Error;
use crate::key::KeyInfo;
use crate::lang::Language;

verus! {

/// Represents a bounded integer key.
pub struct Number {
    pub value: i16,
    pub legal_values: Vec<i16>,
    pub info: KeyInfo,
}

impl Number {
    /// A usable number key: its value is one of its non-empty legal set.
    pub open spec fn wf(&self) -> bool {
        &&& self.legal_values@.len() >= 1
        &&& self.legal_values@.contains(self.value)
    }

    /// Gets the value.
    pub fn get(&self) -> (r: i16)
        ensures
            r == self.value,
    {
        self.value
    }

    /// Creates a new number key whose legal values are the code points of
    /// the language's selected alphabet.
    pub fn new(language: &Language, arg: i16) -> (r: Result<Number, Error>)
        requires
            language.wf(),
        ensures
            match r {
                Ok(n) => {
                    &&& n.wf()
                    &&& n.value == arg
                    &&& n.legal_values@.len() == language.alph().spec_length()
                    &&& forall|k: int|
                        0 <= k < n.legal_values@.len() ==> #[trigger] n.legal_values@[k] == k
                },
                Err(_) => !(0 <= arg < language.alph().spec_length()),
            },
    {
        let count = language.cp_count();
        let mut legal: Vec<i16> = Vec::new();
        let mut k: i16 = 0;
        while k < count
            invariant
                0 <= k <= count,
                legal@.len() == k,
                forall|p: int| 0 <= p < k ==> #[trigger] legal@[p] == p,
            decreases count - k,
        {
            legal.push(k);
            k = k + 1;
        }
        if 0 <= arg && arg < count {
            proof {
                assert(legal@[arg as int] == arg);
            }
            Ok(Number { value: arg, legal_values: legal, info: KeyInfo::new() })
        } else {
            proof {
                reveal_strlit("An integer within the legal range");
                reveal_strlit("something else");
            }
            Err(
                Error::InvalidKeyFmt {
                    expected: "An integer within the legal range".to_owned(),
                    actual: "something else".to_owned(),
                },
            )
        }
    }

    /// Sets the value, if it is legal; reports an error otherwise.
    pub fn set(&mut self, _language: &Language, arg: i16) -> (r: Result<(), Error>)
        ensures
            final(self).legal_values == old(self).legal_values,
            match r {
                Ok(_) => old(self).legal_values@.contains(arg) && final(self).value == arg,
                Err(_) => !old(self).legal_values@.contains(arg) && final(self).value == old(
                    self,
                ).value,
            },
    {
        if contains_i16(&self.legal_values, arg) {
            self.value = arg;
            Ok(())
        } else {
            proof {
                reveal_strlit("A number within the legal range");
                reveal_strlit("a number outside it");
            }
            Err(
                Error::InvalidKeyFmt {
                    expected: "A number within the legal range".to_owned(),
                    actual: "a number outside it".to_owned(),
                },
            )
        }
    }

    /// Sets the range of legal values for the number.
    pub fn set_legal_values(&mut self, range: Vec<i16>)
        requires
            range@.len() >= 1,
        ensures
            final(self).legal_values == range,
            final(self).value == old(self).value,
    {
        self.legal_values = range;
    }

    /// Resets the value to the first legal one.
    pub fn reset(&mut self, _language: &Language)
        requires
            old(self).legal_values@.len() >= 1,
        ensures
            final(self).legal_values == old(self).legal_values,
            final(self).value == old(self).legal_values@[0],
            final(self).wf(),
    {
        proof {
            assert(self.legal_values@.contains(self.legal_values@[0]));
        }
        self.value = self.legal_values[0];
    }

    /// Draws a uniformly random legal value.
    pub fn randomize(&mut self, _language: &Language)
        requires
            old(self).legal_values@.len() >= 1,
        ensures
            final(self).legal_values == old(self).legal_values,
            final(self).wf(),
    {
        let idx = crate::rng::fastrand_usize_below(self.legal_values.len());
        proof {
            assert(self.legal_values@.contains(self.legal_values@[idx as int]));
        }
        self.value = self.legal_values[idx];
    }
}

/// Does the vector contain the value?
pub fn contains_i16(values: &Vec<i16>, v: i16) -> (r: bool)
    ensures
        r <==> values@.contains(v),
{
    let n = values.len();
    let mut k: usize = 0;
    while k < n
        invariant
            k <= n,
            n == values@.len(),
            forall|p: int| 0 <= p < k ==> values@[p] != v,
        decreases n - k,
    {
        if values[k] == v {
            proof {
                assert(values@[k as int] == v);
            }
            return true;
        }
        k = k + 1;
    }
    proof {
        if values@.contains(v) {
            let p = choose|p: int| 0 <= p < values@.len() && values@[p] == v;
        }
    }
    false
}

} // verus!
