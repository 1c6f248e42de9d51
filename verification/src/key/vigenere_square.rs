//! The Vigenere-family tableaus. Each square is a 26-by-26 lookup with a
//! closed arithmetic form, so the lookups are computed directly: the classic
//! square shifts forward, the Bellaso and Porta squares work in thirteen
//! shift classes, and the keyed square runs a mixed alphabet through the
//! classic layout.

use vstd::prelude::*;

use crate::util::modulo;

verus! {

/// Represents a Vigenere tableau (see the classic Vigenere cipher):
/// row `x`, column `y` holds `(x + y) mod 26`.
pub struct ClassicVigSquare {}

impl ClassicVigSquare {
    pub fn identity(_language: &crate::lang::Language) -> (r: ClassicVigSquare) {
        ClassicVigSquare {  }
    }

    /// Encrypts letter `y` under key `x`: the tableau entry `(x + y) mod 26`.
    pub fn encrypt(&self, x: i16, y: i16) -> (r: i16)
        requires
            -32 <= x < 32,
            -32 <= y < 32,
        ensures
            r as int == (x + y) % 26,
            0 <= r < 26,
    {
        modulo(x + y, 26)
    }

    /// Decrypts letter `y` under key `x`: the column where row `x` holds
    /// `y`, which is `(y - x) mod 26`.
    pub fn decrypt(&self, x: i16, y: i16) -> (r: i16)
        requires
            -32 <= x < 32,
            -32 <= y < 32,
        ensures
            r as int == (y - x) % 26,
            0 <= r < 26,
    {
        modulo(y - x, 26)
    }
}

/// Represents a Bellaso tableau (see the Bellaso cipher): thirteen shift
/// classes over half-alphabets.
pub struct BellasoSquare {}

/// The Bellaso tableau entry of the first thirteen rows.
pub open spec fn bellaso_base(row: int, y: int) -> int {
    if y < 13 {
        13 + ((y - row) % 13)
    } else {
        (y - 13 + row) % 13
    }
}

/// The Bellaso tableau entry for row `x` and column `y`: the lower half of
/// the tableau mirrors the upper half column-wise.
pub open spec fn bellaso_entry(x: int, y: int) -> int {
    if x < 13 {
        bellaso_base(x, y)
    } else {
        bellaso_base(x - 13, 25 - y)
    }
}

impl BellasoSquare {
    pub fn identity(_language: &crate::lang::Language) -> (r: BellasoSquare) {
        BellasoSquare {  }
    }

    /// The tableau lookup: each half-alphabet maps into the other, and the
    /// lower thirteen rows mirror the upper ones column-wise.
    pub fn encrypt(&self, x: i16, y: i16) -> (r: i16)
        requires
            0 <= x < 26,
            0 <= y < 26,
        ensures
            r as int == bellaso_entry(x as int, y as int),
            0 <= r < 26,
    {
        let (row, col) = if x < 13 {
            (x, y)
        } else {
            (x - 13, 25 - y)
        };
        if col < 13 {
            13 + modulo(col - row, 13)
        } else {
            modulo(col - 13 + row, 13)
        }
    }

    /// The tableau is symmetric: decryption is the same lookup.
    pub fn decrypt(&self, x: i16, y: i16) -> (r: i16)
        requires
            0 <= x < 26,
            0 <= y < 26,
        ensures
            r as int == bellaso_entry(x as int, y as int),
            0 <= r < 26,
    {
        self.encrypt(x, y)
    }
}

/// Represents a Porta tableau (see the Porta cipher): thirteen shift
/// classes, each swapping the two half-alphabets.
pub struct PortaSquare {}

/// The Porta tableau entry for row `x` (a shift class below 13) and
/// column `y`.
pub open spec fn porta_entry(x: int, y: int) -> int {
    if y < 13 {
        13 + ((y + x) % 13)
    } else {
        (y - 13 - x) % 13
    }
}

impl PortaSquare {
    pub fn identity(_language: &crate::lang::Language) -> (r: PortaSquare) {
        PortaSquare {  }
    }

    /// The tableau lookup for a shift class.
    pub fn encrypt(&self, x: i16, y: i16) -> (r: i16)
        requires
            0 <= x < 13,
            0 <= y < 26,
        ensures
            r as int == porta_entry(x as int, y as int),
            0 <= r < 26,
    {
        if y < 13 {
            13 + modulo(y + x, 13)
        } else {
            modulo(y - 13 - x, 13)
        }
    }

    /// The tableau is symmetric: decryption is the same lookup.
    pub fn decrypt(&self, x: i16, y: i16) -> (r: i16)
        requires
            0 <= x < 13,
            0 <= y < 26,
        ensures
            r as int == porta_entry(x as int, y as int),
            0 <= r < 26,
    {
        self.encrypt(x, y)
    }
}

/// Represents a keyed Vigenere tableau (see the keyed Vigenere cipher):
/// the classic layout read through a mixed alphabet.
pub struct KeyedVigSquare {
    /// The mixed alphabet, a permutation of `0..26`.
    pub alphabet: Vec<i16>,
    /// Its inverse permutation.
    pub inverse: Vec<i16>,
}

impl KeyedVigSquare {
    /// A usable keyed square: the alphabet is a permutation of `0..26` and
    /// the inverse inverts it.
    pub open spec fn wf(&self) -> bool {
        &&& crate::util::is_permutation_of(self.alphabet@, 26)
        &&& self.inverse@.len() == 26
        &&& forall|i: int|
            0 <= i < 26 ==> self.inverse@[#[trigger] self.alphabet@[i] as int] == i as i16
        &&& forall|i: int| 0 <= i < 26 ==> 0 <= #[trigger] self.inverse@[i] < 26
    }

    /// The identity square: the straight alphabet.
    pub fn identity(_language: &crate::lang::Language) -> (r: KeyedVigSquare)
        ensures
            r.wf(),
            forall|i: int| 0 <= i < 26 ==> #[trigger] r.alphabet@[i] == i,
    {
        let mut alphabet: Vec<i16> = Vec::new();
        let mut i: i16 = 0;
        while i < 26
            invariant
                0 <= i <= 26,
                alphabet@.len() == i,
                forall|k: int| 0 <= k < i ==> #[trigger] alphabet@[k] == k,
            decreases 26 - i,
        {
            alphabet.push(i);
            i = i + 1;
        }
        let inverse = crate::util::invert(alphabet.as_slice());
        let mut r = KeyedVigSquare { alphabet, inverse };
        proof {
            assert(r.alphabet@.no_duplicates());
        }
        r
    }

    /// Rebuilds the square from a mixed alphabet.
    pub fn set_alphabet(&mut self, alphabet: &[i16])
        requires
            crate::util::is_permutation_of(alphabet@, 26),
        ensures
            final(self).wf(),
            final(self).alphabet@ == alphabet@,
    {
        let mut a: Vec<i16> = Vec::new();
        let mut i: usize = 0;
        while i < alphabet.len()
            invariant
                i <= alphabet@.len(),
                a@ == alphabet@.subrange(0, i as int),
            decreases alphabet@.len() - i,
        {
            a.push(alphabet[i]);
            proof {
                assert(a@ =~= alphabet@.subrange(0, i as int + 1));
            }
            i = i + 1;
        }
        proof {
            assert(alphabet@.subrange(0, alphabet@.len() as int) =~= alphabet@);
        }
        let inverse = crate::util::invert(alphabet);
        self.alphabet = a;
        self.inverse = inverse;
    }

    /// Encrypts letter `x` under key `y`: the mixed letter at the classic
    /// tableau position.
    pub fn encrypt(&self, x: i16, y: i16) -> (r: i16)
        requires
            self.wf(),
            -26 <= x < 26,
            -26 <= y < 26,
        ensures
            r == self.alphabet@[(x + y) % 26],
            0 <= r < 26,
    {
        let pos = modulo(x + y, 26);
        self.alphabet[pos as usize]
    }

    /// Decrypts letter `y` under key `x`: where the mixed letter sits in
    /// row `x`.
    pub fn decrypt(&self, x: i16, y: i16) -> (r: i16)
        requires
            self.wf(),
            -26 <= x < 26,
            0 <= y < 26,
        ensures
            r as int == (self.inverse@[y as int] - x) % 26,
            0 <= r < 26,
    {
        let pos = self.inverse[y as usize];
        modulo(pos - x, 26)
    }
}

} // verus!
