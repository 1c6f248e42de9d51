//! Classical-cipher toolkit: a corpus-trained n-gram language model with
//! integer fixed-point statistics, analysis primitives (index of coincidence,
//! chi-squared), and automated key-recovery engines for the classical cipher
//! families (shift, affine, substitution, Vigenere-family shift streams and
//! columnar transpositions), together with the cipher transforms themselves.
//!
//! All statistics are held in fixed-point integers so that every score is an
//! exact value: log probabilities and ratios such as the index of coincidence
//! are scaled integers rather than floating-point numbers.

pub mod alphabet;
pub mod cipher;
pub mod convert;
pub mod error;
pub mod fixedlog;
pub mod key;
pub mod lang;
pub mod prime_gen;
mod rng;
mod strings;
pub mod util;

pub use cipher::affine::Affine;
pub use cipher::atbash::Atbash;
pub use cipher::autokey::Autokey;
pub use cipher::beaufort::Beaufort;
pub use cipher::bellaso::Bellaso;
pub use cipher::caesar::Caesar;
pub use cipher::classic_vig::ClassicVigenere;
pub use cipher::porta::Porta;
pub use cipher::rot13::Rot13;
pub use cipher::simple_sub::SimpleSubstitution;
pub use cipher::transpos::BlockTransposition;
pub use cipher::transpos::ColumnTransposition;
