//! The cipher implementations: each transforms text through the language's
//! code points, and those with a known attack carry their solver.

pub mod affine;
pub mod atbash;
pub mod autokey;
pub mod beaufort;
pub mod bellaso;
pub mod caesar;
pub mod classic_vig;
pub mod porta;
pub mod rot13;
pub mod shift_stream;
pub mod simple_sub;
pub mod transpos;
