//! The error type for the library: configuration and model errors raised at
//! training, validation or key-parsing time. Solvers never fail; they return
//! their best-effort key.

use vstd::prelude::*;

verus! {

/// The Error type for the library.
#[derive(Debug)]
pub enum Error {
    /// The upper/lower alphabets for an alphabet have different lengths in
    /// chars but would expect equal length.
    AlphabetLenDifference { upper_len: usize, lower_len: usize },
    /// The minimum number of code points (4) was not found in the corpus
    /// supplied to the language.
    InsufficientCorpusLen { len: usize },
    /// The expected alphabet length (the length of the primary alphabet of
    /// the language) was not found in any of the supplied alphabets.
    AlphabetLenUnmatched { expected: usize },
    /// Expect an alphabet to have equal length to its scoring substitution
    /// table.
    ScoringSubTableLen { alphabet_len: usize, table_len: usize },
    /// A scoring substitution table entry lies outside the canonical packed
    /// statistics space `0..32`.
    ScoringSubTableValue { value: i16 },
    /// The maximum alphabet length is 32.
    MaxAlphabetLenExceeded { alphabet_len: usize },
    /// The uppercase alphabet has at least one character that is repeated.
    RepeatCharUpperAlph { upper: String },
    /// The lowercase alphabet has at least one character that is repeated.
    RepeatCharLowerAlph { lower: String },
    /// The substitution table expects a list of letters in pairs.
    SubstitutionsNotPairs { subs: Vec<String> },
    /// No letter should be repeated in the substitutions.
    SubstitutionsNotUnique { subs: Vec<String> },
    /// Only letters defined in the respective alphabet should appear in the
    /// substitutions.
    InvalidCharsInSubstitutions { subs: Vec<String> },
    /// A key was set from data in the wrong format.
    InvalidKeyFmt { expected: String, actual: String },
    /// Occurs when not enough text was input to a function.
    InsufficientInputLen { expected: usize, actual: usize },
}

impl Error {
    /// Do two errors carry the same variant and the same data? String and
    /// list fields are compared by their contents.
    pub open spec fn equivalent(e: Error, f: Error) -> bool {
        match (e, f) {
            (
                Error::AlphabetLenDifference { upper_len: a1, lower_len: b1 },
                Error::AlphabetLenDifference { upper_len: a2, lower_len: b2 },
            ) => a1 == a2 && b1 == b2,
            (
                Error::InsufficientCorpusLen { len: a1 },
                Error::InsufficientCorpusLen { len: a2 },
            ) => a1 == a2,
            (
                Error::AlphabetLenUnmatched { expected: a1 },
                Error::AlphabetLenUnmatched { expected: a2 },
            ) => a1 == a2,
            (
                Error::ScoringSubTableLen { alphabet_len: a1, table_len: b1 },
                Error::ScoringSubTableLen { alphabet_len: a2, table_len: b2 },
            ) => a1 == a2 && b1 == b2,
            (
                Error::ScoringSubTableValue { value: a1 },
                Error::ScoringSubTableValue { value: a2 },
            ) => a1 == a2,
            (
                Error::MaxAlphabetLenExceeded { alphabet_len: a1 },
                Error::MaxAlphabetLenExceeded { alphabet_len: a2 },
            ) => a1 == a2,
            (
                Error::RepeatCharUpperAlph { upper: a1 },
                Error::RepeatCharUpperAlph { upper: a2 },
            ) => a1@ == a2@,
            (
                Error::RepeatCharLowerAlph { lower: a1 },
                Error::RepeatCharLowerAlph { lower: a2 },
            ) => a1@ == a2@,
            (
                Error::SubstitutionsNotPairs { subs: a1 },
                Error::SubstitutionsNotPairs { subs: a2 },
            ) => a1@ == a2@,
            (
                Error::SubstitutionsNotUnique { subs: a1 },
                Error::SubstitutionsNotUnique { subs: a2 },
            ) => a1@ == a2@,
            (
                Error::InvalidCharsInSubstitutions { subs: a1 },
                Error::InvalidCharsInSubstitutions { subs: a2 },
            ) => a1@ == a2@,
            (
                Error::InvalidKeyFmt { expected: a1, actual: b1 },
                Error::InvalidKeyFmt { expected: a2, actual: b2 },
            ) => a1@ == a2@ && b1@ == b2@,
            (
                Error::InsufficientInputLen { expected: a1, actual: b1 },
                Error::InsufficientInputLen { expected: a2, actual: b2 },
            ) => a1 == a2 && b1 == b2,
            _ => false,
        }
    }

    /// A short name for the error variant, for display by callers.
    pub fn variant_name(&self) -> (r: &'static str)
        ensures
            r@.len() > 0,
    {
        proof {
            reveal_strlit("AlphabetLenDifference");
            reveal_strlit("InsufficientCorpusLen");
            reveal_strlit("AlphabetLenUnmatched");
            reveal_strlit("ScoringSubTableLen");
            reveal_strlit("ScoringSubTableValue");
            reveal_strlit("MaxAlphabetLenExceeded");
            reveal_strlit("RepeatCharUpperAlph");
            reveal_strlit("RepeatCharLowerAlph");
            reveal_strlit("SubstitutionsNotPairs");
            reveal_strlit("SubstitutionsNotUnique");
            reveal_strlit("InvalidCharsInSubstitutions");
            reveal_strlit("InvalidKeyFmt");
            reveal_strlit("InsufficientInputLen");
        }
        match self {
            Error::AlphabetLenDifference { .. } => "AlphabetLenDifference",
            Error::InsufficientCorpusLen { .. } => "InsufficientCorpusLen",
            Error::AlphabetLenUnmatched { .. } => "AlphabetLenUnmatched",
            Error::ScoringSubTableLen { .. } => "ScoringSubTableLen",
            Error::ScoringSubTableValue { .. } => "ScoringSubTableValue",
            Error::MaxAlphabetLenExceeded { .. } => "MaxAlphabetLenExceeded",
            Error::RepeatCharUpperAlph { .. } => "RepeatCharUpperAlph",
            Error::RepeatCharLowerAlph { .. } => "RepeatCharLowerAlph",
            Error::SubstitutionsNotPairs { .. } => "SubstitutionsNotPairs",
            Error::SubstitutionsNotUnique { .. } => "SubstitutionsNotUnique",
            Error::InvalidCharsInSubstitutions { .. } => "InvalidCharsInSubstitutions",
            Error::InvalidKeyFmt { .. } => "InvalidKeyFmt",
            Error::InsufficientInputLen { .. } => "InsufficientInputLen",
        }
    }
}

} // verus!
