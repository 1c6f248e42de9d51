//! The language model: maps characters to dense code points through an
//! active alphabet variant, holds Laplace-smoothed fixed-point log
//! probabilities for 1- to 4-symbol sequences trained from a corpus, and
//! scores code-point sequences as exact integer sums. Larger scores mean
//! more plausible text; every solver uses this as its oracle.

use vstd::prelude::*;

use crate::alphabet::LangAlphabet;
use crate::cipher::simple_sub::subst_map;
use crate::error::Error;

verus! {

/// The largest supported alphabet length: statistics indices are packed
/// five bits per symbol.
pub const MAX_ALPHABET_LEN: usize = 32;

/// The fixed-point scale for ratio statistics such as the index of
/// coincidence and chi-squared.
pub const STAT_SCALE: u64 = 1000000;

/// Which n-gram statistic to score with.
#[derive(Clone, Copy, Debug)]
pub enum ScoreSize {
    Unigrams,
    Bigrams,
    Trigrams,
    Quadgrams,
}

impl ScoreSize {
    /// The length of the windows that this statistic scores.
    pub open spec fn spec_length(&self) -> int {
        match *self {
            ScoreSize::Unigrams => 1,
            ScoreSize::Bigrams => 2,
            ScoreSize::Trigrams => 3,
            ScoreSize::Quadgrams => 4,
        }
    }

    /// Returns the length of plaintext windows that each statistic uses.
    pub fn length(&self) -> (r: usize)
        ensures
            r == self.spec_length(),
    {
        match *self {
            ScoreSize::Unigrams => 1,
            ScoreSize::Bigrams => 2,
            ScoreSize::Trigrams => 3,
            ScoreSize::Quadgrams => 4,
        }
    }

    /// The number of packed indices this statistic distinguishes: `32^k`.
    pub open spec fn spec_table_len(&self) -> int {
        match *self {
            ScoreSize::Unigrams => 32,
            ScoreSize::Bigrams => 1024,
            ScoreSize::Trigrams => 32768,
            ScoreSize::Quadgrams => 1048576,
        }
    }

    /// Returns the mask to use over packed rolling indices for this
    /// statistic: the table length minus one.
    pub fn mask(&self) -> (r: usize)
        ensures
            r == self.spec_table_len() - 1,
    {
        match *self {
            ScoreSize::Unigrams => 0x1F,
            ScoreSize::Bigrams => 0x3FF,
            ScoreSize::Trigrams => 0x7FFF,
            ScoreSize::Quadgrams => 0xFFFFF,
        }
    }
}

/// The packed index of the window of `k` symbols of `t` ending at `i`:
/// each symbol occupies five bits, the symbol at `i` in the lowest ones.
pub open spec fn packw(t: Seq<i16>, i: int, k: int) -> int
    recommends
        k >= 1,
        i - k >= -1,
        i < t.len(),
    decreases k,
{
    if k <= 1 {
        t[i] as int
    } else {
        packw(t, i - 1, k - 1) * 32 + t[i]
    }
}

/// The sequence actually fed to the rolling scorer: the first `k` symbols
/// enter raw, every later one through the active scoring substitution
/// table.
pub open spec fn scored_seq(table: Seq<i16>, s: Seq<i16>, k: int) -> Seq<i16> {
    Seq::new(s.len(), |j: int| if j < k { s[j] } else { table[s[j] as int] })
}

/// The sum of table cells over all windows of `t` of size `k` that end
/// strictly before position `j_end`.
pub open spec fn score_sum(cells: Seq<i64>, t: Seq<i16>, k: int, j_end: int) -> int
    decreases j_end,
{
    if j_end <= k - 1 || k < 1 {
        0
    } else {
        score_sum(cells, t, k, j_end - 1) + cells[packw(t, j_end - 1, k)]
    }
}

/// The full score of a sequence under a cell table: the sum over all
/// rolling windows of `k` mapped symbols, exactly as the streaming scorer
/// walks them.
pub open spec fn spec_score(cells: Seq<i64>, table: Seq<i16>, s: Seq<i16>, k: int) -> int {
    score_sum(cells, scored_seq(table, s, k), k, s.len() as int)
}

/// How many positions `i` in `3 <= i < j_end` have their packed 4-window
/// index congruent to `w` modulo `m`.
pub open spec fn window_count(s: Seq<i16>, m: int, w: int, j_end: int) -> int
    decreases j_end,
{
    if j_end <= 3 {
        0
    } else {
        window_count(s, m, w, j_end - 1) + if packw(s, j_end - 1, 4) % m == w {
            1int
        } else {
            0int
        }
    }
}

/// The number of occurrences of `v` among the first `j_end` entries of `s`.
pub open spec fn count_occ(s: Seq<i16>, v: int, j_end: int) -> int
    decreases j_end,
{
    if j_end <= 0 {
        0
    } else {
        count_occ(s, v, j_end - 1) + if s[j_end - 1] == v {
            1int
        } else {
            0int
        }
    }
}

/// The code points a string reduces to under an alphabet: non-letters are
/// dropped, every letter maps through the alias-resolving lookup.
pub open spec fn spec_string_to_cps(alph: LangAlphabet, s: Seq<char>) -> Seq<i16>
    decreases s.len(),
{
    if s.len() == 0 {
        Seq::empty()
    } else {
        let pre = spec_string_to_cps(alph, s.drop_last());
        match alph.spec_cp_of(s.last()) {
            Some(cp) => pre.push(cp),
            None => pre,
        }
    }
}

/// Provides compatibility with different cipher alphabet lengths, performs
/// conversions from letters to code points in `0..alphabet_len`, and scores
/// code-point data with trained fixed-point statistics.
pub struct Language {
    /// The name of the language.
    pub name: String,
    /// Length of the standard (primary) alphabet.
    pub alphabet_len: i16,
    /// Log-probability cells for single symbols, scaled by
    /// [`crate::fixedlog::LOG_SCALE`].
    pub unigrams: Vec<i64>,
    /// Log-probability cells for symbol pairs.
    pub bigrams: Vec<i64>,
    /// Log-probability cells for symbol triples.
    pub trigrams: Vec<i64>,
    /// Log-probability cells for symbol quadruples.
    pub quadgrams: Vec<i64>,
    /// Raw unigram window counts from training, for the frequency
    /// statistics.
    pub unigram_counts: Vec<u64>,
    /// How many 4-symbol windows the training corpus yielded; the common
    /// denominator of all smoothed probabilities.
    pub total_windows: u64,
    /// All supported alphabet variants.
    pub alphabets: Vec<LangAlphabet>,
    /// Maps ligatures and similar characters to replacement strings, applied
    /// by [`Language::substitute_string`] before any cipher sees the text.
    pub substitution_table: Vec<(char, String)>,
    /// The index of the currently selected alphabet variant.
    pub selected_alph_idx: usize,
}

impl Language {
    /// A trained, usable model: a selected well-formed alphabet whose length
    /// matches, tables of the fixed sizes whose cells are bounded
    /// non-positive fixed-point logs, and a bounded corpus size.
    pub open spec fn wf(&self) -> bool {
        &&& self.alphabets.len() >= 1
        &&& self.selected_alph_idx < self.alphabets.len()
        &&& forall|i: int| 0 <= i < self.alphabets.len() ==> (#[trigger] self.alphabets[i]).wf()
        &&& 1 <= self.alph().spec_length() <= 32
        &&& self.unigrams.len() == 32
        &&& self.bigrams.len() == 1024
        &&& self.trigrams.len() == 32768
        &&& self.quadgrams.len() == 1048576
        &&& self.unigram_counts.len() == 32
        &&& cells_bounded(self.unigrams@)
        &&& cells_bounded(self.bigrams@)
        &&& cells_bounded(self.trigrams@)
        &&& cells_bounded(self.quadgrams@)
        &&& self.total_windows < 0x10000000000
    }

    /// The currently selected alphabet variant.
    pub open spec fn alph(&self) -> LangAlphabet
        recommends
            self.selected_alph_idx < self.alphabets.len(),
    {
        self.alphabets[self.selected_alph_idx as int]
    }

    /// A shared reference to the currently selected alphabet variant.
    pub fn alph_ref(&self) -> (r: &LangAlphabet)
        requires
            self.selected_alph_idx < self.alphabets.len(),
        ensures
            *r == self.alph(),
    {
        &self.alphabets[self.selected_alph_idx]
    }

    /// Returns the length of the selected alphabet variant.
    pub fn alphabet_len(&self) -> (r: usize)
        requires
            self.wf(),
        ensures
            r == self.alph().spec_length(),
            1 <= r <= 32,
    {
        self.alph_ref().length()
    }

    /// Returns the number of distinct code points.
    pub fn cp_count(&self) -> (r: i16)
        requires
            self.wf(),
        ensures
            r == self.alph().spec_length(),
            1 <= r <= 32,
    {
        self.alphabet_len() as i16
    }

    /// Returns the max value of a code point.
    pub fn max_cp(&self) -> (r: i16)
        requires
            self.wf(),
        ensures
            r == self.alph().spec_length() - 1,
    {
        self.cp_count() - 1
    }

    /// Is the code point valid for the selected alphabet?
    pub fn valid_cp(&self, cp: i16) -> (r: bool)
        requires
            self.wf(),
        ensures
            r <==> 0 <= cp < self.alph().spec_length(),
    {
        0 <= cp && cp <= self.max_cp()
    }

    /// Is this character a letter of the selected alphabet, directly or
    /// through an alias?
    pub fn is_letter(&self, letter: &char) -> (r: bool)
        requires
            self.wf(),
        ensures
            r <==> self.alph().spec_cp_of(*letter) is Some,
    {
        self.alph_ref().cp_of(*letter).is_some()
    }

    /// Is this character not a letter of the selected alphabet?
    pub fn is_punct(&self, letter: &char) -> (r: bool)
        requires
            self.wf(),
        ensures
            r <==> self.alph().spec_cp_of(*letter) is None,
    {
        !self.is_letter(letter)
    }

    /// Converts a letter to its code point.
    pub fn get_cp(&self, letter: &char) -> (r: i16)
        requires
            self.wf(),
            self.alph().spec_cp_of(*letter) is Some,
        ensures
            Some(r) == self.alph().spec_cp_of(*letter),
            0 <= r < self.alph().spec_length(),
    {
        proof {
            crate::alphabet::lemma_char_map_values_bounded(self.alph(), *letter);
        }
        self.alph_ref().cp_of(*letter).unwrap()
    }

    /// Converts a code point to its uppercase letter.
    pub fn cp_to_upper(&self, cp: i16) -> (r: char)
        requires
            self.wf(),
            0 <= cp < self.alph().spec_length(),
        ensures
            r == self.alph().upper@[cp as int],
    {
        self.alph_ref().upper.as_str().get_char(cp as usize)
    }

    /// Converts a code point to its lowercase letter.
    pub fn cp_to_lower(&self, cp: i16) -> (r: char)
        requires
            self.wf(),
            0 <= cp < self.alph().spec_length(),
        ensures
            r == self.alph().lower@[cp as int],
    {
        self.alph_ref().lower.as_str().get_char(cp as usize)
    }

    /// Is this character an uppercase letter or uppercase alias?
    pub fn is_upper(&self, letter: &char) -> (r: bool)
        requires
            self.wf(),
        ensures
            r <==> (self.alph().upper@.contains(*letter) || exists|k: int|
                0 <= k < self.alph().upper_sub_views().len() && (
                #[trigger] self.alph().upper_sub_views()[k])[0] == *letter),
    {
        self.alph_ref().case_matches(letter, true)
    }

    /// Is this character a lowercase letter or lowercase alias?
    pub fn is_lower(&self, letter: &char) -> (r: bool)
        requires
            self.wf(),
        ensures
            r <==> (self.alph().lower@.contains(*letter) || exists|k: int|
                0 <= k < self.alph().lower_sub_views().len() && (
                #[trigger] self.alph().lower_sub_views()[k])[0] == *letter),
    {
        self.alph_ref().case_matches(letter, false)
    }

    /// Updates the code point of a letter, keeping its case: uppercase
    /// letters stay uppercase, everything else becomes lowercase.
    pub fn update_cp(&self, old_letter: &char, new_cp: i16) -> (r: char)
        requires
            self.wf(),
            0 <= new_cp < self.alph().spec_length(),
        ensures
            r == self.spec_update_cp(*old_letter, new_cp),
    {
        if self.is_upper(old_letter) {
            self.cp_to_upper(new_cp)
        } else {
            self.cp_to_lower(new_cp)
        }
    }

    /// What `update_cp` yields: the letter for the new code point in the
    /// case of the old letter.
    pub open spec fn spec_update_cp(&self, old_letter: char, new_cp: i16) -> char {
        if self.alph().upper@.contains(old_letter) || (exists|k: int|
            0 <= k < self.alph().upper_sub_views().len() && (
            #[trigger] self.alph().upper_sub_views()[k])[0] == old_letter) {
            self.alph().upper@[new_cp as int]
        } else {
            self.alph().lower@[new_cp as int]
        }
    }

    /// Converts a letter of the alphabet to lowercase; other characters
    /// pass through.
    pub fn to_lower(&self, letter: &char) -> (r: char)
        requires
            self.wf(),
        ensures
            self.alph().spec_cp_of(*letter) is Some ==> (if self.spec_is_upper(*letter) {
                r == self.alph().lower@[self.alph().spec_cp_of(*letter).unwrap() as int]
            } else {
                r == *letter
            }),
            self.alph().spec_cp_of(*letter) is None ==> r == *letter,
    {
        if self.is_upper(letter) && self.is_letter(letter) {
            let cp = self.get_cp(letter);
            self.cp_to_lower(cp)
        } else {
            *letter
        }
    }

    /// Converts a letter of the alphabet to uppercase; other characters
    /// pass through.
    pub fn to_upper(&self, letter: &char) -> (r: char)
        requires
            self.wf(),
        ensures
            self.alph().spec_cp_of(*letter) is Some ==> (if self.spec_is_lower(*letter) {
                r == self.alph().upper@[self.alph().spec_cp_of(*letter).unwrap() as int]
            } else {
                r == *letter
            }),
            self.alph().spec_cp_of(*letter) is None ==> r == *letter,
    {
        if self.is_lower(letter) && self.is_letter(letter) {
            let cp = self.get_cp(letter);
            self.cp_to_upper(cp)
        } else {
            *letter
        }
    }

    /// The uppercase test as a spec predicate.
    pub open spec fn spec_is_upper(&self, letter: char) -> bool {
        self.alph().upper@.contains(letter) || exists|k: int|
            0 <= k < self.alph().upper_sub_views().len() && (
            #[trigger] self.alph().upper_sub_views()[k])[0] == letter
    }

    /// The lowercase test as a spec predicate.
    pub open spec fn spec_is_lower(&self, letter: char) -> bool {
        self.alph().lower@.contains(letter) || exists|k: int|
            0 <= k < self.alph().lower_sub_views().len() && (
            #[trigger] self.alph().lower_sub_views()[k])[0] == letter
    }

    /// The expected index of coincidence of the selected alphabet variant,
    /// scaled by [`STAT_SCALE`].
    pub fn expected_ioc(&self) -> (r: u64)
        requires
            self.wf(),
        ensures
            r == self.alph().expected_ioc,
    {
        self.alph_ref().expected_ioc
    }

    /// Converts a slice of code points to an uppercase string.
    pub fn vec_to_string(&self, arr: &[i16]) -> (r: String)
        requires
            self.wf(),
            forall|i: int| 0 <= i < arr@.len() ==> 0 <= #[trigger] arr@[i] < self.alph().spec_length(),
        ensures
            r@.len() == arr@.len(),
            forall|i: int| 0 <= i < arr@.len() ==> #[trigger] r@[i] == self.alph().upper@[arr@[i] as int],
    {
        let mut result = String::new();
        let mut i: usize = 0;
        while i < arr.len()
            invariant
                self.wf(),
                i <= arr@.len(),
                forall|p: int|
                    0 <= p < arr@.len() ==> 0 <= #[trigger] arr@[p] < self.alph().spec_length(),
                result@.len() == i,
                forall|p: int|
                    0 <= p < i ==> #[trigger] result@[p] == self.alph().upper@[arr@[p] as int],
            decreases arr@.len() - i,
        {
            let c = self.cp_to_upper(arr[i]);
            result.push(c);
            i = i + 1;
        }
        result
    }

    /// Converts a string to the code points of its letters, dropping every
    /// other character.
    pub fn string_to_vec(&self, string: &str) -> (r: Vec<i16>)
        requires
            self.wf(),
        ensures
            r@ == spec_string_to_cps(self.alph(), string@),
            r@.len() <= string@.len(),
            forall|i: int| 0 <= i < r@.len() ==> 0 <= #[trigger] r@[i] < self.alph().spec_length(),
    {
        str_to_cps(self.alph_ref(), string)
    }

    /// Selects the alphabet variant of the given length, if the language
    /// has one; reports whether it does. The first variant of that length
    /// wins.
    pub fn set_alph_len(&mut self, len: usize) -> (r: bool)
        ensures
            final(self).name == old(self).name,
            final(self).alphabet_len == old(self).alphabet_len,
            final(self).unigrams == old(self).unigrams,
            final(self).bigrams == old(self).bigrams,
            final(self).trigrams == old(self).trigrams,
            final(self).quadgrams == old(self).quadgrams,
            final(self).unigram_counts == old(self).unigram_counts,
            final(self).total_windows == old(self).total_windows,
            final(self).alphabets == old(self).alphabets,
            final(self).substitution_table == old(self).substitution_table,
            match find_alph_idx(old(self).alphabets@, len as int) {
                Some(idx) => r && final(self).selected_alph_idx == idx,
                None => !r && final(self).selected_alph_idx == old(self).selected_alph_idx,
            },
    {
        let n = self.alphabets.len();
        let mut i: usize = 0;
        while i < n
            invariant
                i <= n,
                n == self.alphabets.len(),
                *self == *old(self),
                forall|p: int|
                    0 <= p < i ==> (#[trigger] self.alphabets@[p]).spec_length() != len as int,
                find_alph_idx(self.alphabets@, len as int) == find_alph_idx_from(
                    self.alphabets@,
                    len as int,
                    i as int,
                ),
            decreases n - i,
        {
            if self.alphabets[i].length() == len {
                self.selected_alph_idx = i;
                return true;
            }
            i = i + 1;
        }
        false
    }
}

/// Thirty-two to the power `k`.
pub open spec fn pow32(k: int) -> int
    decreases k,
{
    if k <= 0 {
        1
    } else {
        32 * pow32(k - 1)
    }
}

/// A packed window of in-range symbols lies below `32^k`.
pub proof fn lemma_packw_bound(t: Seq<i16>, i: int, k: int)
    requires
        1 <= k,
        i - k >= -1,
        i < t.len(),
        forall|j: int| i - k < j <= i ==> 0 <= #[trigger] t[j] < 32,
    ensures
        0 <= packw(t, i, k) < pow32(k),
    decreases k,
{
    assert(pow32(0) == 1);
    if k == 1 {
        assert(pow32(1) == 32 * pow32(0));
    } else {
        lemma_packw_bound(t, i - 1, k - 1);
        assert(packw(t, i, k) == packw(t, i - 1, k - 1) * 32 + t[i]);
        assert(pow32(k) == 32 * pow32(k - 1));
        assert(0 <= packw(t, i - 1, k - 1) * 32 + t[i] < 32 * pow32(k - 1)) by (nonlinear_arith)
            requires
                0 <= packw(t, i - 1, k - 1) < pow32(k - 1),
                0 <= t[i] < 32,
        ;
    }
}

/// Dropping the leading symbol of a packed window: the window of `k`
/// symbols splits into its first symbol and the window of the remaining
/// `k - 1`.
pub proof fn lemma_packw_split(t: Seq<i16>, i: int, k: int)
    requires
        2 <= k,
        i - k >= -1,
        i < t.len(),
    ensures
        packw(t, i, k) == t[i - k + 1] * pow32(k - 1) + packw(t, i, k - 1),
    decreases k,
{
    assert(pow32(0) == 1);
    if k == 2 {
        assert(pow32(1) == 32 * pow32(0));
        assert(packw(t, i, 2) == packw(t, i - 1, 1) * 32 + t[i]);
    } else {
        lemma_packw_split(t, i - 1, k - 1);
        assert(packw(t, i - 1, k - 1) == t[i - k + 1] * pow32(k - 2) + packw(t, i - 1, k - 2));
        assert(pow32(k - 1) == 32 * pow32(k - 2));
        assert((t[i - k + 1] * pow32(k - 2) + packw(t, i - 1, k - 2)) * 32 == t[i - k + 1] * pow32(
            k - 1,
        ) + packw(t, i - 1, k - 2) * 32) by (nonlinear_arith)
            requires
                pow32(k - 1) == 32 * pow32(k - 2),
        ;
        assert(packw(t, i, k) == packw(t, i - 1, k - 1) * 32 + t[i]);
        assert(packw(t, i, k - 1) == packw(t, i - 1, k - 2) * 32 + t[i]);
    }
}

/// The rolling update: reducing the previous window modulo `32^(k-1)` and
/// appending the next symbol yields the next window.
pub proof fn lemma_packw_roll(t: Seq<i16>, i: int, k: int)
    requires
        2 <= k,
        i - k >= 0,
        i < t.len(),
        forall|j: int| i - k < j <= i ==> 0 <= #[trigger] t[j] < 32,
    ensures
        packw(t, i, k) == (packw(t, i - 1, k) % pow32(k - 1)) * 32 + t[i],
{
    lemma_packw_split(t, i - 1, k);
    lemma_packw_bound(t, i - 1, k - 1);
    assert(pow32(k - 1) > 0) by {
        lemma_pow32_pos(k - 1);
    }
    let p = pow32(k - 1);
    let q = packw(t, i - 1, k - 1);
    assert(packw(t, i - 1, k) == t[i - k] * p + q);
    vstd::arithmetic::div_mod::lemma_mod_multiples_vanish(t[i - k] as int, q, p);
    assert((p * (t[i - k] as int) + q) % p == q % p);
    assert(t[i - k] * p == p * (t[i - k] as int)) by (nonlinear_arith);
    vstd::arithmetic::div_mod::lemma_small_mod(q as nat, p as nat);
    assert(packw(t, i - 1, k) % p == q);
    assert(packw(t, i, k) == q * 32 + t[i]);
}

/// Powers of 32 are positive.
pub proof fn lemma_pow32_pos(k: int)
    ensures
        pow32(k) >= 1,
    decreases k,
{
    if k > 0 {
        lemma_pow32_pos(k - 1);
    }
}

impl Language {
    /// The cell table of a statistic.
    pub open spec fn cells_of(&self, score_size: ScoreSize) -> Seq<i64> {
        match score_size {
            ScoreSize::Unigrams => self.unigrams@,
            ScoreSize::Bigrams => self.bigrams@,
            ScoreSize::Trigrams => self.trigrams@,
            ScoreSize::Quadgrams => self.quadgrams@,
        }
    }

    /// What `score` returns for a sequence of code points: the exact
    /// integer sum of fixed-point log-probability cells over the rolling
    /// windows of the statistic's width.
    pub open spec fn spec_score_of(&self, s: Seq<i16>, score_size: ScoreSize) -> int {
        spec_score(
            self.cells_of(score_size),
            self.alph().scoring_sub_table@,
            s,
            score_size.spec_length(),
        )
    }

    /// Calculates the unigram, bigram, trigram or quadgram score of `data`:
    /// the sum of the statistic's log-probability cells over its rolling
    /// windows, a fixed-point value scaled by
    /// [`crate::fixedlog::LOG_SCALE`]. Larger is more plausible text.
    pub fn score(&self, data: &[i16], score_size: ScoreSize) -> (r: i64)
        requires
            self.wf(),
            data@.len() <= 0x100000,
            forall|j: int| 0 <= j < data@.len() ==> 0 <= #[trigger] data@[j] < self.alph().spec_length(),
        ensures
            r == self.spec_score_of(data@, score_size),
            -0x10000000000 * data@.len() <= r <= 0,
    {
        let mut stream = ScoreStream::new(self, score_size);
        proof {
            assert(data@.subrange(0, 0) =~= Seq::<i16>::empty());
        }
        let n = data.len();
        let mut i: usize = 0;
        while i < n
            invariant
                self.wf(),
                i <= n,
                n == data@.len() <= 0x100000,
                forall|j: int|
                    0 <= j < data@.len() ==> 0 <= #[trigger] data@[j] < self.alph().spec_length(),
                stream.wf(),
                stream.lang == self,
                stream.size == score_size,
                stream.history@ == data@.subrange(0, i as int),
            decreases n - i,
        {
            proof {
                assert(data@.subrange(0, i as int + 1) =~= data@.subrange(0, i as int).push(
                    data@[i as int],
                ));
            }
            stream.push(data[i]);
            i = i + 1;
        }
        proof {
            assert(data@.subrange(0, n as int) =~= data@);
        }
        stream.value()
    }
}

/// A streaming scorer: symbols are pushed one at a time, and the running
/// value always equals the batch score of everything pushed so far. This is
/// what lets the solvers re-score candidate decryptions without
/// materializing them.
pub struct ScoreStream<'a> {
    /// The model whose statistics are used.
    pub lang: &'a Language,
    /// The statistic being scored.
    pub size: ScoreSize,
    /// The packed rolling window of the most recent symbols.
    pub win: u64,
    /// How many symbols have been pushed.
    pub count: usize,
    /// The running score.
    pub total: i64,
    /// All symbols pushed so far.
    pub history: Ghost<Seq<i16>>,
}

impl<'a> ScoreStream<'a> {
    /// The streaming invariant: the window holds the packed tail of the
    /// mapped history and the total equals the batch score sum.
    pub open spec fn wf(&self) -> bool {
        let k = self.size.spec_length();
        let t = scored_seq(self.lang.alph().scoring_sub_table@, self.history@, k);
        &&& self.lang.wf()
        &&& self.history@.len() == self.count
        &&& self.count <= 0x100000
        &&& (forall|j: int|
            0 <= j < self.history@.len() ==> 0 <= #[trigger] self.history@[j]
                < self.lang.alph().spec_length())
        &&& (self.count >= 1 ==> self.win == packw(
            t,
            self.count - 1,
            if self.count < k {
                self.count as int
            } else {
                k
            },
        ))
        &&& (self.count == 0 ==> self.win == 0)
        &&& self.win < 0x100000
        &&& self.total == score_sum(self.lang.cells_of(self.size), t, k, self.count as int)
        &&& -0x10000000000 * self.count <= self.total <= 0
    }

    /// Starts an empty stream over a model's statistic.
    pub fn new(lang: &'a Language, size: ScoreSize) -> (r: ScoreStream<'a>)
        requires
            lang.wf(),
        ensures
            r.wf(),
            r.lang == lang,
            r.size == size,
            r.history@ == Seq::<i16>::empty(),
    {
        ScoreStream { lang, size, win: 0, count: 0, total: 0, history: Ghost(Seq::empty()) }
    }

    /// Feeds the next code point; the running value keeps pace with the
    /// batch score of the whole history.
    pub fn push(&mut self, cp: i16)
        requires
            old(self).wf(),
            old(self).count < 0x100000,
            0 <= cp < old(self).lang.alph().spec_length(),
        ensures
            final(self).wf(),
            final(self).lang == old(self).lang,
            final(self).size == old(self).size,
            final(self).history@ == old(self).history@.push(cp),
    {
        let ghost old_hist = self.history@;
        let ghost k = self.size.spec_length();
        let ghost old_t = scored_seq(self.lang.alph().scoring_sub_table@, old_hist, k);
        let ghost new_hist = old_hist.push(cp);
        let ghost t = scored_seq(self.lang.alph().scoring_sub_table@, new_hist, k);
        proof {
            assert forall|j: int| 0 <= j < old_hist.len() implies t[j] == old_t[j] by {}
            assert(forall|j: int| 0 <= j < t.len() ==> 0 <= #[trigger] t[j] < 32) by {
                assert forall|j: int| 0 <= j < t.len() implies 0 <= #[trigger] t[j] < 32 by {
                    if j >= k {
                        assert(t[j] == self.lang.alph().scoring_sub_table@[new_hist[j] as int]);
                    } else {
                        assert(t[j] == new_hist[j]);
                    }
                }
            }
        }
        let klen = self.size.length();
        let table_len = self.size.mask() + 1;
        let n0 = self.count;
        if n0 + 1 < klen {
            // still building the initial raw window; no window is complete
            proof {
                if n0 >= 1 {
                    lemma_packw_extend(old_t, t, n0 as int - 1, n0 as int);
                }
                lemma_packw_bound(t, n0 as int, n0 as int + 1);
                lemma_score_sum_stable(self.lang.cells_of(self.size), old_t, t, k, n0 as int);
                lemma_pow32_le4(n0 as int + 1);
            }
            self.win = self.win * 32 + cp as u64;
            self.count = n0 + 1;
            self.history = Ghost(new_hist);
        } else if n0 + 1 == klen {
            // this raw symbol completes the first window; score it
            proof {
                if n0 >= 1 {
                    lemma_packw_extend(old_t, t, n0 as int - 1, n0 as int);
                }
                lemma_packw_bound(t, n0 as int, k);
                lemma_pow32_table(self.size);
                lemma_score_sum_stable(self.lang.cells_of(self.size), old_t, t, k, n0 as int);
            }
            self.win = self.win * 32 + cp as u64;
            let cell_idx = self.win as usize;
            let cell = match self.size {
                ScoreSize::Unigrams => self.lang.unigrams[cell_idx],
                ScoreSize::Bigrams => self.lang.bigrams[cell_idx],
                ScoreSize::Trigrams => self.lang.trigrams[cell_idx],
                ScoreSize::Quadgrams => self.lang.quadgrams[cell_idx],
            };
            self.total = self.total + cell;
            self.count = n0 + 1;
            self.history = Ghost(new_hist);
            proof {
                assert(self.win == packw(t, n0 as int, k));
                assert(score_sum(self.lang.cells_of(self.size), t, k, n0 as int + 1)
                    == score_sum(self.lang.cells_of(self.size), t, k, n0 as int) + self.lang.cells_of(
                    self.size,
                )[packw(t, n0 as int, k)]);
            }
        } else {
            // roll the window through the scoring table and score it
            let mapped = self.lang.alph_ref().scoring_sub_table[cp as usize];
            proof {
                if n0 >= 1 {
                    lemma_packw_extend(old_t, t, n0 as int - 1, if n0 < k {
                        n0 as int
                    } else {
                        k
                    });
                }
                lemma_packw_bound(t, n0 as int - 1, k);
                lemma_pow32_table(self.size);
                lemma_score_sum_stable(self.lang.cells_of(self.size), old_t, t, k, n0 as int);
                assert(0 <= mapped < 32);
                assert(t[n0 as int] == mapped);
                if k >= 2 {
                    lemma_packw_roll(t, n0 as int, k);
                }
                lemma_packw_bound(t, n0 as int, k);
            }
            self.win = (self.win % (table_len as u64 / 32)) * 32 + mapped as u64;
            let cell_idx = self.win as usize;
            let cell = match self.size {
                ScoreSize::Unigrams => self.lang.unigrams[cell_idx],
                ScoreSize::Bigrams => self.lang.bigrams[cell_idx],
                ScoreSize::Trigrams => self.lang.trigrams[cell_idx],
                ScoreSize::Quadgrams => self.lang.quadgrams[cell_idx],
            };
            self.total = self.total + cell;
            self.count = n0 + 1;
            self.history = Ghost(new_hist);
            proof {
                assert(self.win == packw(t, n0 as int, k));
                assert(score_sum(self.lang.cells_of(self.size), t, k, n0 as int + 1)
                    == score_sum(self.lang.cells_of(self.size), t, k, n0 as int) + self.lang.cells_of(
                    self.size,
                )[packw(t, n0 as int, k)]);
            }
        }
    }

    /// The score of everything pushed so far: exactly what
    /// [`Language::score`] returns for the same sequence.
    pub fn value(&self) -> (r: i64)
        requires
            self.wf(),
        ensures
            r == self.lang.spec_score_of(self.history@, self.size),
            -0x10000000000 * self.history@.len() <= r <= 0,
    {
        self.total
    }
}

/// Appending symbols beyond `j_end` does not change score sums up to
/// `j_end`, nor packed windows ending at `i < j_end`.
proof fn lemma_score_sum_stable(cells: Seq<i64>, t1: Seq<i16>, t2: Seq<i16>, k: int, j_end: int)
    requires
        t1.len() >= j_end,
        t2.len() >= j_end,
        forall|j: int| 0 <= j < j_end ==> t1[j] == #[trigger] t2[j],
    ensures
        score_sum(cells, t1, k, j_end) == score_sum(cells, t2, k, j_end),
    decreases j_end,
{
    if !(j_end <= k - 1 || k < 1) {
        lemma_score_sum_stable(cells, t1, t2, k, j_end - 1);
        lemma_packw_same(t1, t2, j_end - 1, k);
    }
}

/// Packed windows agree on sequences that agree up to their end.
proof fn lemma_packw_same(t1: Seq<i16>, t2: Seq<i16>, i: int, k: int)
    requires
        0 <= i,
        i - k >= -1,
        forall|j: int| 0 <= j <= i ==> t1[j] == #[trigger] t2[j],
    ensures
        packw(t1, i, k) == packw(t2, i, k),
    decreases k,
{
    if k > 1 {
        lemma_packw_same(t1, t2, i - 1, k - 1);
    }
}

/// A packed window over a longer sequence agreeing on a prefix equals the
/// one over the prefix.
proof fn lemma_packw_extend(t1: Seq<i16>, t2: Seq<i16>, i: int, k: int)
    requires
        0 <= i,
        i - k >= -1,
        i < t1.len(),
        forall|j: int| 0 <= j <= i ==> t1[j] == #[trigger] t2[j],
    ensures
        packw(t2, i, k) == packw(t1, i, k),
{
    lemma_packw_same(t1, t2, i, k);
}

/// Powers of 32 up to the fourth stay within the packed index space.
proof fn lemma_pow32_le4(m: int)
    requires
        0 <= m <= 4,
    ensures
        pow32(m) <= 0x100000,
{
    assert(pow32(0) == 1);
    assert(pow32(1) == 32);
    assert(pow32(2) == 1024);
    assert(pow32(3) == 32768);
    assert(pow32(4) == 1048576);
}

/// The table length of each statistic is the matching power of 32.
proof fn lemma_pow32_table(size: ScoreSize)
    ensures
        size.spec_table_len() == pow32(size.spec_length()),
        pow32(size.spec_length() - 1) == size.spec_table_len() / 32,
{
    assert(pow32(0) == 1);
    assert(pow32(1) == 32);
    assert(pow32(2) == 1024);
    assert(pow32(3) == 32768);
    assert(pow32(4) == 1048576);
}

impl Language {
    /// Creates a new language by training on a corpus: the corpus is reduced
    /// to code points with the primary alphabet (the one whose length is
    /// `alphabet_len`), 4-symbol rolling windows are counted into the four
    /// packed tables, every table is Laplace-smoothed into fixed-point log
    /// probabilities, and each alphabet variant receives its expected index
    /// of coincidence against the same corpus.
    pub fn new(name: String, alphabet_len: usize, alphabets: Vec<LangAlphabet>, corpus: String) -> (r:
        Result<Language, Error>)
        requires
            forall|i: int| 0 <= i < alphabets@.len() ==> (#[trigger] alphabets@[i]).wf(),
            corpus@.len() <= 0x100000,
        ensures
            match r {
                Ok(l) => {
                    let idx = find_alph_idx(alphabets@, alphabet_len as int).unwrap();
                    let cps = spec_string_to_cps(alphabets@[idx], corpus@);
                    let total = cps.len() - 3;
                    &&& find_alph_idx(alphabets@, alphabet_len as int) is Some
                    &&& cps.len() >= 4
                    &&& l.wf()
                    &&& l.name == name
                    &&& l.alphabet_len == alphabet_len as i16
                    &&& l.selected_alph_idx == idx
                    &&& l.total_windows == total
                    &&& l.alphabets@.len() == alphabets@.len()
                    &&& (forall|i: int|
                        0 <= i < alphabets@.len() ==> crate::alphabet::config_eq(
                            #[trigger] l.alphabets@[i],
                            alphabets@[i],
                        ))
                    &&& (forall|i: int|
                        0 <= i < alphabets@.len() ==> (#[trigger] l.alphabets@[i]).expected_ioc
                            == spec_ioc_fp(cps, alphabets@[i].spec_length()))
                    &&& (forall|w: int|
                        0 <= w < 32 ==> #[trigger] l.unigram_counts@[w] == window_count(
                            cps,
                            32,
                            w,
                            cps.len() as int,
                        ))
                    &&& (forall|w: int|
                        0 <= w < 32 ==> #[trigger] l.unigrams@[w] == crate::fixedlog::spec_cell(
                            window_count(cps, 32, w, cps.len() as int) + 1,
                            total as int,
                        ))
                    &&& (forall|w: int|
                        0 <= w < 1024 ==> #[trigger] l.bigrams@[w] == crate::fixedlog::spec_cell(
                            window_count(cps, 1024, w, cps.len() as int) + 1,
                            total as int,
                        ))
                    &&& (forall|w: int|
                        0 <= w < 32768 ==> #[trigger] l.trigrams@[w] == crate::fixedlog::spec_cell(
                            window_count(cps, 32768, w, cps.len() as int) + 1,
                            total as int,
                        ))
                    &&& (forall|w: int|
                        0 <= w < 1048576 ==> #[trigger] l.quadgrams@[w]
                            == crate::fixedlog::spec_cell(
                            window_count(cps, 1048576, w, cps.len() as int) + 1,
                            total as int,
                        ))
                    &&& l.substitution_table@ == Seq::<(char, String)>::empty()
                },
                Err(e) => match find_alph_idx(alphabets@, alphabet_len as int) {
                    Some(idx) => {
                        let cps = spec_string_to_cps(alphabets@[idx], corpus@);
                        cps.len() < 4 && Error::equivalent(
                            e,
                            Error::InsufficientCorpusLen { len: cps.len() as usize },
                        )
                    },
                    None => Error::equivalent(
                        e,
                        Error::AlphabetLenUnmatched { expected: alphabet_len },
                    ),
                },
            },
    {
        // find the primary alphabet variant
        let sel: usize = match find_len_index(&alphabets, alphabet_len) {
            Some(idx) => idx,
            None => {
                return Err(Error::AlphabetLenUnmatched { expected: alphabet_len });
            },
        };
        // reduce the corpus to code points with the primary alphabet
        let cps = str_to_cps(&alphabets[sel], &corpus);
        proof {
            lemma_cps_len(alphabets@[sel as int], corpus@);
            lemma_find_alph_idx_range(alphabets@, alphabet_len as int, 0);
            let fo = find_alph_idx(alphabets@, alphabet_len as int);
            assert(fo is Some);
            let idxg = fo.unwrap();
            assert(idxg == sel as int);
            assert(cps@ == spec_string_to_cps(alphabets@[idxg], corpus@));
        }
        if cps.len() < 4 {
            return Err(Error::InsufficientCorpusLen { len: cps.len() });
        }
        let n = cps.len();
        let total: u64 = (n - 3) as u64;
        // count all four window widths in one rolling pass
        let mut uni_c: Vec<u64> = zero_table(32);
        let mut big_c: Vec<u64> = zero_table(1024);
        let mut tri_c: Vec<u64> = zero_table(32768);
        let mut quad_c: Vec<u64> = zero_table(1048576);
        let mut idx3: u64 = ((cps[0] as u64 * 32 + cps[1] as u64) * 32 + cps[2] as u64);
        let mut i: usize = 3;
        proof {
            assert(packw(cps@, 0, 1) == cps@[0]);
            assert(packw(cps@, 1, 2) == packw(cps@, 0, 1) * 32 + cps@[1]);
            assert(packw(cps@, 2, 3) == packw(cps@, 1, 2) * 32 + cps@[2]);
            assert(idx3 == packw(cps@, 2, 3));
            lemma_packw_bound(cps@, 2, 3);
            assert(pow32(3) == 32768) by {
                assert(pow32(0) == 1);
                assert(pow32(1) == 32);
                assert(pow32(2) == 1024);
            }
        }
        while i < n
            invariant
                3 <= i <= n,
                n == cps@.len() <= 0x100000,
                forall|j: int| 0 <= j < cps@.len() ==> 0 <= #[trigger] cps@[j] < 32,
                idx3 == packw(cps@, i as int - 1, 3),
                idx3 < 32768,
                uni_c.len() == 32,
                big_c.len() == 1024,
                tri_c.len() == 32768,
                quad_c.len() == 1048576,
                forall|w: int| 0 <= w < 32 ==> #[trigger] uni_c@[w] == window_count(
                    cps@,
                    32,
                    w,
                    i as int,
                ),
                forall|w: int| 0 <= w < 1024 ==> #[trigger] big_c@[w] == window_count(
                    cps@,
                    1024,
                    w,
                    i as int,
                ),
                forall|w: int| 0 <= w < 32768 ==> #[trigger] tri_c@[w] == window_count(
                    cps@,
                    32768,
                    w,
                    i as int,
                ),
                forall|w: int| 0 <= w < 1048576 ==> #[trigger] quad_c@[w] == window_count(
                    cps@,
                    1048576,
                    w,
                    i as int,
                ),
                forall|w: int| 0 <= w < 32 ==> #[trigger] uni_c@[w] <= i,
                forall|w: int| 0 <= w < 1024 ==> #[trigger] big_c@[w] <= i,
                forall|w: int| 0 <= w < 32768 ==> #[trigger] tri_c@[w] <= i,
                forall|w: int| 0 <= w < 1048576 ==> #[trigger] quad_c@[w] <= i,
            decreases n - i,
        {
            let idx4 = idx3 * 32 + cps[i] as u64;
            proof {
                assert(idx4 == packw(cps@, i as int, 4));
                lemma_packw_bound(cps@, i as int, 4);
                assert(pow32(4) == 1048576) by {
                    assert(pow32(0) == 1);
                    assert(pow32(1) == 32);
                    assert(pow32(2) == 1024);
                    assert(pow32(3) == 32768);
                }
                lemma_mod_fits(idx4 as int, 32);
                lemma_mod_fits(idx4 as int, 1024);
                lemma_mod_fits(idx4 as int, 32768);
                lemma_mod_fits(idx4 as int, 1048576);
                vstd::arithmetic::div_mod::lemma_small_mod(idx4 as nat, 1048576);
            }
            let w1 = (idx4 % 32) as usize;
            let w2 = (idx4 % 1024) as usize;
            let w3 = (idx4 % 32768) as usize;
            let w4 = idx4 as usize;
            let c1 = uni_c[w1];
            uni_c.set(w1, c1 + 1);
            let c2 = big_c[w2];
            big_c.set(w2, c2 + 1);
            let c3 = tri_c[w3];
            tri_c.set(w3, c3 + 1);
            let c4 = quad_c[w4];
            quad_c.set(w4, c4 + 1);
            // roll the 3-symbol prefix window forward
            idx3 = (idx3 % 1024) * 32 + cps[i] as u64;
            proof {
                assert(pow32(0) == 1);
                assert(pow32(1) == 32);
                assert(pow32(2) == 1024);
                lemma_packw_roll(cps@, i as int, 3);
            }
            i = i + 1;
        }
        // Laplace smoothing: each count becomes a fixed-point log probability
        let unigrams = smooth_table(&uni_c, total, Ghost(cps@), Ghost(32int));
        let bigrams = smooth_table(&big_c, total, Ghost(cps@), Ghost(1024int));
        let trigrams = smooth_table(&tri_c, total, Ghost(cps@), Ghost(32768int));
        let quadgrams = smooth_table(&quad_c, total, Ghost(cps@), Ghost(1048576int));
        // expected index of coincidence for every variant
        let mut rem = alphabets;
        let mut new_alphs: Vec<LangAlphabet> = Vec::new();
        let ghost orig_alphs = rem@;
        while rem.len() > 0
            invariant
                new_alphs.len() + rem.len() == orig_alphs.len(),
                rem@ == orig_alphs.subrange(new_alphs.len() as int, orig_alphs.len() as int),
                forall|p: int| 0 <= p < orig_alphs.len() ==> (#[trigger] orig_alphs[p]).wf(),
                4 <= cps@.len() <= 0x100000,
                forall|j: int| 0 <= j < cps@.len() ==> 0 <= #[trigger] cps@[j] < 32,
                forall|p: int|
                    0 <= p < new_alphs.len() ==> crate::alphabet::config_eq(
                        #[trigger] new_alphs@[p],
                        orig_alphs[p],
                    ) && new_alphs@[p].wf() && new_alphs@[p].expected_ioc == spec_ioc_fp(
                        cps@,
                        orig_alphs[p].spec_length(),
                    ),
            decreases rem.len(),
        {
            let a = rem.remove(0);
            proof {
                assert(a == orig_alphs[new_alphs.len() as int]);
                assert(rem@ =~= orig_alphs.subrange(
                    new_alphs.len() as int + 1,
                    orig_alphs.len() as int,
                ));
            }
            let alen = a.length();
            let ioc = if alen >= 1 && alen <= 32 {
                ioc_fp_for(cps.as_slice(), alen)
            } else {
                0
            };
            proof {
                if !(1 <= alen <= 32) {
                    assert(a.spec_length() == 0 || a.spec_length() > 32);
                    assert(a.len_in_bounds());
                    assert(a.spec_length() == 0);
                    lemma_ioc_numer_zero(cps@);
                }
            }
            let updated = LangAlphabet { expected_ioc: ioc, ..a };
            new_alphs.push(updated);
        }
        let result = Language {
            name,
            alphabet_len: alphabet_len as i16,
            unigrams,
            bigrams,
            trigrams,
            quadgrams,
            unigram_counts: uni_c,
            total_windows: total,
            alphabets: new_alphs,
            substitution_table: Vec::new(),
            selected_alph_idx: sel,
        };
        proof {
            assert(result.alph().spec_length() == alphabet_len as int) by {
                assert(crate::alphabet::config_eq(
                    result.alphabets@[sel as int],
                    orig_alphs[sel as int],
                ));
            }
        }
        Ok(result)
    }
}

/// Finds the first alphabet of the given length in a list.
fn find_len_index(alphabets: &Vec<LangAlphabet>, len: usize) -> (r: Option<usize>)
    ensures
        match r {
            Some(i) => i < alphabets@.len() && find_alph_idx(alphabets@, len as int) == Some(
                i as int,
            ) && alphabets@[i as int].spec_length() == len as int,
            None => find_alph_idx(alphabets@, len as int) is None,
        },
{
    let n = alphabets.len();
    let mut i: usize = 0;
    while i < n
        invariant
            i <= n,
            n == alphabets@.len(),
            forall|p: int| 0 <= p < i ==> (#[trigger] alphabets@[p]).spec_length() != len as int,
            find_alph_idx(alphabets@, len as int) == find_alph_idx_from(
                alphabets@,
                len as int,
                i as int,
            ),
        decreases n - i,
    {
        if alphabets[i].length() == len {
            return Some(i);
        }
        i = i + 1;
    }
    None
}

/// A fresh table of zeroed counters.
fn zero_table(len: usize) -> (r: Vec<u64>)
    ensures
        r.len() == len,
        forall|w: int| 0 <= w < len ==> #[trigger] r@[w] == 0,
{
    let mut t: Vec<u64> = Vec::new();
    let mut k: usize = 0;
    while k < len
        invariant
            k <= len,
            t.len() == k,
            forall|w: int| 0 <= w < k ==> #[trigger] t@[w] == 0,
        decreases len - k,
    {
        t.push(0);
        k = k + 1;
    }
    t
}

/// Smooths a count table into fixed-point log-probability cells:
/// `ln((count + 1) / total) * LOG_SCALE` for every entry.
fn smooth_table(counts: &Vec<u64>, total: u64, Ghost(cps): Ghost<Seq<i16>>, Ghost(m): Ghost<int>) -> (r:
    Vec<i64>)
    requires
        total >= 1,
        counts.len() >= 1,
        forall|w: int| 0 <= w < counts.len() ==> #[trigger] counts@[w] == window_count(
            cps,
            m,
            w,
            cps.len() as int,
        ),
        forall|w: int| 0 <= w < counts.len() ==> #[trigger] counts@[w] <= 0x100000,
    ensures
        r.len() == counts.len(),
        forall|w: int| 0 <= w < r.len() ==> #[trigger] r@[w] == crate::fixedlog::spec_cell(
            window_count(cps, m, w, cps.len() as int) + 1,
            total as int,
        ),
        cells_bounded(r@),
{
    let n = counts.len();
    let mut cells: Vec<i64> = Vec::new();
    let mut w: usize = 0;
    while w < n
        invariant
            w <= n,
            n == counts.len(),
            total >= 1,
            cells.len() == w,
            forall|p: int| 0 <= p < counts.len() ==> #[trigger] counts@[p] == window_count(
                cps,
                m,
                p,
                cps.len() as int,
            ),
            forall|p: int| 0 <= p < counts.len() ==> #[trigger] counts@[p] <= 0x100000,
            forall|p: int| 0 <= p < w ==> #[trigger] cells@[p] == crate::fixedlog::spec_cell(
                window_count(cps, m, p, cps.len() as int) + 1,
                total as int,
            ),
            forall|p: int| 0 <= p < w ==> -0x10000000000 < #[trigger] cells@[p] <= 0,
        decreases n - w,
    {
        let cell = crate::fixedlog::log_prob_cell(counts[w] + 1, total);
        cells.push(cell);
        w = w + 1;
    }
    cells
}

/// A window count over any modulus is bounded by the position range.
proof fn lemma_window_count_le(s: Seq<i16>, m: int, w: int, j_end: int)
    ensures
        0 <= window_count(s, m, w, j_end) <= (if j_end >= 3 {
            j_end - 3
        } else {
            0
        }),
    decreases j_end,
{
    if j_end > 3 {
        lemma_window_count_le(s, m, w, j_end - 1);
    }
}

/// A non-negative value below the modulus is its own remainder, and any
/// remainder lies below the modulus.
proof fn lemma_mod_fits(x: int, m: int)
    requires
        x >= 0,
        m >= 1,
    ensures
        0 <= x % m < m,
{
    vstd::arithmetic::div_mod::lemma_mod_division_less_than_divisor(x, m);
}

/// The IOC over an empty alphabet is zero.
proof fn lemma_ioc_numer_zero(s: Seq<i16>)
    requires
        s.len() >= 2,
    ensures
        spec_ioc_fp(s, 0) == 0,
{
    assert(ioc_numer(s, 0) == 0);
    let n = s.len() as int;
    let denom = (s.len() * (s.len() - 1)) as int;
    assert(denom >= 2) by (nonlinear_arith)
        requires
            n >= 2,
            denom == n * (n - 1),
    ;
    vstd::arithmetic::div_mod::lemma_div_of0(denom);
}

/// The length of a string's code points never exceeds the string's length.
proof fn lemma_cps_len(alph: LangAlphabet, s: Seq<char>)
    ensures
        spec_string_to_cps(alph, s).len() <= s.len(),
    decreases s.len(),
{
    if s.len() > 0 {
        lemma_cps_len(alph, s.drop_last());
    }
}

/// Re-threads transformed code points back onto the original text: each
/// letter takes the next code point, keeping its case, and every other
/// character passes through. Letters beyond the supply of code points are
/// dropped.
pub open spec fn spec_rethread(lang: Language, s: Seq<char>, cps: Seq<i16>) -> Seq<char>
    decreases s.len(),
{
    if s.len() == 0 {
        Seq::empty()
    } else {
        let pre = spec_rethread(lang, s.drop_last(), cps);
        let c = s.last();
        match lang.alph().spec_cp_of(c) {
            Some(_) => {
                let li = spec_string_to_cps(lang.alph(), s.drop_last()).len() as int;
                if li < cps.len() {
                    pre.push(lang.spec_update_cp(c, cps[li]))
                } else {
                    pre
                }
            },
            None => pre.push(c),
        }
    }
}

impl Language {
    /// Walks the message again, replacing its letters in order with the
    /// given code points and leaving everything else untouched.
    pub fn rethread(&self, msg: &str, cps: &[i16]) -> (r: String)
        requires
            self.wf(),
            forall|j: int| 0 <= j < cps@.len() ==> 0 <= #[trigger] cps@[j] < self.alph().spec_length(),
        ensures
            r@ == spec_rethread(*self, msg@, cps@),
    {
        let n = msg.unicode_len();
        let mut result = String::new();
        let mut letters: usize = 0;
        let mut i: usize = 0;
        proof {
            assert(msg@.subrange(0, 0) =~= Seq::<char>::empty());
        }
        while i < n
            invariant
                self.wf(),
                i <= n,
                n == msg@.len(),
                forall|j: int|
                    0 <= j < cps@.len() ==> 0 <= #[trigger] cps@[j] < self.alph().spec_length(),
                letters == spec_string_to_cps(self.alph(), msg@.subrange(0, i as int)).len(),
                letters <= i,
                result@ == spec_rethread(*self, msg@.subrange(0, i as int), cps@),
            decreases n - i,
        {
            let c = msg.get_char(i);
            proof {
                assert(msg@.subrange(0, i as int + 1).drop_last() =~= msg@.subrange(0, i as int));
                assert(msg@.subrange(0, i as int + 1).last() == msg@[i as int]);
            }
            if self.is_letter(&c) {
                if letters < cps.len() {
                    let nc = self.update_cp(&c, cps[letters]);
                    result.push(nc);
                }
                letters = letters + 1;
            } else {
                result.push(c);
            }
            i = i + 1;
        }
        proof {
            assert(msg@.subrange(0, n as int) =~= msg@);
        }
        result
    }
}

/// Converts a string to code points under one alphabet: non-letters are
/// dropped, letters map through the alias-resolving lookup.
pub fn str_to_cps(alph: &LangAlphabet, string: &str) -> (r: Vec<i16>)
    requires
        alph.wf(),
    ensures
        r@ == spec_string_to_cps(*alph, string@),
        r@.len() <= string@.len(),
        forall|i: int| 0 <= i < r@.len() ==> 0 <= #[trigger] r@[i] < alph.spec_length(),
{
    let n = string.unicode_len();
    let mut result: Vec<i16> = Vec::new();
    let mut i: usize = 0;
    proof {
        assert(string@.subrange(0, 0) =~= Seq::<char>::empty());
    }
    while i < n
        invariant
            alph.wf(),
            i <= n,
            n == string@.len(),
            result@ == spec_string_to_cps(*alph, string@.subrange(0, i as int)),
            result@.len() <= i,
            forall|p: int| 0 <= p < result@.len() ==> 0 <= #[trigger] result@[p] < alph.spec_length(),
        decreases n - i,
    {
        let c = string.get_char(i);
        proof {
            assert(string@.subrange(0, i as int + 1).drop_last() =~= string@.subrange(0, i as int));
            assert(string@.subrange(0, i as int + 1).last() == string@[i as int]);
            crate::alphabet::lemma_char_map_values_bounded(*alph, c);
        }
        match alph.cp_of(c) {
            Some(cp) => {
                result.push(cp);
            },
            None => {},
        }
        i = i + 1;
    }
    proof {
        assert(string@.subrange(0, n as int) =~= string@);
    }
    result
}

/// The numerator of the index of coincidence: the sum over the first
/// `v_end` symbol values of `f * (f - 1)`, where `f` counts that value in
/// `s`.
pub open spec fn ioc_numer(s: Seq<i16>, v_end: int) -> int
    decreases v_end,
{
    if v_end <= 0 {
        0
    } else {
        let f = count_occ(s, v_end - 1, s.len() as int);
        ioc_numer(s, v_end - 1) + f * (f - 1)
    }
}

/// The index of coincidence of `s` over an alphabet of `len` symbols, as a
/// fixed-point value scaled by [`STAT_SCALE`]:
/// `sum f(f-1) / (n(n-1))` over per-symbol counts `f`.
pub open spec fn spec_ioc_fp(s: Seq<i16>, len: int) -> int
    recommends
        s.len() >= 2,
{
    (ioc_numer(s, len) * 1000000) / ((s.len() * (s.len() - 1)) as int)
}

/// The interleaved subsequence of `s` starting at `i0` and stepping by `p`.
pub open spec fn col_seq(s: Seq<i16>, i0: int, p: int) -> Seq<i16>
    recommends
        p >= 1,
        i0 >= 0,
    decreases s.len() + p - i0 when i0 >= 0 && p >= 1
{
    if i0 >= s.len() {
        Seq::empty()
    } else {
        seq![s[i0]] + col_seq(s, i0 + p, p)
    }
}

/// The sum of the fixed-point indices of coincidence of the first `cols`
/// interleaved subsequences of period `p`.
pub open spec fn pioc_sum(s: Seq<i16>, len: int, p: int, cols: int) -> int
    decreases cols,
{
    if cols <= 0 {
        0
    } else {
        pioc_sum(s, len, p, cols - 1) + spec_ioc_fp(col_seq(s, cols - 1, p), len)
    }
}

impl Language {
    /// Calculates the index of coincidence of a slice of code points under
    /// the currently selected alphabet, scaled by [`STAT_SCALE`].
    pub fn index_of_coincedence(&self, data: &[i16]) -> (r: u64)
        requires
            self.wf(),
            2 <= data@.len() <= 0x100000,
            forall|j: int| 0 <= j < data@.len() ==> 0 <= #[trigger] data@[j] < 32,
        ensures
            r == spec_ioc_fp(data@, self.alph().spec_length()),
            r <= 32000000,
    {
        let len = self.alphabet_len();
        ioc_fp_for(data, len)
    }

    /// Calculates the index of coincidence of a slice given a cipher
    /// period, by averaging the fixed-point IOC over the `period`
    /// interleaved columns.
    pub fn periodic_ioc(&self, data: &[i16], period_length: usize) -> (r: u64)
        requires
            self.wf(),
            1 <= period_length,
            2 * period_length <= data@.len() <= 0x100000,
            forall|j: int| 0 <= j < data@.len() ==> 0 <= #[trigger] data@[j] < 32,
        ensures
            r == pioc_sum(data@, self.alph().spec_length(), period_length as int, period_length as int)
                / (period_length as int),
    {
        let mut total: u64 = 0;
        let mut i: usize = 0;
        let n = data.len();
        while i < period_length
            invariant
                self.wf(),
                i <= period_length,
                1 <= period_length,
                2 * period_length <= n == data@.len() <= 0x100000,
                forall|j: int| 0 <= j < data@.len() ==> 0 <= #[trigger] data@[j] < 32,
                total == pioc_sum(
                    data@,
                    self.alph().spec_length(),
                    period_length as int,
                    i as int,
                ),
                total <= 32000000 * i,
            decreases period_length - i,
        {
            let mut temp: Vec<i16> = Vec::new();
            let mut j: usize = i;
            proof {
                assert(temp@ + col_seq(data@, i as int, period_length as int) =~= col_seq(
                    data@,
                    i as int,
                    period_length as int,
                ));
            }
            while j < n
                invariant
                    i < period_length <= n == data@.len() <= 0x100000,
                    i <= j,
                    forall|q: int| 0 <= q < data@.len() ==> 0 <= #[trigger] data@[q] < 32,
                    temp@ + col_seq(data@, j as int, period_length as int) == col_seq(
                        data@,
                        i as int,
                        period_length as int,
                    ),
                    forall|q: int| 0 <= q < temp@.len() ==> 0 <= #[trigger] temp@[q] < 32,
                    temp@.len() <= j,
                decreases n + period_length - j,
            {
                let ghost pre = temp@;
                temp.push(data[j]);
                proof {
                    assert(pre + col_seq(data@, j as int, period_length as int) =~= pre + (seq![
                        data@[j as int],
                    ] + col_seq(data@, j as int + period_length as int, period_length as int)));
                    assert(pre + (seq![data@[j as int]] + col_seq(
                        data@,
                        j as int + period_length as int,
                        period_length as int,
                    )) =~= temp@ + col_seq(
                        data@,
                        j as int + period_length as int,
                        period_length as int,
                    ));
                }
                j = j + period_length;
            }
            proof {
                assert(col_seq(data@, j as int, period_length as int) =~= Seq::<i16>::empty());
                assert(temp@ + Seq::<i16>::empty() =~= temp@);
                assert(temp@ == col_seq(data@, i as int, period_length as int));
                lemma_col_seq_two(data@, i as int, period_length as int);
            }
            let col_ioc = self.index_of_coincedence(temp.as_slice());
            proof {
                lemma_ioc_fp_bound(temp@, self.alph().spec_length());
            }
            total = total + col_ioc;
            i = i + 1;
        }
        total / period_length as u64
    }
}

/// The fixed-point index of coincidence of `data` counted over an alphabet
/// of `len` symbols.
pub fn ioc_fp_for(data: &[i16], len: usize) -> (r: u64)
    requires
        1 <= len <= 32,
        2 <= data@.len() <= 0x100000,
        forall|j: int| 0 <= j < data@.len() ==> 0 <= #[trigger] data@[j] < 32,
    ensures
        r == spec_ioc_fp(data@, len as int),
        r <= 32000000,
{
    let n = data.len();
    let counts = count_table(data);
    let mut total: u64 = 0;
    let mut v: usize = 0;
    while v < len
        invariant
            v <= len <= 32,
            counts.len() == 32,
            n == data@.len() <= 0x100000,
            2 <= n,
            forall|w: int| 0 <= w < 32 ==> #[trigger] counts@[w] == count_occ(
                data@,
                w,
                data@.len() as int,
            ),
            total == ioc_numer(data@, v as int),
            total <= 0x10000000000 * v,
        decreases len - v,
    {
        let f = counts[v];
        proof {
            lemma_count_occ_le(data@, v as int, data@.len() as int);
            assert(f * (f - 1) < 0x10000000000) by (nonlinear_arith)
                requires
                    0 <= f <= 0x100000,
            ;
        }
        let add = if f > 0 {
            f * (f - 1)
        } else {
            0
        };
        proof {
            let fs = count_occ(data@, v as int, data@.len() as int);
            assert(f == fs);
            assert(add as int == fs * (fs - 1)) by (nonlinear_arith)
                requires
                    f == fs,
                    f == 0 ==> add == 0,
                    f > 0 ==> add == f * (f - 1),
            ;
        }
        total = total + add;
        proof {
            assert(total == ioc_numer(data@, v as int + 1));
        }
        v = v + 1;
    }
    proof {
        assert((n as u64) * (n as u64 - 1) <= 0x100000 * 0x100000) by (nonlinear_arith)
            requires
                2 <= n <= 0x100000,
        ;
    }
    let denom = (n as u64) * (n as u64 - 1);
    proof {
        assert(denom >= 2) by (nonlinear_arith)
            requires
                2 <= n,
                denom == (n as int) * (n as int - 1),
        ;
    }
    let wide = (total as u128) * 1000000;
    let q = wide / (denom as u128);
    proof {
        let numer = ioc_numer(data@, len as int);
        lemma_ioc_numer_bound(data@, len as int);
        let nn = data@.len() as int;
        assert(denom == nn * (nn - 1));
        assert(numer * 1000000 >= 0) by (nonlinear_arith)
            requires
                numer >= 0,
        ;
        vstd::arithmetic::div_mod::lemma_div_pos_is_pos(numer * 1000000, denom as int);
        assert(numer <= 32 * denom) by (nonlinear_arith)
            requires
                0 <= numer <= (len as int) * (denom as int),
                0 <= len as int <= 32,
                denom >= 2,
        ;
        assert(numer * 1000000 <= (denom as int) * 32000000) by (nonlinear_arith)
            requires
                0 <= numer <= 32 * (denom as int),
        ;
        vstd::arithmetic::div_mod::lemma_div_is_ordered(
            numer * 1000000,
            (denom as int) * 32000000,
            denom as int,
        );
        vstd::arithmetic::div_mod::lemma_div_multiples_vanish(32000000, denom as int);
    }
    q as u64
}

/// One fixed-point chi-squared term: the squared difference between the
/// observed count and the expected one, over the expected one, computed as
/// an exact integer in two division steps and scaled by [`STAT_SCALE`].
/// With `d = obs*total - (count+1)*n` the term is
/// `(d*d / den) * STAT_SCALE + ((d*d % den) * STAT_SCALE) / den`
/// for `den = (count+1) * n * total`.
pub open spec fn chi_term_fp(obs: int, cnt: int, n: int, total: int) -> int {
    let d = obs * total - (cnt + 1) * n;
    let d2 = d * d;
    let den = (cnt + 1) * n * total;
    (d2 / den) * 1000000 + ((d2 % den) * 1000000) / den
}

/// The chi-squared sum over the first `v_end` code points, each read
/// through the scoring substitution table.
pub open spec fn chi_sum_fp(
    s: Seq<i16>,
    table: Seq<i16>,
    cnts: Seq<u64>,
    total: int,
    v_end: int,
) -> int
    decreases v_end,
{
    if v_end <= 0 {
        0
    } else {
        let i = table[v_end - 1] as int;
        chi_sum_fp(s, table, cnts, total, v_end - 1) + chi_term_fp(
            count_occ(s, i, s.len() as int),
            cnts[i] as int,
            s.len() as int,
            total,
        )
    }
}

impl Language {
    /// Calculates the chi-squared value of a slice of code points against
    /// the trained unigram distribution, indexed through the active
    /// alphabet's canonical mapping, as a fixed-point value scaled by
    /// [`STAT_SCALE`].
    pub fn chi_squared(&self, data: &[i16]) -> (r: u128)
        requires
            self.wf(),
            self.total_windows >= 1,
            forall|w: int| 0 <= w < 32 ==> #[trigger] self.unigram_counts@[w] <= self.total_windows,
            1 <= data@.len() <= 0x100000,
            forall|j: int| 0 <= j < data@.len() ==> 0 <= #[trigger] data@[j] < 32,
        ensures
            r == chi_sum_fp(
                data@,
                self.alph().scoring_sub_table@,
                self.unigram_counts@,
                self.total_windows as int,
                self.alph().spec_length(),
            ),
    {
        let len = self.alphabet_len();
        let n = data.len() as u64;
        let total = self.total_windows;
        let counts = count_table(data);
        let mut acc: u128 = 0;
        let mut cp: usize = 0;
        while cp < len
            invariant
                self.wf(),
                self.total_windows == total >= 1,
                cp <= len == self.alph().spec_length() <= 32,
                1 <= n == data@.len() <= 0x100000,
                total < 0x10000000000,
                counts.len() == 32,
                forall|w: int| 0 <= w < 32 ==> #[trigger] counts@[w] == count_occ(
                    data@,
                    w,
                    data@.len() as int,
                ),
                forall|w: int|
                    0 <= w < 32 ==> #[trigger] self.unigram_counts@[w] <= self.total_windows,
                acc == chi_sum_fp(
                    data@,
                    self.alph().scoring_sub_table@,
                    self.unigram_counts@,
                    total as int,
                    cp as int,
                ),
                acc <= cp * 0x10000000000000000000000,
            decreases len - cp,
        {
            let i = self.alph_ref().scoring_sub_table[cp];
            let obs = counts[i as usize];
            let cnt = self.unigram_counts[i as usize];
            proof {
                lemma_count_occ_le(data@, i as int, data@.len() as int);
            }
            let term = chi_term(obs, cnt, n, total);
            acc = acc + term;
            cp = cp + 1;
        }
        acc
    }
}

/// Computes one fixed-point chi-squared term.
fn chi_term(obs: u64, cnt: u64, n: u64, total: u64) -> (r: u128)
    requires
        1 <= n <= 0x100000,
        1 <= total < 0x10000000000,
        obs <= n,
        cnt <= total,
    ensures
        r == chi_term_fp(obs as int, cnt as int, n as int, total as int),
        r <= 0x10000000000000000000000,
{
    let ow = obs as i128;
    let tw = total as i128;
    let cw = cnt as i128 + 1;
    let nw = n as i128;
    proof {
        lemma_chi_bounds(obs as int, cnt as int, n as int, total as int);
        assert(0 <= ow * tw <= 0x10000000000000000) by (nonlinear_arith)
            requires
                0 <= ow <= 0x100000,
                0 <= tw < 0x10000000000,
        ;
        assert(0 < cw * nw <= 0x100000000000000000) by (nonlinear_arith)
            requires
                1 <= cw <= 0x10000000000,
                1 <= nw <= 0x100000,
        ;
    }
    let d = ow * tw - cw * nw;
    proof {
        assert((d as int) * (d as int) <= 0x2000000000000000 * 0x2000000000000000)
            by (nonlinear_arith)
            requires
                -0x2000000000000000 <= (d as int) <= 0x2000000000000000,
        ;
        assert(0 <= (d as int) * (d as int)) by (nonlinear_arith);
    }
    let d2 = (d * d) as u128;
    let den = (cw * nw) as u128 * total as u128;
    let q = d2 / den;
    let rem = d2 % den;
    proof {
        let dd = (obs as int) * (total as int) - ((cnt as int) + 1) * (n as int);
        let dens = ((cnt as int) + 1) * (n as int) * (total as int);
        assert(den == dens) by (nonlinear_arith)
            requires
                den as int == ((cnt as int + 1) * (n as int)) * (total as int),
                dens == ((cnt as int) + 1) * (n as int) * (total as int),
        ;
        assert(d2 == dd * dd);
        vstd::arithmetic::div_mod::lemma_mod_division_less_than_divisor(dd * dd, dens);
        assert(q as int <= 9 * (n as int) * (total as int));
        assert(9 * (n as int) * (total as int) <= 9 * 0x100000 * 0x10000000000)
            by (nonlinear_arith)
            requires
                1 <= n <= 0x100000,
                1 <= total < 0x10000000000,
        ;
        assert(q * 1000000 <= 9 * 0x100000 * 0x10000000000 * 1000000) by (nonlinear_arith)
            requires
                0 <= (q as int) <= 9 * 0x100000 * 0x10000000000,
        ;
        assert(rem < den);
        assert(rem * 1000000 < 0x10000000000000000000000000 * 1000000) by (nonlinear_arith)
            requires
                0 <= (rem as int) < 0x10000000000000000000000000,
        ;
        assert((rem as int) * 1000000 < (den as int) * 1000000) by (nonlinear_arith)
            requires
                0 <= (rem as int) < den as int,
        ;
        vstd::arithmetic::div_mod::lemma_div_pos_is_pos((rem as int) * 1000000, den as int);
        vstd::arithmetic::div_mod::lemma_multiply_divide_lt(
            (rem as int) * 1000000,
            den as int,
            1000000,
        );
    }
    q * 1000000 + (rem * 1000000) / den
}

/// The arithmetic bounds behind a chi-squared term: the squared difference
/// stays below nine corpus-sized multiples of the denominator, so the
/// two-step division never overflows.
proof fn lemma_chi_bounds(obs: int, cnt: int, n: int, total: int)
    requires
        1 <= n <= 0x100000,
        1 <= total < 0x10000000000,
        0 <= obs <= n,
        0 <= cnt <= total,
    ensures
        ({
            let d = obs * total - (cnt + 1) * n;
            let den = (cnt + 1) * n * total;
            &&& den >= 1
            &&& d * d <= den * (9 * n * total)
            &&& (d * d) / den <= 9 * n * total
            &&& den < 0x10000000000000000000000000
            &&& -0x2000000000000000 <= d <= 0x2000000000000000
            &&& 0 <= d * d
        }),
{
    let c1 = cnt + 1;
    let d = obs * total - c1 * n;
    let den = c1 * n * total;
    assert(den >= 1) by (nonlinear_arith)
        requires
            den == c1 * n * total,
            c1 >= 1,
            n >= 1,
            total >= 1,
    ;
    assert(0 <= obs * total <= n * total) by (nonlinear_arith)
        requires
            0 <= obs <= n,
            total >= 1,
    ;
    assert(1 <= c1 * n <= (total + 1) * n) by (nonlinear_arith)
        requires
            1 <= c1 <= total + 1,
            n >= 1,
    ;
    assert(-(c1 * n) <= d <= n * total) by (nonlinear_arith)
        requires
            0 <= obs * total <= n * total,
            c1 * n >= 1,
            d == obs * total - c1 * n,
    ;
    assert(d * d <= (n * (total + c1)) * (n * (total + c1))) by (nonlinear_arith)
        requires
            -(c1 * n) <= d <= n * total,
            n >= 1,
            c1 >= 1,
            total >= 1,
    ;
    assert(0 <= d * d) by (nonlinear_arith);
    if c1 >= 2 {
        assert((n * (total + c1)) * (n * (total + c1)) <= den * (9 * n * total))
            by (nonlinear_arith)
            requires
                den == c1 * n * total,
                c1 >= 2,
                n >= 1,
                total >= 1,
                c1 <= total + 1,
        ;
    } else {
        assert((n * (total + c1)) * (n * (total + c1)) <= den * (9 * n * total))
            by (nonlinear_arith)
            requires
                den == c1 * n * total,
                c1 == 1,
                n >= 1,
                total >= 1,
        ;
    }
    assert((d * d) / den <= 9 * n * total) by {
        vstd::arithmetic::div_mod::lemma_multiply_divide_le(d * d, den, 9 * n * total);
    }
    assert(c1 * n <= 0x10000000000 * 0x100000) by (nonlinear_arith)
        requires
            1 <= c1 <= 0x10000000000,
            1 <= n <= 0x100000,
    ;
    assert(den < 0x10000000000000000000000000) by (nonlinear_arith)
        requires
            den == (c1 * n) * total,
            1 <= c1 * n <= 0x10000000000 * 0x100000,
            1 <= total < 0x10000000000,
    ;
    assert(-0x2000000000000000 <= d <= 0x2000000000000000) by (nonlinear_arith)
        requires
            -(c1 * n) <= d <= n * total,
            1 <= c1 * n <= (total + 1) * n,
            1 <= n <= 0x100000,
            1 <= total < 0x10000000000,
    ;
}

/// Counts each symbol value of `data` into a 32-entry table.
fn count_table(data: &[i16]) -> (r: Vec<u64>)
    requires
        data@.len() <= 0x100000,
        forall|j: int| 0 <= j < data@.len() ==> 0 <= #[trigger] data@[j] < 32,
    ensures
        r.len() == 32,
        forall|w: int| 0 <= w < 32 ==> #[trigger] r@[w] == count_occ(data@, w, data@.len() as int),
{
    let mut counts: Vec<u64> = Vec::new();
    let mut k: usize = 0;
    while k < 32
        invariant
            k <= 32,
            counts.len() == k,
            forall|w: int| 0 <= w < k ==> #[trigger] counts@[w] == 0,
        decreases 32 - k,
    {
        counts.push(0);
        k = k + 1;
    }
    let n = data.len();
    let mut i: usize = 0;
    while i < n
        invariant
            i <= n,
            n == data@.len() <= 0x100000,
            counts.len() == 32,
            forall|j: int| 0 <= j < data@.len() ==> 0 <= #[trigger] data@[j] < 32,
            forall|w: int| 0 <= w < 32 ==> #[trigger] counts@[w] == count_occ(data@, w, i as int),
            forall|w: int| 0 <= w < 32 ==> #[trigger] counts@[w] <= i,
        decreases n - i,
    {
        let cp = data[i] as usize;
        let c = counts[cp];
        counts.set(cp, c + 1);
        i = i + 1;
    }
    counts
}

/// A symbol count never exceeds the sequence length.
proof fn lemma_count_occ_le(s: Seq<i16>, v: int, j_end: int)
    requires
        j_end <= s.len(),
    ensures
        0 <= count_occ(s, v, j_end) <= if j_end >= 0 {
            j_end
        } else {
            0
        },
    decreases j_end,
{
    if j_end > 0 {
        lemma_count_occ_le(s, v, j_end - 1);
    }
}

/// The fixed-point IOC is non-negative and at most 32 times the scale.
proof fn lemma_ioc_fp_bound(s: Seq<i16>, len: int)
    requires
        2 <= s.len() <= 0x100000,
        0 <= len <= 32,
    ensures
        0 <= spec_ioc_fp(s, len) <= 32000000,
{
    lemma_ioc_numer_bound(s, len);
    let numer = ioc_numer(s, len);
    let n = s.len() as int;
    let denom = (s.len() * (s.len() - 1)) as int;
    assert(denom == n * (n - 1));
    assert(n * (n - 1) >= 2) by (nonlinear_arith)
        requires
            n >= 2,
    ;
    assert(numer * 1000000 >= 0) by (nonlinear_arith)
        requires
            numer >= 0,
    ;
    vstd::arithmetic::div_mod::lemma_div_pos_is_pos(numer * 1000000, denom);
    assert(numer <= 32 * denom) by (nonlinear_arith)
        requires
            0 <= numer <= len * denom,
            0 <= len <= 32,
            denom >= 2,
    ;
    assert(numer * 1000000 <= denom * 32000000) by (nonlinear_arith)
        requires
            0 <= numer <= 32 * denom,
    ;
    vstd::arithmetic::div_mod::lemma_div_is_ordered(numer * 1000000, denom * 32000000, denom);
    vstd::arithmetic::div_mod::lemma_div_multiples_vanish(32000000, denom);
}

/// The IOC numerator is non-negative and bounded by `v_end` terms of the
/// pairing count `n * (n - 1)`.
proof fn lemma_ioc_numer_bound(s: Seq<i16>, v_end: int)
    requires
        2 <= s.len() <= 0x100000,
    ensures
        0 <= ioc_numer(s, v_end) <= (if v_end >= 0 {
            v_end
        } else {
            0
        }) * ((s.len() * (s.len() - 1)) as int),
    decreases v_end,
{
    if v_end > 0 {
        lemma_ioc_numer_bound(s, v_end - 1);
        lemma_count_occ_le(s, v_end - 1, s.len() as int);
        let f = count_occ(s, v_end - 1, s.len() as int);
        let n = s.len() as int;
        assert(0 <= f * (f - 1) <= n * (n - 1)) by (nonlinear_arith)
            requires
                0 <= f <= n,
                2 <= n,
        ;
        assert((v_end - 1) * (n * (n - 1)) + n * (n - 1) == v_end * (n * (n - 1)))
            by (nonlinear_arith);
    }
}

/// A column of period `p` starting at `i0` has at least two entries when
/// `i0 + p` is still inside the sequence.
proof fn lemma_col_seq_two(s: Seq<i16>, i0: int, p: int)
    requires
        p >= 1,
        0 <= i0,
        i0 + p < s.len(),
    ensures
        col_seq(s, i0, p).len() >= 2,
        col_seq(s, i0, p).len() <= s.len(),
{
    lemma_col_seq_len(s, i0 + p, p);
    lemma_col_seq_len(s, i0, p);
}

/// A column's length is bounded by the sequence length.
proof fn lemma_col_seq_len(s: Seq<i16>, i0: int, p: int)
    requires
        p >= 1,
        0 <= i0,
    ensures
        i0 <= s.len() ==> col_seq(s, i0, p).len() <= s.len() - i0,
        i0 > s.len() ==> col_seq(s, i0, p).len() == 0,
        i0 < s.len() ==> col_seq(s, i0, p).len() >= 1,
    decreases s.len() + p - i0,
{
    if i0 < s.len() {
        lemma_col_seq_len(s, i0 + p, p);
    }
}

/// Looks a character up in the ligature table; the entry added last wins.
pub open spec fn assoc_subst(m: Seq<(char, String)>, c: char) -> Option<Seq<char>>
    decreases m.len(),
{
    if m.len() == 0 {
        None
    } else if m.last().0 == c {
        Some(m.last().1@)
    } else {
        assoc_subst(m.drop_last(), c)
    }
}

/// The string with every tabled ligature replaced by its expansion.
pub open spec fn spec_substitute(m: Seq<(char, String)>, s: Seq<char>) -> Seq<char>
    decreases s.len(),
{
    if s.len() == 0 {
        Seq::empty()
    } else {
        let pre = spec_substitute(m, s.drop_last());
        match assoc_subst(m, s.last()) {
            Some(rep) => pre + rep,
            None => pre.push(s.last()),
        }
    }
}

impl Language {
    /// Adds a ligature substitution, applied in preprocessing before any
    /// cipher sees the text (for example, expanding a ligature to two
    /// letters). The character must not be tabled yet.
    pub fn add_substitution(&mut self, from: &char, to: &str)
        requires
            assoc_subst(old(self).substitution_table@, *from) is None,
        ensures
            final(self).substitution_table@.len() == old(self).substitution_table@.len() + 1,
            final(self).substitution_table@.drop_last() == old(self).substitution_table@,
            final(self).substitution_table@.last().0 == *from,
            final(self).substitution_table@.last().1@ == to@,
            assoc_subst(final(self).substitution_table@, *from) == Some(to@),
            final(self).alphabets == old(self).alphabets,
            final(self).selected_alph_idx == old(self).selected_alph_idx,
    {
        let entry = (*from, to.to_owned());
        let ghost pre = self.substitution_table@;
        self.substitution_table.push(entry);
        proof {
            assert(self.substitution_table@.last().0 == *from);
            assert(self.substitution_table@.drop_last() =~= pre);
        }
    }

    /// Removes a ligature substitution; the character must be tabled.
    pub fn del_substitution(&mut self, from: &char)
        ensures
            assoc_subst(final(self).substitution_table@, *from) is None,
            final(self).alphabets == old(self).alphabets,
            final(self).selected_alph_idx == old(self).selected_alph_idx,
    {
        let n = self.substitution_table.len();
        let mut kept: Vec<(char, String)> = Vec::new();
        let mut k: usize = 0;
        while k < n
            invariant
                k <= n,
                n == self.substitution_table@.len(),
                forall|p: int| 0 <= p < kept@.len() ==> (#[trigger] kept@[p]).0 != *from,
            decreases n - k,
        {
            if self.substitution_table[k].0 != *from {
                let c = self.substitution_table[k].0;
                let s = self.substitution_table[k].1.clone();
                kept.push((c, s));
            }
            k = k + 1;
        }
        proof {
            lemma_assoc_subst_absent(kept@, *from);
        }
        self.substitution_table = kept;
    }

    /// Clears all ligature substitutions.
    pub fn clear_substitutions(&mut self)
        ensures
            final(self).substitution_table@ == Seq::<(char, String)>::empty(),
            final(self).alphabets == old(self).alphabets,
            final(self).selected_alph_idx == old(self).selected_alph_idx,
    {
        self.substitution_table = Vec::new();
    }

    /// Applies the tabled ligature substitutions to a string.
    pub fn substitute_string(&self, string: &str) -> (r: String)
        ensures
            r@ == spec_substitute(self.substitution_table@, string@),
    {
        let n = string.unicode_len();
        let mut result = String::new();
        let mut i: usize = 0;
        proof {
            assert(string@.subrange(0, 0) =~= Seq::<char>::empty());
        }
        while i < n
            invariant
                i <= n,
                n == string@.len(),
                result@ == spec_substitute(self.substitution_table@, string@.subrange(0, i as int)),
            decreases n - i,
        {
            let c = string.get_char(i);
            proof {
                assert(string@.subrange(0, i as int + 1).drop_last() =~= string@.subrange(
                    0,
                    i as int,
                ));
                assert(string@.subrange(0, i as int + 1).last() == string@[i as int]);
            }
            match self.lookup_substitution(&c) {
                Some(idx) => {
                    result.append(self.substitution_table[idx].1.as_str());
                },
                None => {
                    result.push(c);
                },
            }
            i = i + 1;
        }
        proof {
            assert(string@.subrange(0, n as int) =~= string@);
        }
        result
    }

    /// Finds the winning table entry for a character, if any.
    fn lookup_substitution(&self, c: &char) -> (r: Option<usize>)
        ensures
            match r {
                Some(idx) => idx < self.substitution_table@.len() && assoc_subst(
                    self.substitution_table@,
                    *c,
                ) == Some(self.substitution_table@[idx as int].1@),
                None => assoc_subst(self.substitution_table@, *c) is None,
            },
    {
        let n = self.substitution_table.len();
        proof {
            assert(self.substitution_table@.subrange(0, n as int) =~= self.substitution_table@);
        }
        let mut k: usize = n;
        while k > 0
            invariant
                k <= n,
                n == self.substitution_table@.len(),
                assoc_subst(self.substitution_table@, *c) == assoc_subst(
                    self.substitution_table@.subrange(0, k as int),
                    *c,
                ),
            decreases k,
        {
            proof {
                assert(self.substitution_table@.subrange(0, k as int).last()
                    == self.substitution_table@[k - 1]);
                assert(self.substitution_table@.subrange(0, k as int).drop_last()
                    =~= self.substitution_table@.subrange(0, k as int - 1));
            }
            if self.substitution_table[k - 1].0 == *c {
                return Some(k - 1);
            }
            k = k - 1;
        }
        proof {
            assert(self.substitution_table@.subrange(0, 0) =~= Seq::<(char, String)>::empty());
        }
        None
    }
}

/// A list without an entry for a character resolves it to nothing.
proof fn lemma_assoc_subst_absent(m: Seq<(char, String)>, c: char)
    requires
        forall|p: int| 0 <= p < m.len() ==> (#[trigger] m[p]).0 != c,
    ensures
        assoc_subst(m, c) is None,
    decreases m.len(),
{
    if m.len() > 0 {
        assert(m.drop_last() =~= m.subrange(0, m.len() - 1));
        assert forall|p: int| 0 <= p < m.drop_last().len() implies (#[trigger] m.drop_last()[p]).0
            != c by {
            assert(m.drop_last()[p] == m[p]);
        }
        lemma_assoc_subst_absent(m.drop_last(), c);
    }
}

/// Counting a value in a sequence does not change when a symbol is pushed
/// beyond the counted prefix.
proof fn lemma_count_occ_prefix(s: Seq<i16>, x: i16, v: int, j: int)
    requires
        0 <= j <= s.len(),
    ensures
        count_occ(s.push(x), v, j) == count_occ(s, v, j),
    decreases j,
{
    if j > 0 {
        lemma_count_occ_prefix(s, x, v, j - 1);
        assert(s.push(x)[j - 1] == s[j - 1]);
    }
}

/// Pushing a symbol raises exactly its own count by one.
proof fn lemma_count_occ_push(s: Seq<i16>, x: i16, v: int)
    ensures
        count_occ(s.push(x), v, s.len() as int + 1) == count_occ(s, v, s.len() as int) + (if x == v {
            1int
        } else {
            0int
        }),
{
    lemma_count_occ_prefix(s, x, v, s.len() as int);
    assert(s.push(x)[s.len() as int] == x);
}

/// Pushing a symbol raises the IOC numerator by twice that symbol's
/// previous count.
proof fn lemma_ioc_numer_push(s: Seq<i16>, x: i16, v_end: int)
    ensures
        ioc_numer(s.push(x), v_end) == ioc_numer(s, v_end) + (if 0 <= x < v_end {
            2 * count_occ(s, x as int, s.len() as int)
        } else {
            0int
        }),
    decreases v_end,
{
    if v_end > 0 {
        lemma_ioc_numer_push(s, x, v_end - 1);
        lemma_count_occ_push(s, x, v_end - 1);
        let f = count_occ(s, v_end - 1, s.len() as int);
        if x == (v_end - 1) as i16 && 0 <= x {
            assert((f + 1) * (f + 1 - 1) == f * (f - 1) + 2 * f) by (nonlinear_arith);
        }
    }
}

/// Counting the image of a value through an injective table matches
/// counting the value itself.
proof fn lemma_count_occ_mapped(table: Seq<i16>, s: Seq<i16>, x: i16, len: int, j: int)
    requires
        0 <= j <= s.len(),
        0 <= x < len,
        len <= table.len(),
        forall|v1: int, v2: int| 0 <= v1 < v2 < len ==> table[v1] != table[v2],
        forall|p: int| 0 <= p < s.len() ==> 0 <= #[trigger] s[p] < len,
    ensures
        count_occ(subst_map(table, s), table[x as int] as int, j) == count_occ(s, x as int, j),
    decreases j,
{
    if j > 0 {
        lemma_count_occ_mapped(table, s, x, len, j - 1);
        let m = subst_map(table, s);
        assert(m[j - 1] == table[s[j - 1] as int]);
        if s[j - 1] != x {
            assert(table[s[j - 1] as int] != table[x as int]) by {
                if s[j - 1] < x {
                } else {
                }
            }
        }
    }
}

/// The index of coincidence is unchanged by any monoalphabetic
/// substitution of a sequence: permuting symbol identities does not change
/// pairwise-equality counts, so both the numerator and the fixed-point
/// value stay the same.
pub proof fn lemma_ioc_substitution_invariant(table: Seq<i16>, s: Seq<i16>, len: int)
    requires
        0 < len <= 32,
        len <= table.len(),
        forall|v1: int, v2: int| 0 <= v1 < v2 < len ==> table[v1] != table[v2],
        forall|v: int| 0 <= v < len ==> 0 <= #[trigger] table[v] < len,
        forall|p: int| 0 <= p < s.len() ==> 0 <= #[trigger] s[p] < len,
    ensures
        ioc_numer(subst_map(table, s), len) == ioc_numer(s, len),
        s.len() >= 2 ==> spec_ioc_fp(subst_map(table, s), len) == spec_ioc_fp(s, len),
    decreases s.len(),
{
    if s.len() == 0 {
        lemma_ioc_numer_empty(subst_map(table, s), len);
        lemma_ioc_numer_empty(s, len);
    } else {
        let pre = s.drop_last();
        let x = s.last();
        lemma_ioc_substitution_invariant(table, pre, len);
        let mpre = subst_map(table, pre);
        assert(subst_map(table, s) =~= mpre.push(table[x as int]));
        assert(s =~= pre.push(x));
        lemma_ioc_numer_push(pre, x, len);
        lemma_ioc_numer_push(mpre, table[x as int], len);
        lemma_count_occ_mapped(table, pre, x, len, pre.len() as int);
        assert(ioc_numer(subst_map(table, s), len) == ioc_numer(mpre.push(table[x as int]), len));
        assert(ioc_numer(s, len) == ioc_numer(pre.push(x), len));
    }
}

/// The IOC numerator of an empty sequence is zero.
proof fn lemma_ioc_numer_empty(s: Seq<i16>, v_end: int)
    requires
        s.len() == 0,
    ensures
        ioc_numer(s, v_end) == 0,
    decreases v_end,
{
    if v_end > 0 {
        lemma_ioc_numer_empty(s, v_end - 1);
    }
}

/// The sum of the window counts over the first `w_end` residues.
pub open spec fn window_count_sum(s: Seq<i16>, w_end: int, j_end: int) -> int
    decreases w_end,
{
    if w_end <= 0 {
        0
    } else {
        window_count_sum(s, w_end - 1, j_end) + window_count(s, 32, w_end - 1, j_end)
    }
}

/// Extending the counted range by one position adds one to the residue sum
/// when the new window's residue lies below the bound.
proof fn lemma_window_count_sum_step(s: Seq<i16>, w_end: int, j: int)
    requires
        j >= 3,
    ensures
        window_count_sum(s, w_end, j + 1) == window_count_sum(s, w_end, j) + (if 0 <= packw(
            s,
            j,
            4,
        ) % 32 < w_end {
            1int
        } else {
            0int
        }),
    decreases w_end,
{
    if w_end > 0 {
        lemma_window_count_sum_step(s, w_end - 1, j);
    }
}

/// The smoothing mass law: over all 32 unigram residues, the window counts
/// sum to the total number of counted windows — the common denominator of
/// every smoothed probability.
pub proof fn lemma_window_counts_total(s: Seq<i16>, j_end: int)
    requires
        forall|p: int| 0 <= p < s.len() ==> 0 <= #[trigger] s[p] < 32,
    ensures
        window_count_sum(s, 32, j_end) == if j_end >= 3 {
            j_end - 3
        } else {
            0
        },
    decreases (if j_end >= 3 {
        j_end
    } else {
        0
    }),
{
    if j_end <= 3 {
        lemma_window_count_sum_zero(s, 32, j_end);
    } else {
        lemma_window_counts_total(s, j_end - 1);
        lemma_window_count_sum_step(s, 32, j_end - 1);
        vstd::arithmetic::div_mod::lemma_mod_division_less_than_divisor(
            packw(s, j_end - 1, 4),
            32,
        );
    }
}

/// The sum of the first `w_end` entries of a count table.
pub open spec fn counts_sum(s: Seq<u64>, w_end: int) -> int
    decreases w_end,
{
    if w_end <= 0 {
        0
    } else {
        counts_sum(s, w_end - 1) + s[w_end - 1]
    }
}

/// The smoothing mass law at a trained model: the unigram counts of a
/// model trained on a code-point sequence sum to its total window count —
/// the common denominator of every smoothed probability, so that the
/// smoothed unigram distribution carries total mass
/// `(total + alphabet) / total`. The hypotheses are exactly what
/// [`Language::new`] ensures of its result.
pub proof fn lemma_trained_unigram_mass(l: Language, cps: Seq<i16>)
    requires
        cps.len() >= 4,
        forall|p: int| 0 <= p < cps.len() ==> 0 <= #[trigger] cps[p] < 32,
        l.unigram_counts@.len() == 32,
        forall|w: int|
            0 <= w < 32 ==> #[trigger] l.unigram_counts@[w] == window_count(
                cps,
                32,
                w,
                cps.len() as int,
            ),
        l.total_windows == cps.len() - 3,
    ensures
        counts_sum(l.unigram_counts@, 32) == l.total_windows,
{
    lemma_window_counts_total(cps, cps.len() as int);
    lemma_counts_sum_matches(l.unigram_counts@, cps, 32);
}

/// A count table agreeing with the window counts entrywise sums like them.
proof fn lemma_counts_sum_matches(s: Seq<u64>, cps: Seq<i16>, w_end: int)
    requires
        w_end <= s.len(),
        forall|w: int|
            0 <= w < s.len() ==> #[trigger] s[w] == window_count(cps, 32, w, cps.len() as int),
    ensures
        counts_sum(s, w_end) == window_count_sum(cps, w_end, cps.len() as int),
    decreases w_end,
{
    if w_end > 0 {
        lemma_counts_sum_matches(s, cps, w_end - 1);
    }
}

/// Below the first full window, every residue sum is zero.
proof fn lemma_window_count_sum_zero(s: Seq<i16>, w_end: int, j_end: int)
    requires
        j_end <= 3,
    ensures
        window_count_sum(s, w_end, j_end) == 0,
    decreases w_end,
{
    if w_end > 0 {
        lemma_window_count_sum_zero(s, w_end - 1, j_end);
    }
}

/// Every table cell is a non-positive bounded fixed-point log.
pub open spec fn cells_bounded(cells: Seq<i64>) -> bool {
    forall|w: int| 0 <= w < cells.len() ==> -0x10000000000 < #[trigger] cells[w] <= 0
}

/// The first index whose alphabet has the given length.
pub open spec fn find_alph_idx(alphabets: Seq<LangAlphabet>, len: int) -> Option<int> {
    find_alph_idx_from(alphabets, len, 0)
}

/// A found index lies in range and its alphabet has the length sought.
pub proof fn lemma_find_alph_idx_range(alphabets: Seq<LangAlphabet>, len: int, start: int)
    ensures
        match find_alph_idx_from(alphabets, len, start) {
            Some(idx) => start <= idx < alphabets.len() && alphabets[idx].spec_length() == len,
            None => true,
        },
    decreases alphabets.len() - start,
{
    if 0 <= start < alphabets.len() && alphabets[start].spec_length() != len {
        lemma_find_alph_idx_range(alphabets, len, start + 1);
    }
}

/// The first index at or after `start` whose alphabet has the given length.
pub open spec fn find_alph_idx_from(alphabets: Seq<LangAlphabet>, len: int, start: int) -> Option<
    int,
>
    decreases alphabets.len() - start,
{
    if start < 0 || start >= alphabets.len() {
        None
    } else if alphabets[start].spec_length() == len {
        Some(start)
    } else {
        find_alph_idx_from(alphabets, len, start + 1)
    }
}

} // verus!
