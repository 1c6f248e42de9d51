//! One alphabet variant of a language: an ordered uppercase and lowercase
//! alphabet of equal length (position = code point), case-specific alias
//! pairs that map letters from outside the alphabet onto letters inside it,
//! a table mapping each code point into the canonical statistics space, and
//! the variant's expected index of coincidence.

use vstd::prelude::*;

use crate::error::Error;

verus! {

/// Looks up `c` in an insertion-ordered association list, where the entry
/// pushed last wins, as in a map built by repeated insertion.
pub open spec fn assoc_last(m: Seq<(char, i16)>, c: char) -> Option<i16>
    decreases m.len(),
{
    if m.len() == 0 {
        None
    } else if m.last().0 == c {
        Some(m.last().1)
    } else {
        assoc_last(m.drop_last(), c)
    }
}

/// The base entries of the char map: for each position, the uppercase letter
/// and then the lowercase letter, both mapping to the position.
pub open spec fn base_entries(upper: Seq<char>, lower: Seq<char>, n: int) -> Seq<(char, i16)>
    decreases n,
{
    if n <= 0 {
        Seq::empty()
    } else {
        base_entries(upper, lower, n - 1).push((upper[n - 1], (n - 1) as i16)).push(
            (lower[n - 1], (n - 1) as i16),
        )
    }
}

/// Extends the map with alias pairs: each two-character string maps its
/// first character to the value its second character has at that moment.
pub open spec fn with_aliases(m: Seq<(char, i16)>, subs: Seq<Seq<char>>, n: int) -> Seq<
    (char, i16),
>
    decreases n,
{
    if n <= 0 {
        m
    } else {
        let prev = with_aliases(m, subs, n - 1);
        let sub = subs[n - 1];
        if sub.len() == 2 {
            match assoc_last(prev, sub[1]) {
                Some(v) => prev.push((sub[0], v)),
                None => prev,
            }
        } else {
            prev
        }
    }
}

/// The complete char map of an alphabet: base entries for both cases, then
/// the lowercase aliases, then the uppercase aliases.
pub open spec fn full_char_map(
    upper: Seq<char>,
    lower: Seq<char>,
    lower_subs: Seq<Seq<char>>,
    upper_subs: Seq<Seq<char>>,
) -> Seq<(char, i16)> {
    let base = base_entries(upper, lower, upper.len() as int);
    let with_lower = with_aliases(base, lower_subs, lower_subs.len() as int);
    with_aliases(with_lower, upper_subs, upper_subs.len() as int)
}

/// Do all characters of `s`, over all strings, occur exactly once?
pub open spec fn concat_chars(subs: Seq<Seq<char>>) -> Seq<char>
    decreases subs.len(),
{
    if subs.len() == 0 {
        Seq::empty()
    } else {
        concat_chars(subs.drop_last()) + subs.last()
    }
}

/// No character repeats in the sequence.
pub open spec fn seq_unique(s: Seq<char>) -> bool {
    forall|i: int, j: int| 0 <= i < j < s.len() ==> s[i] != s[j]
}

/// Every string view holds exactly two characters.
pub open spec fn all_len_two(subs: Seq<Seq<char>>) -> bool {
    forall|k: int| 0 <= k < subs.len() ==> (#[trigger] subs[k]).len() == 2
}

/// Every table entry lies in the canonical packed space.
pub open spec fn table_range_ok(table: Seq<i16>) -> bool {
    forall|k: int| 0 <= k < table.len() ==> 0 <= #[trigger] table[k] < 32
}

/// Two alphabets with the same configuration and derived map, differing at
/// most in their stored expected index of coincidence.
pub open spec fn config_eq(a: LangAlphabet, b: LangAlphabet) -> bool {
    &&& a.upper == b.upper
    &&& a.lower == b.lower
    &&& a.lower_substitutions == b.lower_substitutions
    &&& a.upper_substitutions == b.upper_substitutions
    &&& a.scoring_sub_table == b.scoring_sub_table
    &&& a.char_to_cp == b.char_to_cp
}

/// Represents one alphabet variant. See [`crate::lang::Language`] for the
/// model that owns these.
pub struct LangAlphabet {
    /// The uppercase alphabet for this alphabet length.
    pub upper: String,
    /// The lowercase alphabet for this alphabet length.
    pub lower: String,
    /// Lowercase alias pairs, each two characters: the first character is
    /// read as the second, which must belong to the lowercase alphabet.
    pub lower_substitutions: Vec<String>,
    /// Uppercase alias pairs, in the same form.
    pub upper_substitutions: Vec<String>,
    /// Maps each code point of this alphabet into the canonical statistics
    /// space `0..32`.
    pub scoring_sub_table: Vec<i16>,
    /// The expected index of coincidence for this variant, as a fixed-point
    /// value scaled by [`crate::lang::STAT_SCALE`].
    pub expected_ioc: u64,
    /// Maps characters to code points; derived from the fields above by
    /// [`LangAlphabet::init`]. Later entries overwrite earlier ones.
    pub char_to_cp: Vec<(char, i16)>,
}

impl LangAlphabet {
    /// The length of this alphabet.
    pub open spec fn spec_length(&self) -> int {
        self.upper@.len() as int
    }

    /// The checks that `init` performs, in order. Each `Err` case below
    /// corresponds to the first one that fails.
    pub open spec fn lens_match(&self) -> bool {
        self.upper@.len() == self.lower@.len()
    }

    pub open spec fn table_len_matches(&self) -> bool {
        self.upper@.len() == self.scoring_sub_table@.len()
    }

    pub open spec fn len_in_bounds(&self) -> bool {
        self.upper@.len() <= 32
    }

    pub open spec fn upper_unique(&self) -> bool {
        seq_unique(self.upper@)
    }

    pub open spec fn lower_unique(&self) -> bool {
        seq_unique(self.lower@)
    }

    pub open spec fn subs_are_pairs(&self) -> bool {
        all_len_two(self.lower_sub_views()) && all_len_two(self.upper_sub_views())
    }

    pub open spec fn sub_chars_unique(subs: Seq<Seq<char>>) -> bool {
        concat_chars(subs).no_duplicates()
    }

    pub open spec fn sub_targets_valid(subs: Seq<Seq<char>>, alph: Seq<char>) -> bool {
        forall|k: int|
            0 <= k < subs.len() && (#[trigger] subs[k]).len() == 2 ==> alph.contains(subs[k][1])
    }

    /// The scoring table maps into the canonical packed space.
    pub open spec fn table_values_in_range(&self) -> bool {
        table_range_ok(self.scoring_sub_table@)
    }

    /// The views of the alias lists as character sequences.
    pub open spec fn lower_sub_views(&self) -> Seq<Seq<char>> {
        self.lower_substitutions@.map_values(|s: String| s@)
    }

    pub open spec fn upper_sub_views(&self) -> Seq<Seq<char>> {
        self.upper_substitutions@.map_values(|s: String| s@)
    }

    /// Everything `init` checks, together.
    pub open spec fn checked(&self) -> bool {
        &&& self.lens_match()
        &&& self.table_len_matches()
        &&& self.len_in_bounds()
        &&& self.upper_unique()
        &&& self.lower_unique()
        &&& self.subs_are_pairs()
        &&& Self::sub_chars_unique(self.upper_sub_views())
        &&& Self::sub_chars_unique(self.lower_sub_views())
        &&& Self::sub_targets_valid(self.lower_sub_views(), self.lower@)
        &&& Self::sub_targets_valid(self.upper_sub_views(), self.upper@)
        &&& self.table_values_in_range()
    }

    /// A fully usable alphabet: checked, with its derived char map built.
    pub open spec fn wf(&self) -> bool {
        &&& self.checked()
        &&& self.char_to_cp@ == full_char_map(
            self.upper@,
            self.lower@,
            self.lower_sub_views(),
            self.upper_sub_views(),
        )
    }

    /// The code point of a character under this alphabet, if it has one.
    pub open spec fn spec_cp_of(&self, c: char) -> Option<i16> {
        assoc_last(self.char_to_cp@, c)
    }

    /// Returns the length of this alphabet.
    pub fn length(&self) -> (r: usize)
        ensures
            r == self.spec_length(),
    {
        self.upper.as_str().unicode_len()
    }

    /// Looks `c` up in the derived char map; the entry inserted last wins.
    pub fn cp_of(&self, c: char) -> (r: Option<i16>)
        ensures
            r == self.spec_cp_of(c),
    {
        let n = self.char_to_cp.len();
        proof {
            assert(self.char_to_cp@.subrange(0, n as int) =~= self.char_to_cp@);
        }
        let mut k: usize = n;
        while k > 0
            invariant
                k <= n,
                n == self.char_to_cp@.len(),
                assoc_last(self.char_to_cp@, c) == assoc_last(
                    self.char_to_cp@.subrange(0, k as int),
                    c,
                ),
            decreases k,
        {
            let pair = self.char_to_cp[k - 1];
            proof {
                assert(self.char_to_cp@.subrange(0, k as int).last() == self.char_to_cp@[k - 1]);
                assert(self.char_to_cp@.subrange(0, k as int).drop_last() =~= self.char_to_cp@
                    .subrange(0, k as int - 1));
            }
            if pair.0 == c {
                return Some(pair.1);
            }
            k = k - 1;
        }
        proof {
            assert(self.char_to_cp@.subrange(0, 0) =~= Seq::<(char, i16)>::empty());
        }
        None
    }

    /// The error `init` reports for this alphabet, if any: the checks run in
    /// a fixed order and the first failure wins.
    pub open spec fn first_init_error(&self) -> Option<Error> {
        Self::first_config_error(
            self.upper,
            self.lower,
            self.upper_substitutions,
            self.lower_substitutions,
            self.scoring_sub_table,
        )
    }

    /// The same, phrased over the configuration fields alone, so that a
    /// caller can speak of the outcome before any alphabet value exists.
    pub open spec fn first_config_error(
        upper: String,
        lower: String,
        upper_substitutions: Vec<String>,
        lower_substitutions: Vec<String>,
        scoring_sub_table: Vec<i16>,
    ) -> Option<Error> {
        let usubs = upper_substitutions@.map_values(|s: String| s@);
        let lsubs = lower_substitutions@.map_values(|s: String| s@);
        if upper@.len() != lower@.len() {
            Some(
                Error::AlphabetLenDifference {
                    upper_len: upper@.len() as usize,
                    lower_len: lower@.len() as usize,
                },
            )
        } else if upper@.len() != scoring_sub_table@.len() {
            Some(
                Error::ScoringSubTableLen {
                    alphabet_len: upper@.len() as usize,
                    table_len: scoring_sub_table@.len() as usize,
                },
            )
        } else if upper@.len() > 32 {
            Some(Error::MaxAlphabetLenExceeded { alphabet_len: upper@.len() as usize })
        } else if !seq_unique(upper@) {
            Some(Error::RepeatCharUpperAlph { upper })
        } else if !seq_unique(lower@) {
            Some(Error::RepeatCharLowerAlph { lower })
        } else if !(all_len_two(lsubs) && all_len_two(usubs)) {
            Some(Error::SubstitutionsNotPairs { subs: upper_substitutions })
        } else if !Self::sub_chars_unique(usubs) {
            Some(Error::SubstitutionsNotUnique { subs: upper_substitutions })
        } else if !Self::sub_chars_unique(lsubs) {
            Some(Error::SubstitutionsNotUnique { subs: lower_substitutions })
        } else if !Self::sub_targets_valid(lsubs, lower@) {
            Some(Error::InvalidCharsInSubstitutions { subs: lower_substitutions })
        } else if !Self::sub_targets_valid(usubs, upper@) {
            Some(Error::InvalidCharsInSubstitutions { subs: upper_substitutions })
        } else if !table_range_ok(scoring_sub_table@) {
            Some(Error::ScoringSubTableValue { value: 0 })
        } else {
            None
        }
    }

    /// Creates a new alphabet variant from its configuration, validating it.
    /// Each language should have one alphabet for every length it supports.
    pub fn new(
        upper: String,
        lower: String,
        upper_substitutions: Vec<String>,
        lower_substitutions: Vec<String>,
        scoring_sub_table: Vec<i16>,
    ) -> (r: Result<LangAlphabet, Error>)
        ensures
            match r {
                Ok(a) => {
                    &&& a.wf()
                    &&& a.upper@ == upper@
                    &&& a.lower@ == lower@
                    &&& a.upper_substitutions@ == upper_substitutions@
                    &&& a.lower_substitutions@ == lower_substitutions@
                    &&& a.scoring_sub_table@ == scoring_sub_table@
                    &&& a.expected_ioc == 0
                },
                Err(e) => match Self::first_config_error(
                    upper,
                    lower,
                    upper_substitutions,
                    lower_substitutions,
                    scoring_sub_table,
                ) {
                    Some(f) => Error::equivalent(e, f),
                    None => false,
                },
            },
    {
        let mut result = LangAlphabet {
            upper,
            lower,
            lower_substitutions,
            upper_substitutions,
            scoring_sub_table,
            char_to_cp: Vec::new(),
            expected_ioc: 0,
        };
        match result.init() {
            Ok(_) => Ok(result),
            Err(e) => Err(e),
        }
    }

    /// Does the character match the given case: a letter of that case's
    /// alphabet string, or the source of one of that case's aliases?
    pub fn case_matches(&self, letter: &char, upper_case: bool) -> (r: bool)
        requires
            self.wf(),
        ensures
            upper_case ==> (r <==> (self.upper@.contains(*letter) || exists|k: int|
                0 <= k < self.upper_sub_views().len() && (#[trigger] self.upper_sub_views()[k])[0]
                    == *letter)),
            !upper_case ==> (r <==> (self.lower@.contains(*letter) || exists|k: int|
                0 <= k < self.lower_sub_views().len() && (#[trigger] self.lower_sub_views()[k])[0]
                    == *letter)),
    {
        let alph_str = if upper_case {
            self.upper.as_str()
        } else {
            self.lower.as_str()
        };
        if str_contains_char(alph_str, *letter) {
            return true;
        }
        let subs = if upper_case {
            &self.upper_substitutions
        } else {
            &self.lower_substitutions
        };
        let ghost views = subs@.map_values(|s: String| s@);
        let n = subs.len();
        let mut k: usize = 0;
        while k < n
            invariant
                k <= n,
                n == subs@.len(),
                views == subs@.map_values(|s: String| s@),
                upper_case ==> views == self.upper_sub_views(),
                !upper_case ==> views == self.lower_sub_views(),
                all_len_two(views),
                forall|p: int| 0 <= p < k ==> (#[trigger] views[p])[0] != *letter,
            decreases n - k,
        {
            proof {
                assert(views[k as int] == subs@[k as int]@);
            }
            if subs[k].as_str().get_char(0) == *letter {
                proof {
                    if upper_case {
                        assert(self.upper_sub_views()[k as int][0] == *letter);
                    } else {
                        assert(self.lower_sub_views()[k as int][0] == *letter);
                    }
                }
                return true;
            }
            k = k + 1;
        }
        false
    }

    /// Checks the alphabet's invariants and rebuilds the derived char map.
    /// All configuration fields are left as they were; on success the
    /// alphabet is well formed.
    pub fn init(&mut self) -> (r: Result<(), Error>)
        ensures
            final(self).upper == old(self).upper,
            final(self).lower == old(self).lower,
            final(self).upper_substitutions == old(self).upper_substitutions,
            final(self).lower_substitutions == old(self).lower_substitutions,
            final(self).scoring_sub_table == old(self).scoring_sub_table,
            final(self).expected_ioc == old(self).expected_ioc,
            match r {
                Ok(_) => old(self).checked() && final(self).wf(),
                Err(e) => !old(self).checked() && match old(self).first_init_error() {
                    Some(f) => Error::equivalent(e, f),
                    None => false,
                },
            },
    {
        self.char_to_cp = Vec::new();
        let upper_len = self.upper.as_str().unicode_len();
        let lower_len = self.lower.as_str().unicode_len();
        if upper_len != lower_len {
            return Err(Error::AlphabetLenDifference { upper_len, lower_len });
        }
        if upper_len != self.scoring_sub_table.len() {
            return Err(
                Error::ScoringSubTableLen {
                    alphabet_len: upper_len,
                    table_len: self.scoring_sub_table.len(),
                },
            );
        }
        if upper_len > 32 {
            return Err(Error::MaxAlphabetLenExceeded { alphabet_len: upper_len });
        }
        if !crate::util::is_unique(self.upper.as_str()) {
            return Err(Error::RepeatCharUpperAlph { upper: self.upper.clone() });
        }
        if !crate::util::is_unique(self.lower.as_str()) {
            return Err(Error::RepeatCharLowerAlph { lower: self.lower.clone() });
        }
        if !all_pairs(&self.lower_substitutions) || !all_pairs(&self.upper_substitutions) {
            return Err(Error::SubstitutionsNotPairs { subs: self.upper_substitutions.clone() });
        }
        if !concat_is_unique(&self.upper_substitutions) {
            return Err(Error::SubstitutionsNotUnique { subs: self.upper_substitutions.clone() });
        }
        if !concat_is_unique(&self.lower_substitutions) {
            return Err(Error::SubstitutionsNotUnique { subs: self.lower_substitutions.clone() });
        }
        if !targets_valid(&self.lower_substitutions, self.lower.as_str()) {
            return Err(
                Error::InvalidCharsInSubstitutions { subs: self.lower_substitutions.clone() },
            );
        }
        if !targets_valid(&self.upper_substitutions, self.upper.as_str()) {
            return Err(
                Error::InvalidCharsInSubstitutions { subs: self.upper_substitutions.clone() },
            );
        }
        if !table_values_ok(&self.scoring_sub_table) {
            return Err(Error::ScoringSubTableValue { value: 0 });
        }
        // all checks passed; build the derived char map
        let mut map: Vec<(char, i16)> = Vec::new();
        let mut i: usize = 0;
        while i < upper_len
            invariant
                i <= upper_len,
                upper_len == self.upper@.len(),
                upper_len == self.lower@.len(),
                upper_len <= 32,
                map@ == base_entries(self.upper@, self.lower@, i as int),
            decreases upper_len - i,
        {
            let uc = self.upper.as_str().get_char(i);
            let lc = self.lower.as_str().get_char(i);
            map.push((uc, i as i16));
            map.push((lc, i as i16));
            i = i + 1;
        }
        let ghost base = map@;
        append_aliases(&mut map, &self.lower_substitutions);
        append_aliases(&mut map, &self.upper_substitutions);
        self.char_to_cp = map;
        Ok(())
    }
}

/// Every value of the association list lies in `0..n`.
pub open spec fn assoc_values_lt(m: Seq<(char, i16)>, n: int) -> bool {
    forall|k: int| 0 <= k < m.len() ==> 0 <= (#[trigger] m[k]).1 < n
}

/// A lookup in a value-bounded association list yields a bounded value.
proof fn lemma_assoc_last_bounded(m: Seq<(char, i16)>, c: char, n: int)
    requires
        assoc_values_lt(m, n),
    ensures
        match assoc_last(m, c) {
            Some(v) => 0 <= v < n,
            None => true,
        },
    decreases m.len(),
{
    if m.len() > 0 {
        if m.last().0 == c {
            assert(m[m.len() - 1].1 == m.last().1);
        } else {
            assert(assoc_values_lt(m.drop_last(), n)) by {
                assert forall|k: int| 0 <= k < m.drop_last().len() implies 0 <= (
                #[trigger] m.drop_last()[k]).1 < n by {
                    assert(m.drop_last()[k] == m[k]);
                }
            }
            lemma_assoc_last_bounded(m.drop_last(), c, n);
        }
    }
}

/// The base entries of an alphabet's char map have values below its length.
proof fn lemma_base_entries_bounded(upper: Seq<char>, lower: Seq<char>, i: int, n: int)
    requires
        i <= n <= 0x7FFF,
    ensures
        assoc_values_lt(base_entries(upper, lower, i), n),
    decreases i,
{
    if i > 0 {
        lemma_base_entries_bounded(upper, lower, i - 1, n);
        let prev = base_entries(upper, lower, i - 1);
        let m = base_entries(upper, lower, i);
        assert(m[prev.len() as int] == (upper[i - 1], (i - 1) as i16));
        assert(m[prev.len() as int + 1] == (lower[i - 1], (i - 1) as i16));
        assert forall|k: int| 0 <= k < m.len() implies 0 <= (#[trigger] m[k]).1 < n by {
            if k < prev.len() {
                assert(m[k] == prev[k]);
            }
        }
    }
}

/// Adding aliases never adds a value outside the bound.
proof fn lemma_with_aliases_bounded(m: Seq<(char, i16)>, subs: Seq<Seq<char>>, k: int, n: int)
    requires
        assoc_values_lt(m, n),
    ensures
        assoc_values_lt(with_aliases(m, subs, k), n),
    decreases k,
{
    if k > 0 {
        lemma_with_aliases_bounded(m, subs, k - 1, n);
        let prev = with_aliases(m, subs, k - 1);
        let sub = subs[k - 1];
        if sub.len() == 2 {
            lemma_assoc_last_bounded(prev, sub[1], n);
        }
    }
}

/// Every code point a well-formed alphabet assigns to a character lies in
/// `0..length`.
pub proof fn lemma_char_map_values_bounded(a: LangAlphabet, c: char)
    requires
        a.wf(),
    ensures
        match a.spec_cp_of(c) {
            Some(v) => 0 <= v < a.spec_length(),
            None => true,
        },
{
    let n = a.spec_length();
    lemma_base_entries_bounded(a.upper@, a.lower@, n, n);
    let base = base_entries(a.upper@, a.lower@, n);
    lemma_with_aliases_bounded(base, a.lower_sub_views(), a.lower_sub_views().len() as int, n);
    let with_lower = with_aliases(base, a.lower_sub_views(), a.lower_sub_views().len() as int);
    lemma_with_aliases_bounded(
        with_lower,
        a.upper_sub_views(),
        a.upper_sub_views().len() as int,
        n,
    );
    lemma_assoc_last_bounded(a.char_to_cp@, c, n);
}

/// Are all table entries inside the canonical packed space `0..32`?
fn table_values_ok(table: &Vec<i16>) -> (r: bool)
    ensures
        r <==> (forall|k: int| 0 <= k < table@.len() ==> 0 <= #[trigger] table@[k] < 32),
{
    let mut k: usize = 0;
    while k < table.len()
        invariant
            k <= table@.len(),
            forall|p: int| 0 <= p < k ==> 0 <= #[trigger] table@[p] < 32,
        decreases table@.len() - k,
    {
        let v = table[k];
        if v < 0 || v >= 32 {
            return false;
        }
        k = k + 1;
    }
    true
}

/// Does every string of the list hold exactly two characters?
fn all_pairs(subs: &Vec<String>) -> (r: bool)
    ensures
        r <==> all_len_two(subs@.map_values(|s: String| s@)),
{
    let ghost views = subs@.map_values(|s: String| s@);
    let mut k: usize = 0;
    while k < subs.len()
        invariant
            k <= subs@.len(),
            views == subs@.map_values(|s: String| s@),
            forall|p: int| 0 <= p < k ==> (#[trigger] views[p]).len() == 2,
        decreases subs@.len() - k,
    {
        proof {
            assert(views[k as int] == subs@[k as int]@);
        }
        if subs[k].as_str().unicode_len() != 2 {
            proof {
                assert(!all_len_two(views));
            }
            return false;
        }
        k = k + 1;
    }
    true
}

/// Are the characters of all the strings, taken together, free of repeats?
fn concat_is_unique(subs: &Vec<String>) -> (r: bool)
    ensures
        r <==> concat_chars(subs@.map_values(|s: String| s@)).no_duplicates(),
{
    let mut acc = String::new();
    let mut k: usize = 0;
    while k < subs.len()
        invariant
            k <= subs@.len(),
            acc@ == concat_chars(subs@.map_values(|s: String| s@).subrange(0, k as int)),
        decreases subs@.len() - k,
    {
        proof {
            let views = subs@.map_values(|s: String| s@);
            assert(views.subrange(0, k as int + 1).drop_last() =~= views.subrange(0, k as int));
            assert(views.subrange(0, k as int + 1).last() == subs@[k as int]@);
        }
        acc.append(subs[k].as_str());
        k = k + 1;
    }
    proof {
        let views = subs@.map_values(|s: String| s@);
        assert(views.subrange(0, subs@.len() as int) =~= views);
    }
    crate::util::is_unique(acc.as_str())
}

/// Does the second character of each pair occur in the alphabet string?
fn targets_valid(subs: &Vec<String>, alph: &str) -> (r: bool)
    requires
        all_len_two(subs@.map_values(|s: String| s@)),
    ensures
        r <==> LangAlphabet::sub_targets_valid(subs@.map_values(|s: String| s@), alph@),
{
    let mut k: usize = 0;
    while k < subs.len()
        invariant
            k <= subs@.len(),
            all_len_two(subs@.map_values(|s: String| s@)),
            forall|p: int| 0 <= p < k ==> alph@.contains((#[trigger] subs@[p])@[1]),
        decreases subs@.len() - k,
    {
        proof {
            assert(subs@.map_values(|s: String| s@)[k as int] == subs@[k as int]@);
        }
        let c2 = subs[k].as_str().get_char(1);
        if !str_contains_char(alph, c2) {
            proof {
                let views = subs@.map_values(|s: String| s@);
                assert(views[k as int] == subs@[k as int]@);
                assert(!LangAlphabet::sub_targets_valid(views, alph@));
            }
            return false;
        }
        k = k + 1;
    }
    proof {
        let views = subs@.map_values(|s: String| s@);
        assert forall|p: int|
            0 <= p < views.len() && (#[trigger] views[p]).len() == 2 implies alph@.contains(
            views[p][1],
        ) by {
            assert(views[p] == subs@[p]@);
        }
    }
    true
}

/// Does the string contain the character?
fn str_contains_char(s: &str, c: char) -> (r: bool)
    ensures
        r <==> s@.contains(c),
{
    let n = s.unicode_len();
    let mut k: usize = 0;
    while k < n
        invariant
            k <= n,
            n == s@.len(),
            forall|p: int| 0 <= p < k ==> s@[p] != c,
        decreases n - k,
    {
        if s.get_char(k) == c {
            proof {
                assert(s@.contains(c)) by {
                    assert(s@[k as int] == c);
                }
            }
            return true;
        }
        k = k + 1;
    }
    proof {
        if s@.contains(c) {
            let p = choose|p: int| 0 <= p < s@.len() && s@[p] == c;
        }
    }
    false
}

/// Appends to the map one entry per alias pair, each mapping the pair's
/// first character to the value its second character has at that moment.
fn append_aliases(map: &mut Vec<(char, i16)>, subs: &Vec<String>)
    requires
        all_len_two(subs@.map_values(|s: String| s@)),
    ensures
        final(map)@ == with_aliases(
            old(map)@,
            subs@.map_values(|s: String| s@),
            subs@.len() as int,
        ),
{
    let ghost base = map@;
    let ghost views = subs@.map_values(|s: String| s@);
    let mut k: usize = 0;
    while k < subs.len()
        invariant
            k <= subs@.len(),
            all_len_two(subs@.map_values(|s: String| s@)),
            views == subs@.map_values(|s: String| s@),
            map@ == with_aliases(base, views, k as int),
        decreases subs@.len() - k,
    {
        proof {
            assert(views[k as int] == subs@[k as int]@);
        }
        let c1 = subs[k].as_str().get_char(0);
        let c2 = subs[k].as_str().get_char(1);
        let looked = assoc_lookup(map, c2);
        match looked {
            Some(v) => {
                map.push((c1, v));
            },
            None => {},
        }
        k = k + 1;
    }
}

/// Looks `c` up in an association list where the entry pushed last wins.
fn assoc_lookup(map: &Vec<(char, i16)>, c: char) -> (r: Option<i16>)
    ensures
        r == assoc_last(map@, c),
{
    let n = map.len();
    proof {
        assert(map@.subrange(0, n as int) =~= map@);
    }
    let mut k: usize = n;
    while k > 0
        invariant
            k <= n,
            n == map@.len(),
            assoc_last(map@, c) == assoc_last(map@.subrange(0, k as int), c),
        decreases k,
    {
        let pair = map[k - 1];
        proof {
            assert(map@.subrange(0, k as int).last() == map@[k - 1]);
            assert(map@.subrange(0, k as int).drop_last() =~= map@.subrange(0, k as int - 1));
        }
        if pair.0 == c {
            return Some(pair.1);
        }
        k = k - 1;
    }
    proof {
        assert(map@.subrange(0, 0) =~= Seq::<(char, i16)>::empty());
    }
    None
}

} // verus!
