//! The language model: training, scoring, and the statistical laws it
//! carries.

use classic_crypto::alphabet::LangAlphabet;
use classic_crypto::error::Error;
use classic_crypto::lang::Language;
use classic_crypto::lang::ScoreSize;
use classic_crypto::lang::STAT_SCALE;

const CORPUS: &str = "The quiet harbour town woke slowly under a pale morning \
sky. Fishermen carried their nets along the stone pier while gulls wheeled \
and called above the small boats. In the market square the baker set out \
warm loaves, and the smell of fresh bread drifted between the narrow houses. \
Children hurried to school past the old clock tower, whose bells had marked \
the hours for three hundred years. A merchant unloaded crates of apples and \
pears, stacking them carefully beside the fountain. Travellers who came \
through the valley often stopped here for a night, drawn by the warm light \
of the inn and the sound of singing that spilled from its windows. The river \
that turned the mill wheel ran clear and cold from the mountains, and in \
summer the meadows along its banks filled with flowers. Old people said the \
town had once been larger, before the road moved south, but those who stayed \
loved the place all the more for its stillness. Every evening the lamplighter \
walked his slow round, and one by one the little flames answered the coming \
dark. When winter arrived the roofs wore caps of snow, and the harbour froze \
at its edges, yet the fishermen still went out whenever the water allowed. \
Letters from distant cities arrived twice a week, bringing news of wars and \
weddings, of prices and promises, which the postmaster read aloud to anyone \
who asked. The teacher kept a small library behind the schoolroom, and on \
rainy afternoons the children read stories of voyages and buried treasure. \
So the seasons turned, patient and familiar, and the town kept its own time, \
measured not by clocks alone but by tides, harvests, and the long memory of \
its people.";

fn english() -> Language {
    let alphabet = LangAlphabet::new(
        String::from("ABCDEFGHIJKLMNOPQRSTUVWXYZ"),
        String::from("abcdefghijklmnopqrstuvwxyz"),
        vec![],
        vec![],
        (0..26).collect(),
    )
    .unwrap();
    Language::new(String::from("English"), 26, vec![alphabet], String::from(CORPUS)).unwrap()
}

#[test]
fn training_smoothing_mass() {
    // the exact integer part of the smoothing law: the unigram window
    // counts sum to the total number of windows
    let lang = english();
    let sum: u64 = lang.unigram_counts.iter().sum();
    assert_eq!(sum, lang.total_windows);
    assert!(lang.total_windows > 1000);
}

#[test]
fn smoothing_probabilities_sum_to_one() {
    // the floating-point face of the same law: the smoothed unigram
    // probabilities exp(log p) sum to one within tolerance
    let lang = english();
    let total = lang.total_windows as f64;
    let mut sum = 0.0f64;
    for w in 0..32 {
        let cell = lang.unigrams[w] as f64 / 65536.0;
        let p = cell.exp();
        // the stored cell is ln((count+1)/total), so exp recovers the
        // smoothed probability
        let direct = (lang.unigram_counts[w] as f64 + 1.0) / total;
        assert!((p - direct).abs() < 0.01);
        sum += direct;
    }
    assert!((sum - 1.0).abs() < 0.05);
}

#[test]
fn streaming_equals_batch() {
    let lang = english();
    let data = lang.string_to_vec("the gulls wheeled above the harbour in the pale morning light");
    for size in [
        ScoreSize::Unigrams,
        ScoreSize::Bigrams,
        ScoreSize::Trigrams,
        ScoreSize::Quadgrams,
    ] {
        let batch = lang.score(data.as_slice(), size);
        let mut stream = classic_crypto::lang::ScoreStream::new(&lang, size);
        for &cp in data.iter() {
            stream.push(cp);
        }
        assert_eq!(stream.value(), batch);
    }
}

#[test]
fn ioc_invariance_under_substitution() {
    let lang = english();
    let data = lang.string_to_vec("the long memory of its people kept its own time");
    let base = lang.index_of_coincedence(data.as_slice());
    // a monoalphabetic substitution: rotate every symbol by eleven
    let mapped: Vec<i16> = data.iter().map(|&cp| (cp + 11) % 26).collect();
    let moved = lang.index_of_coincedence(mapped.as_slice());
    assert_eq!(base, moved);
}

#[test]
fn periodic_ioc_signal() {
    // encrypting a long sample with a period-5 shift key leaves the
    // period-5 columns monoalphabetic: their averaged IOC stays near the
    // language's expected value, while mismatched periods fall well below
    let lang = english();
    let mut cipher = classic_crypto::cipher::classic_vig::ClassicVigenere::new(&lang);
    cipher.keyword.set_str(&lang, "crane");
    let ct = cipher.encrypt(&lang, CORPUS);
    let data = lang.string_to_vec(&ct);
    let p5 = lang.periodic_ioc(data.as_slice(), 5);
    let p3 = lang.periodic_ioc(data.as_slice(), 3);
    let p7 = lang.periodic_ioc(data.as_slice(), 7);
    let expected = lang.expected_ioc();
    let diff = if p5 > expected { p5 - expected } else { expected - p5 };
    assert!(diff < STAT_SCALE / 100, "period-5 IOC strays: {} vs {}", p5, expected);
    assert!(p3 < p5);
    assert!(p7 < p5);
}

#[test]
fn training_rejects_short_corpus() {
    let alphabet = LangAlphabet::new(
        String::from("ABCDEFGHIJKLMNOPQRSTUVWXYZ"),
        String::from("abcdefghijklmnopqrstuvwxyz"),
        vec![],
        vec![],
        (0..26).collect(),
    )
    .unwrap();
    let r = Language::new(String::from("English"), 26, vec![alphabet], String::from("ab!"));
    assert!(matches!(r, Err(Error::InsufficientCorpusLen { len: 2 })));
}

#[test]
fn training_rejects_unmatched_length() {
    let alphabet = LangAlphabet::new(
        String::from("ABCDEFGHIJKLMNOPQRSTUVWXYZ"),
        String::from("abcdefghijklmnopqrstuvwxyz"),
        vec![],
        vec![],
        (0..26).collect(),
    )
    .unwrap();
    let r = Language::new(String::from("English"), 25, vec![alphabet], String::from(CORPUS));
    assert!(matches!(r, Err(Error::AlphabetLenUnmatched { expected: 25 })));
}

#[test]
fn alphabet_validation_errors() {
    let upper = String::from("ABCDEFGHIJKLMNOPQRSTUVWXYZ");
    let lower = String::from("abcdefghijklmnopqrstuvwxyz");
    let table: Vec<i16> = (0..26).collect();

    let r = LangAlphabet::new(upper.clone(), String::from("abc"), vec![], vec![], table.clone());
    assert!(matches!(r, Err(Error::AlphabetLenDifference { .. })));

    let r = LangAlphabet::new(upper.clone(), lower.clone(), vec![], vec![], (0..25).collect());
    assert!(matches!(r, Err(Error::ScoringSubTableLen { .. })));

    let long_u = String::from("ABCDEFGHIJKLMNOPQRSTUVWXYZ0123456");
    let long_l = String::from("abcdefghijklmnopqrstuvwxyz0123456");
    let r = LangAlphabet::new(long_u, long_l, vec![], vec![], (0..33).collect());
    assert!(matches!(r, Err(Error::MaxAlphabetLenExceeded { .. })));

    let r = LangAlphabet::new(
        String::from("ABCDEFGHIJKLMNOPQRSTUVWXYA"),
        lower.clone(),
        vec![],
        vec![],
        table.clone(),
    );
    assert!(matches!(r, Err(Error::RepeatCharUpperAlph { .. })));

    let r = LangAlphabet::new(
        upper.clone(),
        lower.clone(),
        vec![String::from("XYZ")],
        vec![],
        table.clone(),
    );
    assert!(matches!(r, Err(Error::SubstitutionsNotPairs { .. })));

    let r = LangAlphabet::new(
        upper.clone(),
        lower.clone(),
        vec![String::from("1A"), String::from("2A")],
        vec![],
        table.clone(),
    );
    assert!(matches!(r, Err(Error::SubstitutionsNotUnique { .. })));

    let r = LangAlphabet::new(
        upper.clone(),
        lower.clone(),
        vec![],
        vec![String::from("19")],
        table.clone(),
    );
    assert!(matches!(r, Err(Error::InvalidCharsInSubstitutions { .. })));
}

#[test]
fn alias_alphabet_merges_letters() {
    // a 25-letter variant reading J as I
    let alphabet = LangAlphabet::new(
        String::from("ABCDEFGHIKLMNOPQRSTUVWXYZ"),
        String::from("abcdefghiklmnopqrstuvwxyz"),
        vec![String::from("JI")],
        vec![String::from("ji")],
        (0..25).map(|x| if x > 8 { x + 1 } else { x }).collect(),
    )
    .unwrap();
    let lang =
        Language::new(String::from("English"), 25, vec![alphabet], String::from(CORPUS)).unwrap();
    let a = lang.string_to_vec("jam");
    let b = lang.string_to_vec("iam");
    assert_eq!(a, b);
}

#[test]
fn substitute_string_expands_ligatures() {
    let mut lang = english();
    lang.add_substitution(&'\u{00C6}', "AE");
    assert_eq!(String::from("AE"), lang.substitute_string("\u{00C6}"));
    lang.del_substitution(&'\u{00C6}');
    assert_eq!(String::from("\u{00C6}"), lang.substitute_string("\u{00C6}"));
}

#[test]
fn string_round_trip_keeps_case_and_punctuation() {
    let lang = english();
    let msg = "Hello, World!";
    let cps = lang.string_to_vec(msg);
    let back = lang.rethread(msg, cps.as_slice());
    assert_eq!(back, msg);
    assert_eq!(lang.vec_to_string(&cps), "HELLOWORLD");
}

#[test]
fn set_alph_len_switches_variants() {
    let a26 = LangAlphabet::new(
        String::from("ABCDEFGHIJKLMNOPQRSTUVWXYZ"),
        String::from("abcdefghijklmnopqrstuvwxyz"),
        vec![],
        vec![],
        (0..26).collect(),
    )
    .unwrap();
    let a25 = LangAlphabet::new(
        String::from("ABCDEFGHIKLMNOPQRSTUVWXYZ"),
        String::from("abcdefghiklmnopqrstuvwxyz"),
        vec![String::from("JI")],
        vec![String::from("ji")],
        (0..25).map(|x| if x > 8 { x + 1 } else { x }).collect(),
    )
    .unwrap();
    let mut lang =
        Language::new(String::from("English"), 26, vec![a26, a25], String::from(CORPUS)).unwrap();
    assert_eq!(lang.alphabet_len(), 26);
    assert!(lang.set_alph_len(25));
    assert_eq!(lang.alphabet_len(), 25);
    assert!(!lang.set_alph_len(24));
    assert_eq!(lang.alphabet_len(), 25);
}

#[test]
fn chi_squared_prefers_plain_text() {
    let lang = english();
    let plain = lang.string_to_vec("the town kept its own time measured by tides and harvests");
    let skew = lang.string_to_vec("zzzzqqqqxxxxjjjjzzzzqqqqxxxxjjjjzzzzqqqqxxxxjjjj");
    let chi_plain = lang.chi_squared(plain.as_slice());
    let chi_skew = lang.chi_squared(skew.as_slice());
    assert!(chi_plain < chi_skew);
}

#[test]
fn number_key_rejects_illegal_values() {
    let lang = english();
    let mut n = classic_crypto::key::number::Number::new(&lang, 3).unwrap();
    assert!(matches!(
        n.set(&lang, 26),
        Err(classic_crypto::error::Error::InvalidKeyFmt { .. })
    ));
    assert_eq!(n.get(), 3);
    assert!(n.set(&lang, 25).is_ok());
    assert_eq!(n.get(), 25);
}

#[test]
fn scoring_table_value_is_checked() {
    let r = LangAlphabet::new(
        String::from("ABCDEFGHIJKLMNOPQRSTUVWXYZ"),
        String::from("abcdefghijklmnopqrstuvwxyz"),
        vec![],
        vec![],
        (0..26).map(|x| x + 10).collect(),
    );
    assert!(matches!(r, Err(Error::ScoringSubTableValue { .. })));
}

#[test]
fn score_is_monotone_in_plausibility() {
    // scrambling text lowers the quadgram score
    let lang = english();
    let plain = lang.string_to_vec("the children read stories of voyages and buried treasure");
    let mut scrambled = plain.clone();
    scrambled.reverse();
    let s_plain = lang.score(plain.as_slice(), ScoreSize::Quadgrams);
    let s_scrambled = lang.score(scrambled.as_slice(), ScoreSize::Quadgrams);
    assert!(s_plain > s_scrambled);
    assert!(s_plain <= 0);
}

#[test]
fn plugboard_swaps_pairs() {
    let lang = english();
    let mut board = classic_crypto::key::plugboard::Plugboard::identity(&lang);
    assert!(board.is_valid_plug(0, 4));
    board.add_plug(0, 4);
    assert_eq!(board.input(0), 4);
    assert_eq!(board.input(4), 0);
    assert_eq!(board.input(1), 1);
    assert!(board.is_existing_plug(0, 4));
    assert!(board.is_letter_used(0));
    assert!(!board.is_valid_plug(0, 5));
    board.del_plug(0, 4);
    assert_eq!(board.input(0), 0);
    for _ in 0..5 {
        board.randomize(&lang);
        for letter in 0..26i16 {
            let out = board.input(letter);
            assert_eq!(board.input(out), letter);
        }
    }
}

#[test]
fn fill_alphabet_matches_keyed_layout() {
    let key = vec![7i16, 4, 11, 11, 14];
    let expected_start = vec![
        7i16, 4, 11, 14, 0, 1, 2, 3, 5, 6, 8, 9, 10, 12, 13, 15, 16, 17, 18, 19, 20, 21, 22, 23,
        24, 25,
    ];
    assert_eq!(classic_crypto::util::fill_alphabet_from_start(&key, 26), expected_start);
    let expected_continue = vec![
        7i16, 4, 11, 14, 15, 16, 17, 18, 19, 20, 21, 22, 23, 24, 25, 0, 1, 2, 3, 5, 6, 8, 9, 10,
        12, 13,
    ];
    assert_eq!(classic_crypto::util::fill_alphabet_continue(&key, 26), expected_continue);
}

#[test]
fn util_arithmetic_matches_examples() {
    assert_eq!(classic_crypto::util::modulo(-10, 26), 16);
    assert_eq!(classic_crypto::util::gcd(24, 32), 8);
    let mmi = classic_crypto::util::mmi(11, 26).unwrap();
    assert_eq!((mmi * 11) % 26, 1);
    assert!(classic_crypto::util::mmi(13, 26).is_none());
    let (g, x, y) = classic_crypto::util::extended_gcd(11, 26);
    assert_eq!(g, 1);
    assert_eq!(11 * x + 26 * y, 1);
    assert!(classic_crypto::util::is_unique("Abca"));
    assert!(!classic_crypto::util::is_unique("abca"));
    let inv = classic_crypto::util::invert(&[2i16, 1, 3, 0, 4]);
    assert_eq!(inv, vec![3, 1, 0, 2, 4]);
    let order = classic_crypto::util::find_order(&[7i16, 4, 11, 11, 14]);
    assert_eq!(order, vec![1, 0, 2, 3, 4]);
    let mut v = vec![0i16; 10];
    classic_crypto::util::fill_consecutive_vec(&mut v, 0, 5);
    assert_eq!(v, vec![0, 1, 2, 3, 4, 0, 1, 2, 3, 4]);
}
