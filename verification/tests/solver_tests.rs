//! The key-recovery engines: exhaustive, algebraic, coordinate-ascent and
//! greedy.

use classic_crypto::alphabet::LangAlphabet;
use classic_crypto::cipher::affine::Affine;
use classic_crypto::cipher::caesar::Caesar;
use classic_crypto::cipher::classic_vig::ClassicVigenere;
use classic_crypto::cipher::simple_sub::SimpleSubstitution;
use classic_crypto::cipher::transpos::BlockTransposition;
use classic_crypto::cipher::transpos::ColumnTransposition;
use classic_crypto::key::number::Number;
use classic_crypto::lang::Language;
use classic_crypto::lang::ScoreSize;

const CORPUS: &str = "The quiet harbour town woke slowly under a pale morning \
sky. Fishermen carried their nets along the stone pier while gulls wheeled \
and called above the small boats. In the market square the baker set out \
warm loaves, and the smell of fresh bread drifted between the narrow houses. \
Children hurried to school past the old clock tower, whose bells had marked \
the hours for three hundred years. A merchant unloaded crates of apples and \
pears, stacking them carefully beside the fountain. Travellers who came \
through the valley often stopped here for a night, drawn by the warm light \
of the inn and the sound of singing that spilled from its windows. The river \
that turned the mill wheel ran clear and cold from the mountains, and in \
summer the meadows along its banks filled with flowers. Old people said the \
town had once been larger, before the road moved south, but those who stayed \
loved the place all the more for its stillness. Every evening the lamplighter \
walked his slow round, and one by one the little flames answered the coming \
dark. When winter arrived the roofs wore caps of snow, and the harbour froze \
at its edges, yet the fishermen still went out whenever the water allowed. \
Letters from distant cities arrived twice a week, bringing news of wars and \
weddings, of prices and promises, which the postmaster read aloud to anyone \
who asked. The teacher kept a small library behind the schoolroom, and on \
rainy afternoons the children read stories of voyages and buried treasure. \
So the seasons turned, patient and familiar, and the town kept its own time, \
measured not by clocks alone but by tides, harvests, and the long memory of \
its people.";

fn english() -> Language {
    let alphabet = LangAlphabet::new(
        String::from("ABCDEFGHIJKLMNOPQRSTUVWXYZ"),
        String::from("abcdefghijklmnopqrstuvwxyz"),
        vec![],
        vec![],
        (0..26).collect(),
    )
    .unwrap();
    Language::new(String::from("English"), 26, vec![alphabet], String::from(CORPUS)).unwrap()
}

#[test]
fn caesar_solver_recovers_shift_exactly() {
    let lang = english();
    let sample = &CORPUS[..260];
    for _ in 0..2 {
        let mut cipher = Caesar::new(&lang);
        cipher.shift.set(&lang, 7).unwrap();
        let ct = cipher.encrypt(&lang, sample);
        let mut solver = Caesar::new(&lang);
        solver.solve(&lang, &ct);
        assert_eq!(solver.shift.get(), 7);
    }
}

#[test]
fn caesar_round_trip() {
    let lang = english();
    let mut cipher = Caesar::new(&lang);
    cipher.shift.set(&lang, 3).unwrap();
    let ct = cipher.encrypt(&lang, "Attack at dawn!");
    assert_eq!(ct, "Dwwdfn dw gdzq!");
    assert_eq!(cipher.decrypt(&lang, &ct), "Attack at dawn!");
}

#[test]
fn affine_known_pair_is_exact() {
    let lang = english();
    let mut cipher = Affine {
        a: Number::new(&lang, 1).unwrap(),
        b: Number::new(&lang, 0).unwrap(),
    };
    // images of the plaintext pair (0, 1) under a=5, b=8 modulo 26
    let c0 = (5 * 0 + 8) % 26;
    let c1 = (5 * 1 + 8) % 26;
    cipher.solve_known_pair(&lang, 0, 1, c0, c1);
    assert_eq!(cipher.a.get(), 5);
    assert_eq!(cipher.b.get(), 8);
}

#[test]
fn affine_solver_recovers_key() {
    let lang = english();
    let sample = &CORPUS[..300];
    let mut cipher = Affine {
        a: Number::new(&lang, 1).unwrap(),
        b: Number::new(&lang, 0).unwrap(),
    };
    cipher.a.set(&lang, 5).unwrap();
    cipher.b.set(&lang, 8).unwrap();
    let ct = cipher.encrypt(&lang, sample);
    let mut solver = Affine {
        a: Number::new(&lang, 1).unwrap(),
        b: Number::new(&lang, 0).unwrap(),
    };
    solver.solve(&lang, &ct);
    assert_eq!(solver.a.get(), 5);
    assert_eq!(solver.b.get(), 8);
}

#[test]
fn affine_round_trip() {
    let lang = english();
    let mut cipher = Affine {
        a: Number::new(&lang, 1).unwrap(),
        b: Number::new(&lang, 0).unwrap(),
    };
    cipher.a.set(&lang, 3).unwrap();
    cipher.b.set(&lang, 7).unwrap();
    let msg = "The river turned the mill wheel.";
    let ct = cipher.encrypt(&lang, msg);
    assert_ne!(ct, msg);
    assert_eq!(cipher.decrypt(&lang, &ct), msg);
}

#[test]
fn vigenere_round_trip_and_solver() {
    let lang = english();
    let mut cipher = ClassicVigenere::new(&lang);
    cipher.keyword.set_str(&lang, "crane");
    let sample = &CORPUS[..180];
    let ct = cipher.encrypt(&lang, sample);
    assert_eq!(cipher.decrypt(&lang, &ct), sample);

    let mut solver = ClassicVigenere::new(&lang);
    solver.solve(&lang, &ct);
    // the recovered key decrypts at least as plausibly as the zero key
    let dec = solver.decrypt(&lang, &ct);
    let dec_cps = lang.string_to_vec(&dec);
    let ct_cps = lang.string_to_vec(&ct);
    let dec_score = lang.score(dec_cps.as_slice(), ScoreSize::Quadgrams);
    let ct_score = lang.score(ct_cps.as_slice(), ScoreSize::Quadgrams);
    assert!(dec_score >= ct_score);
}

#[test]
fn substitution_hill_climb_quality() {
    let lang = english();
    let sample = &CORPUS[..1260];
    let mut cipher = SimpleSubstitution::new(&lang);
    cipher
        .alphabet
        .set_str(&lang, "the quick brown fox jumps over a lazy dog")
        .unwrap();
    let ct = cipher.encrypt(&lang, sample);
    let mut solver = SimpleSubstitution::new(&lang);
    solver.solve(&lang, &ct);
    let dec = solver.decrypt(&lang, &ct);
    let dec_cps = lang.string_to_vec(&dec);
    let true_cps = lang.string_to_vec(sample);
    let dec_score = lang.score(dec_cps.as_slice(), ScoreSize::Quadgrams);
    let true_score = lang.score(true_cps.as_slice(), ScoreSize::Quadgrams);
    // heuristic quality bound: within a quarter of the true plaintext's
    // own score (both are negative log sums)
    assert!(dec_score >= true_score + true_score / 4, "{} vs {}", dec_score, true_score);
}

#[test]
fn substitution_round_trip() {
    let lang = english();
    let mut cipher = SimpleSubstitution::new(&lang);
    cipher.alphabet.set_str(&lang, "zebras").unwrap();
    let msg = "Meet me at the old clock tower.";
    let ct = cipher.encrypt(&lang, msg);
    assert_eq!(cipher.decrypt(&lang, &ct), msg);
}

#[test]
fn transposition_solver_yields_valid_order() {
    let lang = english();
    let sample = &CORPUS[..240];
    let mut solver = ColumnTransposition::new(&lang);
    solver.solve(&lang, sample);
    let l = solver.keyword.len();
    assert!((3..15).contains(&l));
    // the recovered order is a permutation
    let mut seen = vec![false; l];
    for k in 0..l {
        let v = solver.keyword.at(k) as usize;
        assert!(v < l);
        assert!(!seen[v]);
        seen[v] = true;
    }
}

#[test]
fn randomized_keys_stay_valid() {
    // these would fail if the random samples ever left their stated range
    let lang = english();
    for _ in 0..20 {
        let mut alph = classic_crypto::key::alphabet::Alphabet::identity(&lang);
        alph.randomize(&lang);
        let mut seen = vec![false; 26];
        for cp in 0..26i16 {
            let v = alph.encrypt(cp) as usize;
            assert!(v < 26);
            assert!(!seen[v]);
            seen[v] = true;
        }
        let mut n = Number::new(&lang, 0).unwrap();
        n.randomize(&lang);
        assert!((0..26).contains(&n.get()));
        let mut kw = classic_crypto::key::keyword::Keyword::identity(&lang);
        kw.randomize(&lang);
        assert!((3..12).contains(&kw.len()));
    }
}

#[test]
fn atbash_and_rot_are_involutions() {
    let lang = english();
    let atbash = classic_crypto::cipher::atbash::Atbash {};
    let msg = "Silent rivers keep old secrets.";
    let once = atbash.run(&lang, msg);
    assert_eq!(atbash.run(&lang, &once), msg);
    let rot = classic_crypto::cipher::rot13::Rot13 {};
    let once = rot.run(&lang, msg);
    assert_eq!(rot.run(&lang, &once), msg);
}

#[test]
fn beaufort_and_porta_are_reciprocal() {
    let lang = english();
    let msg = "The lamplighter walked his slow round.";
    let mut beaufort = classic_crypto::cipher::beaufort::Beaufort::new(&lang);
    beaufort.keyword.set_str(&lang, "tide");
    let once = beaufort.run(&lang, msg);
    assert_eq!(beaufort.run(&lang, &once), msg);

    let mut porta = classic_crypto::cipher::porta::Porta::new(&lang);
    porta.keyword.set_str(&lang, "tide");
    let once = porta.run(&lang, msg);
    assert_eq!(porta.run(&lang, &once), msg);

    let mut bellaso = classic_crypto::cipher::bellaso::Bellaso::new(&lang);
    bellaso.keyword.set_str(&lang, "tide");
    let once = bellaso.run(&lang, msg);
    assert_eq!(bellaso.run(&lang, &once), msg);
}

#[test]
fn autokey_round_trip() {
    let lang = english();
    let mut cipher = classic_crypto::cipher::autokey::Autokey::new(&lang);
    cipher.keyword.set_str(&lang, "lamp");
    let msg = "Letters from distant cities arrived twice a week.";
    let ct = cipher.encrypt(&lang, msg);
    assert_ne!(ct, msg);
    assert_eq!(cipher.decrypt(&lang, &ct), msg);
}

#[test]
fn column_transposition_round_trip() {
    let lang = english();
    let mut cipher = ColumnTransposition::new(&lang);
    cipher.keyword.set_str(&lang, "zebra");
    // thirty letters: a multiple of the keyword length, so no lossy tail
    let msg = "Meet me at the old clock tower at noon";
    let ct = cipher.encrypt(&lang, msg);
    assert_ne!(ct, msg);
    assert_eq!(cipher.decrypt(&lang, &ct), msg);
}

#[test]
fn block_transposition_known_value() {
    let lang = english();
    let mut cipher = BlockTransposition::new(&lang);
    cipher.keyword.set_str(&lang, "bad");
    // order of "bad" is [1, 0, 2]: each row of three swaps its first two cells
    let ct = cipher.encrypt(&lang, "abcdef");
    assert_eq!(ct, "bacedf");
    assert_eq!(cipher.decrypt(&lang, "bacedf"), "abcdef");
}
