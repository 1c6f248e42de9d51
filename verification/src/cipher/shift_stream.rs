//! The generalized shift-stream solver serving the Vigenere family. One
//! coordinate-ascent engine recovers a shift keyword for any cipher of the
//! family, parameterized by the tableau's single-symbol decryption function
//! and by how the key stream extends: repeating cyclically, or extending
//! itself from the recovered plaintext (autokey).

use vstd::prelude::*;

use crate::lang::Language;
use crate::lang::ScoreSize;

verus! {

/// How the key stream continues past the keyword.
pub enum KeySchedule {
    /// The keyword repeats cyclically.
    Repeating,
    /// After the keyword, the key stream is the recovered plaintext itself.
    SelfExtending,
}

/// The full decryption of `ct` under a key of length `l`, as the solver
/// computes it: position `idx` uses the key entry of its column, or — for a
/// self-extending stream past the keyword — the recovered first-row symbol
/// of its column.
pub open spec fn stream_decrypt(
    g: spec_fn(i16, i16) -> i16,
    schedule: KeySchedule,
    ct: Seq<i16>,
    key: Seq<i16>,
) -> Seq<i16> {
    let l = key.len() as int;
    Seq::new(
        ct.len(),
        |idx: int|
            match schedule {
                KeySchedule::Repeating => g(ct[idx], key[idx % l]),
                KeySchedule::SelfExtending => if idx < l {
                    g(ct[idx], key[idx])
                } else {
                    g(ct[idx], g(ct[idx % l], key[idx % l]))
                },
            },
    )
}

/// Updating one column of a consistent decryption with a trial shift.
pub open spec fn column_trial(
    g: spec_fn(i16, i16) -> i16,
    schedule: KeySchedule,
    ct: Seq<i16>,
    p: Seq<i16>,
    s: i16,
    col: int,
    l: int,
) -> Seq<i16> {
    Seq::new(
        ct.len(),
        |idx: int|
            if idx % l == col {
                match schedule {
                    KeySchedule::Repeating => g(ct[idx], s),
                    KeySchedule::SelfExtending => if idx < l {
                        g(ct[idx], s)
                    } else {
                        g(ct[idx], g(ct[col], s))
                    },
                }
            } else {
                p[idx]
            },
    )
}

/// Replacing a column's key entry by a trial shift turns the consistent
/// decryption into the decryption under the updated key.
pub proof fn lemma_column_trial_updates(
    g: spec_fn(i16, i16) -> i16,
    schedule: KeySchedule,
    ct: Seq<i16>,
    key: Seq<i16>,
    s: i16,
    col: int,
)
    requires
        0 <= col < key.len(),
    ensures
        column_trial(g, schedule, ct, stream_decrypt(g, schedule, ct, key), s, col, key.len() as int)
            == stream_decrypt(g, schedule, ct, key.update(col, s)),
{
    let l = key.len() as int;
    let lhs = column_trial(g, schedule, ct, stream_decrypt(g, schedule, ct, key), s, col, l);
    let rhs = stream_decrypt(g, schedule, ct, key.update(col, s));
    assert forall|idx: int| 0 <= idx < ct.len() implies lhs[idx] == rhs[idx] by {
        vstd::arithmetic::div_mod::lemma_mod_division_less_than_divisor(idx, l);
        if 0 <= idx < l {
            vstd::arithmetic::div_mod::lemma_small_mod(idx as nat, l as nat);
        }
    }
    assert(lhs =~= rhs);
}

/// Runs one trial of a column shift in place, leaving the buffer equal to
/// `column_trial` of its previous contents.
#[allow(unused_variables)]
fn apply_column<F: Fn(i16, i16) -> i16>(
    decrypt_one: &F,
    schedule: &KeySchedule,
    ct: &[i16],
    plaintext: &mut Vec<i16>,
    s: i16,
    col: usize,
    l: usize,
    lang_len: Ghost<int>,
    Ghost(g): Ghost<spec_fn(i16, i16) -> i16>,
)
    requires
        0 < l <= ct@.len(),
        col < l,
        0 <= s < 32,
        old(plaintext).len() == ct@.len(),
        ct@.len() <= 0x100000,
        forall|j: int| 0 <= j < ct@.len() ==> 0 <= #[trigger] ct@[j] < 32,
        forall|j: int| 0 <= j < old(plaintext)@.len() ==> 0 <= #[trigger] old(plaintext)@[j] < 32,
        forall|x: i16, sh: i16| 0 <= x < 32 && 0 <= sh < 32 ==> call_requires(*decrypt_one, (x, sh)),
        forall|x: i16, sh: i16, y: i16|
            call_ensures(*decrypt_one, (x, sh), y) ==> (0 <= y < lang_len@ && y == g(x, sh)),
        0 < lang_len@ <= 32,
    ensures
        final(plaintext)@ == column_trial(g, *schedule, ct@, old(plaintext)@, s, col as int, l as int),
        final(plaintext).len() == old(plaintext).len(),
        forall|j: int| 0 <= j < final(plaintext)@.len() ==> 0 <= #[trigger] final(plaintext)@[j] < 32,
        forall|j: int|
            0 <= j < final(plaintext)@.len() && j % (l as int) == col as int ==> 0 <= #[trigger] final(plaintext)@[j] < lang_len@,
{
    let ghost p0 = plaintext@;
    let ghost target = column_trial(g, *schedule, ct@, p0, s, col as int, l as int);
    let n = ct.len();
    proof {
        vstd::arithmetic::div_mod::lemma_small_mod(col as nat, l as nat);
        vstd::arithmetic::div_mod::lemma_small_mod(0nat, l as nat);
        assert forall|j: int|
            0 <= j < n && (j < col || j % (l as int) != col as int) implies #[trigger] plaintext@[j]
            == target[j] by {
            vstd::arithmetic::div_mod::lemma_mod_division_less_than_divisor(j, l as int);
            if 0 <= j < l {
                vstd::arithmetic::div_mod::lemma_small_mod(j as nat, l as nat);
            }
        }
        assert forall|j: int| 0 <= j < n && j < col implies #[trigger] (j % (l as int)) != col as int by {
            if 0 <= j < l {
                vstd::arithmetic::div_mod::lemma_small_mod(j as nat, l as nat);
            }
        }
    }
    let mut idx: usize = col;
    while idx < n
        invariant
            0 < l <= n,
            col < l,
            0 <= s < 32,
            n == ct@.len() <= 0x100000,
            plaintext.len() == n,
            idx % l == col || idx >= n,
            col <= idx,
            idx <= n + l,
            (idx - col) % (l as int) == 0,
            forall|j: int| 0 <= j < ct@.len() ==> 0 <= #[trigger] ct@[j] < 32,
            forall|x: i16, sh: i16|
                0 <= x < 32 && 0 <= sh < 32 ==> call_requires(*decrypt_one, (x, sh)),
            forall|x: i16, sh: i16, y: i16|
                call_ensures(*decrypt_one, (x, sh), y) ==> (0 <= y < lang_len@ && y == g(x, sh)),
            0 < lang_len@ <= 32,
            target == column_trial(g, *schedule, ct@, p0, s, col as int, l as int),
            forall|j: int| 0 <= j < n && (j < idx || j % (l as int) != col as int) ==> #[trigger] plaintext@[j] == target[j],
            forall|j: int| 0 <= j < n && j >= idx ==> #[trigger] plaintext@[j] == p0[j],
            forall|j: int| 0 <= j < plaintext@.len() ==> 0 <= #[trigger] plaintext@[j] < 32,
            forall|j: int|
                0 <= j < n && j < idx && j % (l as int) == col as int ==> 0 <= #[trigger] plaintext@[j] < lang_len@,
        decreases n + l - idx,
    {
        proof {
            vstd::arithmetic::div_mod::lemma_mod_division_less_than_divisor(idx as int, l as int);
            vstd::arithmetic::div_mod::lemma_small_mod(col as nat, l as nat);
            if idx < l {
                vstd::arithmetic::div_mod::lemma_small_mod(idx as nat, l as nat);
            }
            if idx >= l {
                assert(col < idx);
                assert(plaintext@[col as int] == target[col as int]);
            }
        }
        let shift: i16 = match schedule {
            KeySchedule::Repeating => s,
            KeySchedule::SelfExtending => {
                if idx < l {
                    s
                } else {
                    plaintext[col]
                }
            },
        };
        let y = decrypt_one(ct[idx], shift);
        plaintext.set(idx, y);
        proof {
            assert(plaintext@[idx as int] == target[idx as int]);
            assert forall|j: int|
                0 <= j < n && (idx as int) < j < idx + l implies #[trigger] (j % (l as int))
                != col as int by {
                vstd::arithmetic::div_mod::lemma_sub_mod_noop(j, idx as int, l as int);
                vstd::arithmetic::div_mod::lemma_small_mod((j - idx) as nat, l as nat);
                vstd::arithmetic::div_mod::lemma_small_mod(0nat, l as nat);
                if j % (l as int) == col as int {
                    assert((j % (l as int) - (idx as int) % (l as int)) % (l as int) == (j - idx)
                        % (l as int));
                    assert(false);
                }
            }
            assert((idx + l - col) % (l as int) == 0) by {
                vstd::arithmetic::div_mod::lemma_mod_adds(
                    (idx - col) as int,
                    l as int,
                    l as int,
                );
                vstd::arithmetic::div_mod::lemma_mod_self_0(l as int);
                vstd::arithmetic::div_mod::lemma_mod_twice((idx - col) as int, l as int);
            }
            assert((idx + l) % (l as int) == col as int) by {
                vstd::arithmetic::div_mod::lemma_mod_adds(idx as int, l as int, l as int);
                vstd::arithmetic::div_mod::lemma_mod_self_0(l as int);
                vstd::arithmetic::div_mod::lemma_mod_twice(idx as int, l as int);
            }
        }
        idx = idx + l;
    }
    proof {
        assert(plaintext@ =~= target);
    }
}

/// The quadgram score of the decryption of `ct` under `key`.
pub open spec fn key_score(
    lang: Language,
    g: spec_fn(i16, i16) -> i16,
    schedule: KeySchedule,
    ct: Seq<i16>,
    key: Seq<i16>,
) -> int {
    lang.spec_score_of(stream_decrypt(g, schedule, ct, key), ScoreSize::Quadgrams)
}

/// How many trial shifts a tableau's step width yields: the shifts
/// 0, inc, 2*inc, ... below 26.
pub open spec fn trial_count(inc: int) -> int {
    if inc == 1 {
        26
    } else {
        13
    }
}

/// The choice one column makes after `steps` trials: starting from the
/// column's current entry and the running best score, each trial shift
/// replaces the pair only on a strict improvement, so ties keep the
/// earliest shift.
pub open spec fn column_choice(
    lang: Language,
    g: spec_fn(i16, i16) -> i16,
    schedule: KeySchedule,
    ct: Seq<i16>,
    key: Seq<i16>,
    col: int,
    inc: int,
    curr: int,
    steps: int,
) -> (i16, int)
    decreases steps,
{
    if steps <= 0 {
        (key[col], curr)
    } else {
        let prev = column_choice(lang, g, schedule, ct, key, col, inc, curr, steps - 1);
        let s = ((steps - 1) * inc) as i16;
        let sc = key_score(lang, g, schedule, ct, key.update(col, s));
        if sc > prev.1 {
            (s, sc)
        } else {
            prev
        }
    }
}

/// One full sweep over the first `cols` columns: each column in turn keeps
/// its best trial shift, and the running best score carries across
/// columns.
pub open spec fn sweep_choice(
    lang: Language,
    g: spec_fn(i16, i16) -> i16,
    schedule: KeySchedule,
    ct: Seq<i16>,
    key: Seq<i16>,
    inc: int,
    curr: int,
    cols: int,
) -> (Seq<i16>, int)
    decreases cols,
{
    if cols <= 0 {
        (key, curr)
    } else {
        let prev = sweep_choice(lang, g, schedule, ct, key, inc, curr, cols - 1);
        let choice = column_choice(
            lang,
            g,
            schedule,
            ct,
            prev.0,
            cols - 1,
            inc,
            prev.1,
            trial_count(inc),
        );
        (prev.0.update(cols - 1, choice.0), choice.1)
    }
}

/// Sweeping to convergence: sweeps repeat until one gains less than a
/// tenth of a log unit over the score before it. The fuel only bounds the
/// recursion; every run of the solver converges well within it, since each
/// continuing sweep gains at least the tolerance and scores never exceed
/// zero.
pub open spec fn ascend_choice(
    lang: Language,
    g: spec_fn(i16, i16) -> i16,
    schedule: KeySchedule,
    ct: Seq<i16>,
    key: Seq<i16>,
    inc: int,
    curr: int,
    fuel: int,
) -> (Seq<i16>, int)
    decreases fuel,
{
    if fuel <= 0 {
        (key, curr)
    } else {
        let sw = sweep_choice(lang, g, schedule, ct, key, inc, curr, key.len() as int);
        if curr != i64::MIN && sw.1 - curr < 6554 {
            sw
        } else {
            ascend_choice(lang, g, schedule, ct, sw.0, inc, sw.1, fuel - 1)
        }
    }
}

/// The recursion bound for `ascend_choice`: ample for any score the model
/// can produce.
pub open spec fn ascend_fuel() -> int {
    0x1000000000000
}

/// The all-zero key of a given length.
pub open spec fn zero_key(l: int) -> Seq<i16> {
    Seq::new(l as nat, |j: int| 0i16)
}

/// What the solver returns: over the key lengths `1..=len_max`, the
/// converged coordinate-ascent key with the best score; ties keep the
/// first (shortest) length.
pub open spec fn solve_choice(
    lang: Language,
    g: spec_fn(i16, i16) -> i16,
    schedule: KeySchedule,
    ct: Seq<i16>,
    inc: int,
    len_max: int,
) -> (Seq<i16>, int)
    decreases len_max,
{
    if len_max <= 0 {
        (Seq::empty(), i64::MIN as int)
    } else {
        let prev = solve_choice(lang, g, schedule, ct, inc, len_max - 1);
        let first = sweep_choice(
            lang,
            g,
            schedule,
            ct,
            zero_key(len_max),
            inc,
            i64::MIN as int,
            len_max,
        );
        let asc = ascend_choice(
            lang,
            g,
            schedule,
            ct,
            first.0,
            inc,
            first.1,
            ascend_fuel(),
        );
        if asc.1 > prev.1 {
            asc
        } else {
            prev
        }
    }
}

/// One full coordinate-ascent sweep: every column in turn tries every shift
/// of the tableau's domain and keeps the best. The tracked score never
/// decreases across a sweep — the coordinate-ascent invariant — and on exit
/// it is exactly the score of the decryption under the updated key.
#[allow(unused_variables)]
pub fn vig_sweep<F: Fn(i16, i16) -> i16>(
    decrypt_one: &F,
    schedule: &KeySchedule,
    shift_inc: usize,
    language: &Language,
    ct: &[i16],
    key: &mut Vec<i16>,
    plaintext: &mut Vec<i16>,
    curr_score: i64,
    Ghost(g): Ghost<spec_fn(i16, i16) -> i16>,
) -> (r: i64)
    requires
        language.wf(),
        1 <= shift_inc <= 2,
        0 < old(key).len() <= ct@.len(),
        ct@.len() <= 0x100000,
        forall|j: int| 0 <= j < ct@.len() ==> 0 <= #[trigger] ct@[j] < 32,
        forall|j: int| 0 <= j < old(key)@.len() ==> 0 <= #[trigger] old(key)@[j] < 26,
        old(plaintext)@ == stream_decrypt(g, *schedule, ct@, old(key)@),
        old(plaintext).len() == ct@.len(),
        forall|j: int|
            0 <= j < old(plaintext)@.len() ==> 0 <= #[trigger] old(plaintext)@[j]
                < language.alph().spec_length(),
        forall|x: i16, sh: i16| 0 <= x < 32 && 0 <= sh < 32 ==> call_requires(*decrypt_one, (x, sh)),
        forall|x: i16, sh: i16, y: i16|
            call_ensures(*decrypt_one, (x, sh), y) ==> (0 <= y < language.alph().spec_length() && y
                == g(x, sh)),
        curr_score == i64::MIN || curr_score == language.spec_score_of(
            old(plaintext)@,
            ScoreSize::Quadgrams,
        ),
        curr_score <= 0,
        curr_score == i64::MIN || curr_score >= -0x10000000000 * (ct@.len() as int),
        forall|j: int|
            0 <= j < old(key)@.len() ==> #[trigger] old(key)@[j] % (shift_inc as i16) == 0,
    ensures
        r >= curr_score,
        r == language.spec_score_of(final(plaintext)@, ScoreSize::Quadgrams),
        r <= 0,
        r > i64::MIN,
        r >= -0x10000000000 * (ct@.len() as int),
        final(key).len() == old(key).len(),
        forall|j: int| 0 <= j < final(key)@.len() ==> 0 <= #[trigger] final(key)@[j] < 26,
        forall|j: int|
            0 <= j < final(key)@.len() ==> #[trigger] final(key)@[j] % (shift_inc as i16) == 0,
        final(plaintext)@ == stream_decrypt(g, *schedule, ct@, final(key)@),
        final(plaintext).len() == ct@.len(),
        forall|j: int|
            0 <= j < final(plaintext)@.len() ==> 0 <= #[trigger] final(plaintext)@[j]
                < language.alph().spec_length(),
        (final(key)@, r as int) == sweep_choice(
            *language,
            g,
            *schedule,
            ct@,
            old(key)@,
            shift_inc as int,
            curr_score as int,
            old(key)@.len() as int,
        ),
{
    let l = key.len();
    let ghost lang_len = language.alph().spec_length();
    let mut curr: i64 = curr_score;
    let mut col: usize = 0;
    while col < l
        invariant
            language.wf(),
            lang_len == language.alph().spec_length(),
            1 <= shift_inc <= 2,
            col <= l,
            0 < l == key.len() <= ct@.len(),
            ct@.len() <= 0x100000,
            forall|j: int| 0 <= j < ct@.len() ==> 0 <= #[trigger] ct@[j] < 32,
            forall|j: int| 0 <= j < key@.len() ==> 0 <= #[trigger] key@[j] < 26,
            plaintext@ == stream_decrypt(g, *schedule, ct@, key@),
            plaintext.len() == ct@.len(),
            forall|j: int|
                0 <= j < plaintext@.len() ==> 0 <= #[trigger] plaintext@[j] < lang_len,
            forall|x: i16, sh: i16|
                0 <= x < 32 && 0 <= sh < 32 ==> call_requires(*decrypt_one, (x, sh)),
            forall|x: i16, sh: i16, y: i16|
                call_ensures(*decrypt_one, (x, sh), y) ==> (0 <= y < lang_len && y == g(x, sh)),
            curr >= curr_score,
            curr <= 0 || curr == i64::MIN,
            curr == i64::MIN || curr == language.spec_score_of(plaintext@, ScoreSize::Quadgrams),
            curr == i64::MIN || curr >= -0x10000000000 * (ct@.len() as int),
            col > 0 ==> curr > i64::MIN,
            forall|j: int| 0 <= j < key@.len() ==> #[trigger] key@[j] % (shift_inc as i16) == 0,
            (key@, curr as int) == sweep_choice(
                *language,
                g,
                *schedule,
                ct@,
                old(key)@,
                shift_inc as int,
                curr_score as int,
                col as int,
            ),
        decreases l - col,
    {
        let ghost entering_key = key@;
        let ghost entering_p = plaintext@;
        let ghost entering_curr = curr as int;
        let mut best_shift: i16 = key[col];
        proof {
            assert(entering_key.update(col as int, best_shift) =~= entering_key);
        }
        let ghost mut tstep: int = 0;
        let mut s: i16 = 0;
        while s < 26
            invariant
                language.wf(),
                lang_len == language.alph().spec_length(),
                1 <= shift_inc <= 2,
                col < l,
                0 <= s <= 27,
                0 < l == key.len() <= ct@.len(),
                ct@.len() <= 0x100000,
                key@ == entering_key,
                forall|j: int| 0 <= j < ct@.len() ==> 0 <= #[trigger] ct@[j] < 32,
                forall|j: int| 0 <= j < key@.len() ==> 0 <= #[trigger] key@[j] < 26,
                0 <= best_shift < 26,
                entering_p == stream_decrypt(g, *schedule, ct@, entering_key),
                entering_p.len() == ct@.len(),
                forall|j: int|
                    0 <= j < entering_p.len() ==> 0 <= #[trigger] entering_p[j] < lang_len,
                plaintext.len() == ct@.len(),
                forall|j: int|
                    0 <= j < plaintext@.len() && j % (l as int) != col as int
                        ==> #[trigger] plaintext@[j] == entering_p[j],
                forall|j: int|
                    0 <= j < plaintext@.len() ==> 0 <= #[trigger] plaintext@[j] < 32,
                forall|x: i16, sh: i16|
                    0 <= x < 32 && 0 <= sh < 32 ==> call_requires(*decrypt_one, (x, sh)),
                forall|x: i16, sh: i16, y: i16|
                    call_ensures(*decrypt_one, (x, sh), y) ==> (0 <= y < lang_len && y == g(
                        x,
                        sh,
                    )),
                curr >= curr_score,
                curr <= 0 || curr == i64::MIN,
                curr == i64::MIN || curr == language.spec_score_of(
                    stream_decrypt(g, *schedule, ct@, entering_key.update(col as int, best_shift)),
                    ScoreSize::Quadgrams,
                ),
                curr == i64::MIN || curr >= -0x10000000000 * (ct@.len() as int),
                (s > 0 || col > 0) ==> curr > i64::MIN,
                s == tstep * (shift_inc as int),
                0 <= tstep <= trial_count(shift_inc as int),
                s < 26 ==> tstep < trial_count(shift_inc as int),
                s >= 26 ==> tstep == trial_count(shift_inc as int),
                best_shift % (shift_inc as i16) == 0,
                forall|j: int|
                    0 <= j < key@.len() ==> #[trigger] key@[j] % (shift_inc as i16) == 0,
                entering_curr >= curr_score,
                entering_curr <= 0 || entering_curr == i64::MIN,
                (best_shift, curr as int) == column_choice(
                    *language,
                    g,
                    *schedule,
                    ct@,
                    entering_key,
                    col as int,
                    shift_inc as int,
                    entering_curr,
                    tstep,
                ),
            decreases 27 - s,
        {
            let ghost before_trial = plaintext@;
            apply_column(
                decrypt_one,
                schedule,
                ct,
                plaintext,
                s,
                col,
                l,
                Ghost(lang_len),
                Ghost(g),
            );
            proof {
                assert(column_trial(g, *schedule, ct@, before_trial, s, col as int, l as int)
                    =~= column_trial(g, *schedule, ct@, entering_p, s, col as int, l as int));
                lemma_column_trial_updates(g, *schedule, ct@, entering_key, s, col as int);
                assert forall|j: int|
                    0 <= j < plaintext@.len() implies 0 <= #[trigger] plaintext@[j]
                    < lang_len by {
                    if j % (l as int) != col as int {
                        assert(plaintext@[j] == entering_p[j]);
                    }
                }
            }
            let score = language.score(plaintext.as_slice(), ScoreSize::Quadgrams);
            proof {
                assert(score as int == key_score(
                    *language,
                    g,
                    *schedule,
                    ct@,
                    entering_key.update(col as int, s as i16),
                ));
                assert((tstep + 1 - 1) * (shift_inc as int) == s);
                assert(column_choice(
                    *language,
                    g,
                    *schedule,
                    ct@,
                    entering_key,
                    col as int,
                    shift_inc as int,
                    entering_curr,
                    tstep + 1,
                ) == (if score as int > curr as int {
                    (s as i16, score as int)
                } else {
                    (best_shift, curr as int)
                }));
            }
            if score > curr {
                curr = score;
                best_shift = s;
            }
            proof {
                tstep = tstep + 1;
                if s + shift_inc < 26 {
                    assert(tstep < trial_count(shift_inc as int)) by (nonlinear_arith)
                        requires
                            (s as int) + shift_inc < 26,
                            s == (tstep - 1) * (shift_inc as int),
                            1 <= shift_inc <= 2,
                            trial_count(shift_inc as int) == if shift_inc == 1 {
                                26int
                            } else {
                                13int
                            },
                    ;
                }
                if s + shift_inc >= 26 {
                    assert(tstep == trial_count(shift_inc as int)) by (nonlinear_arith)
                        requires
                            (s as int) + shift_inc >= 26,
                            s < 26,
                            s == (tstep - 1) * (shift_inc as int),
                            1 <= shift_inc <= 2,
                            (s as int) % (shift_inc as int) == 0,
                            trial_count(shift_inc as int) == if shift_inc == 1 {
                                26int
                            } else {
                                13int
                            },
                    ;
                }
                vstd::arithmetic::div_mod::lemma_mod_multiples_basic(
                    tstep,
                    shift_inc as int,
                );
            }
            s = s + shift_inc as i16;
        }
        let ghost before_final = plaintext@;
        apply_column(
            decrypt_one,
            schedule,
            ct,
            plaintext,
            best_shift,
            col,
            l,
            Ghost(lang_len),
            Ghost(g),
        );
        key.set(col, best_shift);
        proof {
            assert(column_trial(g, *schedule, ct@, before_final, best_shift, col as int, l as int)
                =~= column_trial(
                g,
                *schedule,
                ct@,
                entering_p,
                best_shift,
                col as int,
                l as int,
            ));
            lemma_column_trial_updates(g, *schedule, ct@, entering_key, best_shift, col as int);
            assert(key@ == entering_key.update(col as int, best_shift));
            assert forall|j: int|
                0 <= j < plaintext@.len() implies 0 <= #[trigger] plaintext@[j] < lang_len by {
                if j % (l as int) != col as int {
                    assert(plaintext@[j] == entering_p[j]);
                }
            }
            if curr == i64::MIN {
                assert(false);
            }
            assert((key@, curr as int) == sweep_choice(
                *language,
                g,
                *schedule,
                ct@,
                old(key)@,
                shift_inc as int,
                curr_score as int,
                col as int + 1,
            ));
        }
        col = col + 1;
    }
    curr
}

/// Solves a shift-stream cipher: for every candidate key length up to 30,
/// coordinate-ascends a zero key to a local optimum, sweeping until the
/// score improvement falls below a tenth of a log unit, and keeps the
/// best-scoring key over all lengths; ties keep the first (shortest) key.
#[allow(unused_variables)]
pub fn vig_solve<F: Fn(i16, i16) -> i16>(
    ciphertext: &[i16],
    shift_inc: usize,
    language: &Language,
    decrypt_one: F,
    schedule: KeySchedule,
    Ghost(g): Ghost<spec_fn(i16, i16) -> i16>,
) -> (r: Vec<i16>)
    requires
        language.wf(),
        1 <= shift_inc <= 2,
        ct_in_range(ciphertext@, language.alph().spec_length()),
        ciphertext@.len() <= 0x100000,
        forall|x: i16, sh: i16| 0 <= x < 32 && 0 <= sh < 32 ==> call_requires(decrypt_one, (x, sh)),
        forall|x: i16, sh: i16, y: i16|
            call_ensures(decrypt_one, (x, sh), y) ==> (0 <= y < language.alph().spec_length() && y
                == g(x, sh)),
    ensures
        ciphertext@.len() == 0 ==> r@.len() == 0,
        ciphertext@.len() > 0 ==> 1 <= r@.len() <= 30 && r@.len() <= ciphertext@.len(),
        forall|j: int| 0 <= j < r@.len() ==> 0 <= #[trigger] r@[j] < 26,
        forall|j: int| 0 <= j < r@.len() ==> #[trigger] r@[j] % (shift_inc as i16) == 0,
        r@ == solve_choice(
            *language,
            g,
            schedule,
            ciphertext@,
            shift_inc as int,
            (if ciphertext@.len() < 30 {
                ciphertext@.len() as int
            } else {
                30
            }),
        ).0,
{
    let n = ciphertext.len();
    let max_len: usize = if n < 30 {
        n
    } else {
        30
    };
    let mut best_key: Vec<i16> = Vec::new();
    let mut best_score: i64 = i64::MIN;
    let mut key_len: usize = 1;
    while key_len <= max_len
        invariant
            language.wf(),
            1 <= shift_inc <= 2,
            1 <= key_len <= max_len + 1,
            max_len <= n,
            max_len <= 30,
            n == ciphertext@.len() <= 0x100000,
            n < 30 ==> max_len == n,
            n >= 30 ==> max_len == 30,
            ct_in_range(ciphertext@, language.alph().spec_length()),
            forall|x: i16, sh: i16|
                0 <= x < 32 && 0 <= sh < 32 ==> call_requires(decrypt_one, (x, sh)),
            forall|x: i16, sh: i16, y: i16|
                call_ensures(decrypt_one, (x, sh), y) ==> (0 <= y
                    < language.alph().spec_length() && y == g(x, sh)),
            key_len == 1 ==> best_key@.len() == 0 && best_score == i64::MIN,
            key_len > 1 ==> 1 <= best_key@.len() <= 30 && best_key@.len() <= n,
            forall|j: int| 0 <= j < best_key@.len() ==> 0 <= #[trigger] best_key@[j] < 26,
            forall|j: int|
                0 <= j < best_key@.len() ==> #[trigger] best_key@[j] % (shift_inc as i16) == 0,
            (best_key@, best_score as int) == solve_choice(
                *language,
                g,
                schedule,
                ciphertext@,
                shift_inc as int,
                key_len as int - 1,
            ),
        decreases max_len + 1 - key_len,
    {
        let mut key: Vec<i16> = Vec::new();
        let mut k: usize = 0;
        while k < key_len
            invariant
                k <= key_len,
                key@.len() == k,
                forall|j: int| 0 <= j < k ==> #[trigger] key@[j] == 0,
            decreases key_len - k,
        {
            key.push(0);
            k = k + 1;
        }
        let mut plaintext: Vec<i16> = Vec::new();
        let mut k2: usize = 0;
        while k2 < n
            invariant
                k2 <= n,
                plaintext@.len() == k2,
                forall|j: int| 0 <= j < k2 ==> #[trigger] plaintext@[j] == 0,
            decreases n - k2,
        {
            plaintext.push(0);
            k2 = k2 + 1;
        }
        // establish the decryption under the zero key, column by column
        let mut col: usize = 0;
        while col < key_len
            invariant
                language.wf(),
                col <= key_len,
                0 < key_len <= n,
                n == ciphertext@.len() <= 0x100000,
                key@.len() == key_len,
                forall|j: int| 0 <= j < key_len ==> #[trigger] key@[j] == 0,
                ct_in_range(ciphertext@, language.alph().spec_length()),
                plaintext.len() == n,
                forall|x: i16, sh: i16|
                    0 <= x < 32 && 0 <= sh < 32 ==> call_requires(decrypt_one, (x, sh)),
                forall|x: i16, sh: i16, y: i16|
                    call_ensures(decrypt_one, (x, sh), y) ==> (0 <= y
                        < language.alph().spec_length() && y == g(x, sh)),
                forall|j: int|
                    0 <= j < plaintext@.len() ==> 0 <= #[trigger] plaintext@[j] < 32,
                forall|j: int|
                    0 <= j < n && j % (key_len as int) < col ==> #[trigger] plaintext@[j]
                        == stream_decrypt(g, schedule, ciphertext@, key@)[j] && 0 <= plaintext@[j]
                        < language.alph().spec_length(),
            decreases key_len - col,
        {
            let ghost before = plaintext@;
            apply_column(
                &decrypt_one,
                &schedule,
                ciphertext,
                &mut plaintext,
                0,
                col,
                key_len,
                Ghost(language.alph().spec_length()),
                Ghost(g),
            );
            proof {
                let l = key_len as int;
                assert forall|j: int|
                    0 <= j < n && j % l < col + 1 implies #[trigger] plaintext@[j]
                    == stream_decrypt(g, schedule, ciphertext@, key@)[j] && 0 <= plaintext@[j]
                    < language.alph().spec_length() by {
                    vstd::arithmetic::div_mod::lemma_mod_division_less_than_divisor(j, l);
                    if 0 <= j < l {
                        vstd::arithmetic::div_mod::lemma_small_mod(j as nat, l as nat);
                    }
                    vstd::arithmetic::div_mod::lemma_small_mod(col as nat, l as nat);
                    if j % l == col {
                        assert(plaintext@[j] == column_trial(
                            g,
                            schedule,
                            ciphertext@,
                            before,
                            0,
                            col as int,
                            l,
                        )[j]);
                        assert(key@[j % l] == 0);
                    } else {
                        assert(plaintext@[j] == before[j]);
                    }
                }
            }
            col = col + 1;
        }
        proof {
            assert(plaintext@ =~= stream_decrypt(g, schedule, ciphertext@, key@));
            assert(key@ =~= zero_key(key_len as int));
            assert forall|j: int|
                0 <= j < key@.len() implies #[trigger] key@[j] % (shift_inc as i16) == 0 by {
                assert(key@[j] == 0);
            }
        }
        // coordinate-ascend to a local optimum
        let mut curr: i64 = vig_sweep(
            &decrypt_one,
            &schedule,
            shift_inc,
            language,
            ciphertext,
            &mut key,
            &mut plaintext,
            i64::MIN,
            Ghost(g),
        );
        let ghost asc_target = ascend_choice(
            *language,
            g,
            schedule,
            ciphertext@,
            key@,
            shift_inc as int,
            curr as int,
            ascend_fuel(),
        );
        let ghost mut fuel_left: int = ascend_fuel();
        let mut done = false;
        proof {
            assert((0 - curr) / 6554 <= 0x1000000000000000int / 6554) by {
                vstd::arithmetic::div_mod::lemma_div_is_ordered(
                    0 - curr,
                    0x1000000000000000int,
                    6554,
                );
            }
        }
        while !done
            invariant
                language.wf(),
                1 <= shift_inc <= 2,
                0 < key_len <= n,
                n == ciphertext@.len() <= 0x100000,
                key@.len() == key_len,
                forall|j: int| 0 <= j < key@.len() ==> 0 <= #[trigger] key@[j] < 26,
                forall|j: int|
                    0 <= j < key@.len() ==> #[trigger] key@[j] % (shift_inc as i16) == 0,
                ct_in_range(ciphertext@, language.alph().spec_length()),
                plaintext.len() == n,
                plaintext@ == stream_decrypt(g, schedule, ciphertext@, key@),
                forall|j: int|
                    0 <= j < plaintext@.len() ==> 0 <= #[trigger] plaintext@[j]
                        < language.alph().spec_length(),
                forall|x: i16, sh: i16|
                    0 <= x < 32 && 0 <= sh < 32 ==> call_requires(decrypt_one, (x, sh)),
                forall|x: i16, sh: i16, y: i16|
                    call_ensures(decrypt_one, (x, sh), y) ==> (0 <= y
                        < language.alph().spec_length() && y == g(x, sh)),
                curr == language.spec_score_of(plaintext@, ScoreSize::Quadgrams),
                i64::MIN < curr <= 0,
                curr >= -0x10000000000 * (ciphertext@.len() as int),
                !done ==> asc_target == ascend_choice(
                    *language,
                    g,
                    schedule,
                    ciphertext@,
                    key@,
                    shift_inc as int,
                    curr as int,
                    fuel_left,
                ),
                !done ==> fuel_left >= 1 + (0 - curr) / 6554,
                done ==> asc_target == (key@, curr as int),
            decreases (if done {
                0int
            } else {
                1int
            }) + (0 - curr),
        {
            let ghost pre_key = key@;
            let ghost pre_curr = curr as int;
            let next = vig_sweep(
                &decrypt_one,
                &schedule,
                shift_inc,
                language,
                ciphertext,
                &mut key,
                &mut plaintext,
                curr,
                Ghost(g),
            );
            proof {
                assert(sweep_choice(
                    *language,
                    g,
                    schedule,
                    ciphertext@,
                    pre_key,
                    shift_inc as int,
                    pre_curr,
                    pre_key.len() as int,
                ) == (key@, next as int));
            }
            if next - curr < 6554 {
                done = true;
                proof {
                    assert(ascend_choice(
                        *language,
                        g,
                        schedule,
                        ciphertext@,
                        pre_key,
                        shift_inc as int,
                        pre_curr,
                        fuel_left,
                    ) == (key@, next as int));
                }
            } else {
                proof {
                    assert(ascend_choice(
                        *language,
                        g,
                        schedule,
                        ciphertext@,
                        pre_key,
                        shift_inc as int,
                        pre_curr,
                        fuel_left,
                    ) == ascend_choice(
                        *language,
                        g,
                        schedule,
                        ciphertext@,
                        key@,
                        shift_inc as int,
                        next as int,
                        fuel_left - 1,
                    ));
                    assert((0 - next) / 6554 <= ((0 - pre_curr) - 6554) / 6554) by {
                        vstd::arithmetic::div_mod::lemma_div_is_ordered(
                            0 - next,
                            (0 - pre_curr) - 6554,
                            6554,
                        );
                    }
                    assert(((0 - pre_curr) - 6554) / 6554 == (0 - pre_curr) / 6554 - 1) by {
                        vstd::arithmetic::div_mod::lemma_div_minus_one(0 - pre_curr, 6554);
                        assert(-1 + (0 - pre_curr) / 6554 == (-6554 + (0 - pre_curr)) / 6554);
                    }
                    fuel_left = fuel_left - 1;
                }
            }
            curr = next;
        }
        // keep the best key over all lengths
        proof {
            assert((key@, curr as int) == ascend_choice(
                *language,
                g,
                schedule,
                ciphertext@,
                sweep_choice(
                    *language,
                    g,
                    schedule,
                    ciphertext@,
                    zero_key(key_len as int),
                    shift_inc as int,
                    i64::MIN as int,
                    key_len as int,
                ).0,
                shift_inc as int,
                sweep_choice(
                    *language,
                    g,
                    schedule,
                    ciphertext@,
                    zero_key(key_len as int),
                    shift_inc as int,
                    i64::MIN as int,
                    key_len as int,
                ).1,
                ascend_fuel(),
            ));
        }
        if curr > best_score {
            best_score = curr;
            best_key = key;
        }
        proof {
            assert((best_key@, best_score as int) == solve_choice(
                *language,
                g,
                schedule,
                ciphertext@,
                shift_inc as int,
                key_len as int,
            ));
        }
        key_len = key_len + 1;
    }
    best_key
}

/// Every entry lies inside the alphabet.
pub open spec fn ct_in_range(ct: Seq<i16>, len: int) -> bool {
    forall|j: int| 0 <= j < ct.len() ==> 0 <= #[trigger] ct[j] < len
}

/// What a letter-wise keyed transform produces: position `j` combines the
/// symbol with the key entry of its column.
pub open spec fn keyed_map_spec(g: spec_fn(i16, i16) -> i16, cps: Seq<i16>, key: Seq<i16>) -> Seq<
    i16,
> {
    Seq::new(cps.len(), |j: int| g(cps[j], key[j % (key.len() as int)]))
}

/// Applies a tableau operation letter by letter, the key repeating
/// cyclically.
pub fn keyed_map<F: Fn(i16, i16) -> i16>(
    cps: &[i16],
    key: &Vec<i16>,
    f: &F,
    Ghost(g): Ghost<spec_fn(i16, i16) -> i16>,
    Ghost(out_bound): Ghost<int>,
) -> (r: Vec<i16>)
    requires
        key@.len() >= 1,
        forall|j: int| 0 <= j < cps@.len() ==> 0 <= #[trigger] cps@[j] < 32,
        forall|j: int| 0 <= j < key@.len() ==> 0 <= #[trigger] key@[j] < 32,
        forall|x: i16, k: i16| 0 <= x < 32 && 0 <= k < 32 ==> call_requires(*f, (x, k)),
        forall|x: i16, k: i16, y: i16|
            call_ensures(*f, (x, k), y) ==> (0 <= y < out_bound && y == g(x, k)),
        0 < out_bound <= 32,
    ensures
        r@ == keyed_map_spec(g, cps@, key@),
        forall|j: int| 0 <= j < r@.len() ==> 0 <= #[trigger] r@[j] < out_bound,
{
    let n = cps.len();
    let l = key.len();
    let mut out: Vec<i16> = Vec::new();
    let mut j: usize = 0;
    while j < n
        invariant
            j <= n,
            n == cps@.len(),
            1 <= l == key@.len(),
            forall|p: int| 0 <= p < cps@.len() ==> 0 <= #[trigger] cps@[p] < 32,
            forall|p: int| 0 <= p < key@.len() ==> 0 <= #[trigger] key@[p] < 32,
            forall|x: i16, k: i16| 0 <= x < 32 && 0 <= k < 32 ==> call_requires(*f, (x, k)),
            forall|x: i16, k: i16, y: i16|
                call_ensures(*f, (x, k), y) ==> (0 <= y < out_bound && y == g(x, k)),
            0 < out_bound <= 32,
            out@.len() == j,
            forall|p: int|
                0 <= p < j ==> #[trigger] out@[p] == g(cps@[p], key@[p % (l as int)]),
            forall|p: int| 0 <= p < j ==> 0 <= #[trigger] out@[p] < out_bound,
        decreases n - j,
    {
        proof {
            vstd::arithmetic::div_mod::lemma_mod_division_less_than_divisor(j as int, l as int);
        }
        let y = f(cps[j], key[j % l]);
        out.push(y);
        j = j + 1;
    }
    proof {
        assert(out@ =~= keyed_map_spec(g, cps@, key@));
    }
    out
}

} // verus!
