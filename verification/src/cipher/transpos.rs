//! Columnar transpositions: block and column variants share one greedy
//! adjacency-based solver that reconstructs the column order from bigram
//! statistics, trying every key length in a bounded range and every
//! starting column.

use vstd::prelude::*;

use crate::key::keyword::Keyword;
use crate::lang::Language;
use crate::lang::ScoreSize;

verus! {

/// Which index layout a transposition uses.
pub enum TransKind {
    /// Whole columns are read out one after the other.
    Columnar,
    /// Rows are read out with their cells permuted.
    Block,
}

/// The gather positions a column transposition decrypts with: position
/// `row * l + col` reads from `key_order[col] * rows + row`; positions past
/// the full blocks stay zero.
pub open spec fn column_decrypt_indexes(len: int, order: Seq<int>) -> Seq<int> {
    let l = order.len() as int;
    let rows = len / l;
    Seq::new(
        len as nat,
        |p: int|
            if p < rows * l {
                order[p % l] * rows + p / l
            } else {
                0
            },
    )
}

/// The gather positions a block transposition decrypts with: position
/// `row * l + col` reads from `row * l + key_order[col]`; positions past
/// the full blocks stay zero.
pub open spec fn block_decrypt_indexes(len: int, order: Seq<int>) -> Seq<int> {
    let l = order.len() as int;
    let rows = len / l;
    Seq::new(
        len as nat,
        |p: int|
            if p < rows * l {
                (p / l) * l + order[p % l]
            } else {
                0
            },
    )
}

/// Does the order hold `q` at some column?
pub open spec fn order_has(order: Seq<int>, q: int) -> bool {
    exists|c: int| 0 <= c < order.len() && order[c] == q
}

/// The column of the order holding `q`.
pub open spec fn order_slot(order: Seq<int>, q: int) -> int {
    choose|c: int| 0 <= c < order.len() && order[c] == q
}

/// The gather positions a column transposition encrypts with: the output
/// at position `order[c] * rows + row` reads the plaintext letter at
/// `row * l + c`; positions past the full blocks re-read position zero.
pub open spec fn column_encrypt_indexes(len: int, order: Seq<int>) -> Seq<int> {
    let l = order.len() as int;
    let rows = len / l;
    Seq::new(
        len as nat,
        |t: int|
            if t < rows * l && order_has(order, t / rows) {
                (t % rows) * l + order_slot(order, t / rows)
            } else {
                0
            },
    )
}

/// The gather positions a block transposition encrypts with: the output
/// at position `row * l + order[c]` reads the plaintext letter at
/// `row * l + c`; positions past the full blocks re-read position zero.
pub open spec fn block_encrypt_indexes(len: int, order: Seq<int>) -> Seq<int> {
    let l = order.len() as int;
    let rows = len / l;
    Seq::new(
        len as nat,
        |t: int|
            if t < rows * l && order_has(order, t % l) {
                (t / l) * l + order_slot(order, t % l)
            } else {
                0
            },
    )
}

/// Computes the gather positions for an encryption, given a key order
/// that is a permutation of its columns.
pub fn encrypt_indexes(kind: &TransKind, len: usize, key_order: &Vec<usize>) -> (r: Vec<usize>)
    requires
        1 <= key_order@.len() <= len <= 0x100000,
        forall|c: int| 0 <= c < key_order@.len() ==> #[trigger] key_order@[c] < key_order@.len(),
        forall|c1: int, c2: int|
            0 <= c1 < c2 < key_order@.len() ==> key_order@[c1] != key_order@[c2],
    ensures
        r@.len() == len,
        ({
            let order = key_order@.map_values(|v: usize| v as int);
            r@.map_values(|v: usize| v as int) == match kind {
                TransKind::Columnar => column_encrypt_indexes(len as int, order),
                TransKind::Block => block_encrypt_indexes(len as int, order),
            }
        }),
        forall|p: int| 0 <= p < r@.len() ==> #[trigger] r@[p] < len,
{
    let l = key_order.len();
    let rows = len / l;
    let ghost order = key_order@.map_values(|v: usize| v as int);
    let ghost target = match kind {
        TransKind::Columnar => column_encrypt_indexes(len as int, order),
        TransKind::Block => block_encrypt_indexes(len as int, order),
    };
    proof {
        vstd::arithmetic::div_mod::lemma_fundamental_div_mod(len as int, l as int);
        assert(rows * l <= len) by (nonlinear_arith)
            requires
                rows == len as int / l as int,
                len as int == (l as int) * (len as int / l as int) + (len as int) % (l as int),
                (len as int) % (l as int) >= 0,
        ;
        crate::util::lemma_int_perm_covers(order, l as int);
    }
    let mut inv: Vec<usize> = Vec::new();
    let mut k: usize = 0;
    while k < l
        invariant
            k <= l,
            inv@.len() == k,
            forall|p: int| 0 <= p < k ==> #[trigger] inv@[p] == 0,
        decreases l - k,
    {
        inv.push(0);
        k = k + 1;
    }
    let mut c: usize = 0;
    while c < l
        invariant
            c <= l,
            inv@.len() == l == key_order@.len(),
            forall|p: int| 0 <= p < key_order@.len() ==> #[trigger] key_order@[p] < l,
            forall|c1: int, c2: int|
                0 <= c1 < c2 < key_order@.len() ==> key_order@[c1] != key_order@[c2],
            forall|p: int| 0 <= p < c ==> #[trigger] inv@[key_order@[p] as int] == p,
            forall|q: int| 0 <= q < l ==> #[trigger] inv@[q] < l,
        decreases l - c,
    {
        inv.set(key_order[c], c);
        c = c + 1;
    }
    let full = rows * l;
    let mut result: Vec<usize> = Vec::new();
    let mut t: usize = 0;
    while t < len
        invariant
            t <= len,
            1 <= l == key_order@.len() <= len <= 0x100000,
            rows == len as int / l as int,
            full == rows * l <= len,
            order == key_order@.map_values(|v: usize| v as int),
            forall|p: int| 0 <= p < key_order@.len() ==> #[trigger] key_order@[p] < l,
            forall|c1: int, c2: int|
                0 <= c1 < c2 < key_order@.len() ==> key_order@[c1] != key_order@[c2],
            inv@.len() == l,
            forall|p: int| 0 <= p < l ==> #[trigger] inv@[key_order@[p] as int] == p,
            forall|q: int| 0 <= q < l ==> #[trigger] inv@[q] < l,
            forall|q: int| 0 <= q < l ==> order.contains(q),
            target == (match kind {
                TransKind::Columnar => column_encrypt_indexes(len as int, order),
                TransKind::Block => block_encrypt_indexes(len as int, order),
            }),
            result@.len() == t,
            forall|p: int| 0 <= p < t ==> #[trigger] result@[p] as int == target[p],
            forall|p: int| 0 <= p < t ==> #[trigger] result@[p] < len,
        decreases len - t,
    {
        let v: usize = if t < full {
            let (q, pos) = match kind {
                TransKind::Columnar => (t / rows, t % rows),
                TransKind::Block => (t % l, t / l),
            };
            proof {
                match kind {
                    TransKind::Columnar => {
                        assert(rows >= 1) by (nonlinear_arith)
                            requires
                                t < full,
                                full == rows * l,
                                l >= 1,
                        ;
                        vstd::arithmetic::div_mod::lemma_multiply_divide_lt(
                            t as int,
                            rows as int,
                            l as int,
                        );
                        vstd::arithmetic::div_mod::lemma_mod_bound(t as int, rows as int);
                        assert(q < l && pos < rows);
                    },
                    TransKind::Block => {
                        assert(t < l * rows && rows >= 1) by (nonlinear_arith)
                            requires
                                t < full,
                                full == rows * l,
                                l >= 1,
                        ;
                        vstd::arithmetic::div_mod::lemma_multiply_divide_lt(
                            t as int,
                            l as int,
                            rows as int,
                        );
                        vstd::arithmetic::div_mod::lemma_mod_bound(t as int, l as int);
                        assert(q < l && pos < rows);
                    },
                }
                assert(q < l);
                assert(pos < rows);
            }
            let cc = inv[q];
            proof {
                assert(order.contains(q as int));
                assert(exists|i: int| 0 <= i < order.len() && order[i] == q as int);
                let p0 = choose|i: int| 0 <= i < order.len() && order[i] == q as int;
                assert(0 <= p0 < order.len() && order[p0] == q as int);
                assert(key_order@[p0] == q);
                assert(inv@[key_order@[p0] as int] == p0);
                assert(order_has(order, q as int));
                let c0 = order_slot(order, q as int);
                assert(0 <= c0 < l && order[c0] == q as int);
                if c0 != p0 {
                    if c0 < p0 {
                        assert(key_order@[c0] != key_order@[p0]);
                    } else {
                        assert(key_order@[p0] != key_order@[c0]);
                    }
                }
                assert(cc == c0);
                assert((pos as int) * l + cc < full) by (nonlinear_arith)
                    requires
                        full == rows * l,
                        0 <= cc < l,
                        0 <= pos < rows,
                        1 <= l,
                ;
            }
            pos * l + cc
        } else {
            0
        };
        proof {
            assert(v as int == target[t as int]);
        }
        result.push(v);
        t = t + 1;
    }
    proof {
        assert(result@.map_values(|v: usize| v as int) =~= target);
    }
    result
}

/// Computes the gather positions for a decryption, given the key order.
pub fn decrypt_indexes(kind: &TransKind, len: usize, key_order: &Vec<usize>) -> (r: Vec<usize>)
    requires
        1 <= key_order@.len() <= len <= 0x100000,
        forall|c: int| 0 <= c < key_order@.len() ==> #[trigger] key_order@[c] < key_order@.len(),
    ensures
        r@.len() == len,
        ({
            let order = key_order@.map_values(|v: usize| v as int);
            r@.map_values(|v: usize| v as int) == match kind {
                TransKind::Columnar => column_decrypt_indexes(len as int, order),
                TransKind::Block => block_decrypt_indexes(len as int, order),
            }
        }),
        forall|p: int| 0 <= p < r@.len() ==> #[trigger] r@[p] < len,
{
    let l = key_order.len();
    let rows = len / l;
    let ghost order = key_order@.map_values(|v: usize| v as int);
    let ghost target = match kind {
        TransKind::Columnar => column_decrypt_indexes(len as int, order),
        TransKind::Block => block_decrypt_indexes(len as int, order),
    };
    let mut result: Vec<usize> = Vec::new();
    let mut k: usize = 0;
    while k < len
        invariant
            k <= len,
            result@.len() == k,
            forall|p: int| 0 <= p < k ==> #[trigger] result@[p] == 0,
        decreases len - k,
    {
        result.push(0);
        k = k + 1;
    }
    proof {
        vstd::arithmetic::div_mod::lemma_fundamental_div_mod(len as int, l as int);
        assert(rows * l <= len) by (nonlinear_arith)
            requires
                rows == len as int / l as int,
                len as int == (l as int) * (len as int / l as int) + (len as int) % (l as int),
                (len as int) % (l as int) >= 0,
        ;
    }
    let mut col: usize = 0;
    while col < l
        invariant
            col <= l,
            1 <= l == key_order@.len() <= len <= 0x100000,
            rows == len as int / l as int,
            rows * l <= len,
            order == key_order@.map_values(|v: usize| v as int),
            forall|c: int| 0 <= c < key_order@.len() ==> #[trigger] key_order@[c] < l,
            result@.len() == len,
            target == (match kind {
                TransKind::Columnar => column_decrypt_indexes(len as int, order),
                TransKind::Block => block_decrypt_indexes(len as int, order),
            }),
            forall|p: int|
                0 <= p < len && p < rows * l && p % (l as int) < col
                    ==> #[trigger] result@[p] as int == target[p],
            forall|p: int|
                0 <= p < len && (p >= rows * l || p % (l as int) >= col)
                    ==> #[trigger] result@[p] == 0,
            forall|p: int| 0 <= p < len ==> #[trigger] result@[p] < len,
        decreases l - col,
    {
        let oc = key_order[col];
        let mut row: usize = 0;
        while row < rows
            invariant
                col < l,
                row <= rows,
                1 <= l == key_order@.len() <= len <= 0x100000,
                rows == len as int / l as int,
                rows * l <= len,
                oc == key_order@[col as int],
                oc < l,
                order == key_order@.map_values(|v: usize| v as int),
                forall|c: int| 0 <= c < key_order@.len() ==> #[trigger] key_order@[c] < l,
                result@.len() == len,
                target == (match kind {
                    TransKind::Columnar => column_decrypt_indexes(len as int, order),
                    TransKind::Block => block_decrypt_indexes(len as int, order),
                }),
                forall|p: int|
                    0 <= p < len && p < rows * l && (p % (l as int) < col || (p % (l as int)
                        == col && p / (l as int) < row)) ==> #[trigger] result@[p] as int
                        == target[p],
                forall|p: int|
                    0 <= p < len && (p >= rows * l || p % (l as int) > col || (p % (l as int)
                        == col && p / (l as int) >= row)) ==> #[trigger] result@[p] == 0,
                forall|p: int| 0 <= p < len ==> #[trigger] result@[p] < len,
            decreases rows - row,
        {
            proof {
                assert(row * l + col < rows * l) by (nonlinear_arith)
                    requires
                        row < rows,
                        col < l,
                        l >= 1,
                        rows >= 0,
                ;
            }
            let p = row * l + col;
            proof {
                vstd::arithmetic::div_mod::lemma_fundamental_div_mod_converse_mod(
                    p as int,
                    l as int,
                    row as int,
                    col as int,
                );
                vstd::arithmetic::div_mod::lemma_fundamental_div_mod(p as int, l as int);
                assert(p as int / (l as int) == row) by (nonlinear_arith)
                    requires
                        p as int == (row as int) * (l as int) + col,
                        p as int == (l as int) * (p as int / (l as int)) + (p as int) % (
                        l as int),
                        (p as int) % (l as int) == col,
                        l >= 1,
                ;
            }
            let v = match kind {
                TransKind::Columnar => {
                    proof {
                        assert(oc as int * rows + row < l * rows) by (nonlinear_arith)
                            requires
                                oc < l,
                                row < rows,
                                rows >= 0,
                                l >= 1,
                        ;
                        assert(l * rows == rows * l) by (nonlinear_arith);
                    }
                    oc * rows + row
                },
                TransKind::Block => {
                    proof {
                        assert(row * l + oc < rows * l) by (nonlinear_arith)
                            requires
                                oc < l,
                                row < rows,
                                rows >= 1,
                                l >= 1,
                        ;
                    }
                    row * l + oc
                },
            };
            result.set(p, v);
            proof {
                assert(result@[p as int] as int == target[p as int]);
                assert forall|q: int|
                    0 <= q < len && q < rows * l && (q % (l as int) < col || (q % (l as int)
                        == col && q / (l as int) < row + 1)) implies #[trigger] result@[q] as int
                    == target[q] by {
                    if q != p {
                        if q % (l as int) == col && q / (l as int) == row {
                            vstd::arithmetic::div_mod::lemma_fundamental_div_mod(q, l as int);
                            assert(q == p);
                        }
                    }
                }
            }
            row = row + 1;
        }
        proof {
            assert forall|q: int|
                0 <= q < len && q < rows * l && q % (l as int) < col + 1 implies
            #[trigger] result@[q] as int == target[q] by {
                if q % (l as int) == col as int {
                    vstd::arithmetic::div_mod::lemma_fundamental_div_mod(q, l as int);
                    assert(q / (l as int) < rows) by (nonlinear_arith)
                        requires
                            q < rows * l,
                            q == (l as int) * (q / (l as int)) + q % (l as int),
                            q % (l as int) >= 0,
                            l >= 1,
                            rows >= 0,
                    ;
                }
            }
        }
        col = col + 1;
    }
    proof {
        assert forall|p: int| 0 <= p < len implies #[trigger] result@[p] as int == target[p] by {
            if p < rows * l {
                vstd::arithmetic::div_mod::lemma_mod_division_less_than_divisor(p, l as int);
            }
        }
        assert(result@.map_values(|v: usize| v as int) =~= target);
    }
    result
}

/// The summed bigram score of placing `col2` after `col1`, over the full
/// rows, using the first `row_end` rows.
pub open spec fn adjacency_spec(
    lang: Language,
    ct: Seq<i16>,
    kind: TransKind,
    col1: int,
    col2: int,
    l: int,
    rows: int,
    row_end: int,
) -> int
    decreases row_end,
{
    if row_end <= 0 {
        0
    } else {
        let r = row_end - 1;
        let i1 = match kind {
            TransKind::Columnar => col1 * rows + r,
            TransKind::Block => r * l + col1,
        };
        let i2 = match kind {
            TransKind::Columnar => col2 * rows + r,
            TransKind::Block => r * l + col2,
        };
        adjacency_spec(lang, ct, kind, col1, col2, l, rows, row_end - 1) + lang.bigrams@[ct[i1]
            * 32 + ct[i2]]
    }
}

/// The greedy pick of the next column after `col1`: among the unused
/// columns below `cand_end`, the earliest one with the strictly best
/// adjacency score. Returns whether one was found, which, and its score.
pub open spec fn greedy_pick(
    lang: Language,
    ct: Seq<i16>,
    kind: TransKind,
    used: Seq<int>,
    col1: int,
    l: int,
    rows: int,
    cand_end: int,
) -> (bool, int, int)
    decreases cand_end,
{
    if cand_end <= 0 {
        (false, 0, i64::MIN as int)
    } else {
        let prev = greedy_pick(lang, ct, kind, used, col1, l, rows, cand_end - 1);
        let c = cand_end - 1;
        if used.contains(c) {
            prev
        } else {
            let sc = adjacency_spec(lang, ct, kind, col1, c, l, rows, rows);
            if sc > prev.2 || !prev.0 {
                (true, c, sc)
            } else {
                prev
            }
        }
    }
}

/// The greedily grown column order from a start column, after `steps`
/// appends.
pub open spec fn greedy_order(
    lang: Language,
    ct: Seq<i16>,
    kind: TransKind,
    l: int,
    rows: int,
    start: int,
    steps: int,
) -> Seq<int>
    decreases steps,
{
    if steps <= 0 {
        seq![start]
    } else {
        let prev = greedy_order(lang, ct, kind, l, rows, start, steps - 1);
        let pick = greedy_pick(lang, ct, kind, prev, prev.last(), l, rows, l);
        prev.push(pick.1)
    }
}

/// The quadgram score of the full decryption under a column order.
pub open spec fn trans_score(lang: Language, ct: Seq<i16>, kind: TransKind, order: Seq<int>) -> int {
    let idx = match kind {
        TransKind::Columnar => column_decrypt_indexes(ct.len() as int, order),
        TransKind::Block => block_decrypt_indexes(ct.len() as int, order),
    };
    lang.spec_score_of(Seq::new(ct.len(), |i: int| ct[idx[i]]), ScoreSize::Quadgrams)
}

/// The best greedy order of one key length over its start columns below
/// `start_end`; ties keep the earliest start.
pub open spec fn start_fold(
    lang: Language,
    ct: Seq<i16>,
    kind: TransKind,
    key_len: int,
    start_end: int,
) -> (Seq<int>, int)
    decreases start_end,
{
    if start_end <= 0 {
        (Seq::empty(), i64::MIN as int)
    } else {
        let prev = start_fold(lang, ct, kind, key_len, start_end - 1);
        let rows = ct.len() as int / key_len;
        let ord = greedy_order(lang, ct, kind, key_len, rows, start_end - 1, key_len - 1);
        let sc = trans_score(lang, ct, kind, ord);
        if sc > prev.1 {
            (ord, sc)
        } else {
            prev
        }
    }
}

/// What the solver returns: over the key lengths `lo..len_end`, each with
/// every start column, the greedy order whose full decryption scores
/// best; ties keep the first found.
pub open spec fn trans_fold(
    lang: Language,
    ct: Seq<i16>,
    kind: TransKind,
    lo: int,
    len_end: int,
) -> (Seq<int>, int)
    decreases (if len_end >= lo {
        len_end - lo
    } else {
        0
    }),
{
    if len_end <= lo {
        (Seq::empty(), i64::MIN as int)
    } else {
        let prev = trans_fold(lang, ct, kind, lo, len_end - 1);
        let cur = start_fold(lang, ct, kind, len_end - 1, len_end - 1);
        if cur.1 > prev.1 {
            cur
        } else {
            prev
        }
    }
}

/// Solves a block or column transposition: for every key length in a
/// bounded range and every starting column, greedily appends the unused
/// column whose bigram score against the last one is best, then keeps the
/// full order whose quadgram score wins over all trials. A greedy
/// nearest-neighbor heuristic, not an exact reconstruction.
pub fn transposition_solve(ciphertext: &Vec<i16>, language: &Language, kind: &TransKind) -> (r:
    Vec<usize>)
    requires
        language.wf(),
        ciphertext@.len() <= 0x100000,
        forall|j: int|
            0 <= j < ciphertext@.len() ==> 0 <= #[trigger] ciphertext@[j]
                < language.alph().spec_length(),
    ensures
        ciphertext@.len() <= 3 ==> r@.len() == 0,
        ciphertext@.len() > 3 ==> 3 <= r@.len() <= 14 && r@.len() < ciphertext@.len(),
        r@.map_values(|v: usize| v as i16).no_duplicates(),
        forall|c: int| 0 <= c < r@.len() ==> #[trigger] r@[c] < r@.len(),
        r@.map_values(|v: usize| v as int) == trans_fold(
            *language,
            ciphertext@,
            *kind,
            (if ciphertext@.len() < 3 {
                ciphertext@.len() as int
            } else {
                3
            }),
            (if ciphertext@.len() < 15 {
                ciphertext@.len() as int
            } else {
                15
            }),
        ).0,
{
    let len = ciphertext.len();
    let lo = if len < 3 {
        len
    } else {
        3
    };
    let hi = if len < 15 {
        len
    } else {
        15
    };
    let mut best_score: i64 = i64::MIN;
    let mut best_key: Vec<usize> = Vec::new();
    let mut key_len: usize = lo;
    while key_len < hi
        invariant
            language.wf(),
            len == ciphertext@.len() <= 0x100000,
            forall|j: int|
                0 <= j < ciphertext@.len() ==> 0 <= #[trigger] ciphertext@[j]
                    < language.alph().spec_length(),
            lo <= key_len <= hi,
            len < 3 ==> lo == len,
            len >= 3 ==> lo == 3,
            len < 15 ==> hi == len,
            len >= 15 ==> hi == 15,
            key_len == lo ==> best_key@.len() == 0,
            key_len > lo ==> 3 <= best_key@.len() <= 14 && best_key@.len() < len,
            (best_key@.len() == 0) <==> (best_score == i64::MIN),
            best_key@.map_values(|v: usize| v as i16).no_duplicates(),
            forall|c: int| 0 <= c < best_key@.len() ==> #[trigger] best_key@[c] < best_key@.len(),
            (best_key@.map_values(|v: usize| v as int), best_score as int) == trans_fold(
                *language,
                ciphertext@,
                *kind,
                lo as int,
                key_len as int,
            ),
        decreases hi - key_len,
    {
        let num_rows = len / key_len;
        let mut start_col: usize = 0;
        while start_col < key_len
            invariant
                language.wf(),
                len == ciphertext@.len() <= 0x100000,
                forall|j: int|
                    0 <= j < ciphertext@.len() ==> 0 <= #[trigger] ciphertext@[j]
                        < language.alph().spec_length(),
                3 <= key_len < hi <= 15,
                key_len < len,
                num_rows == len as int / key_len as int,
                start_col <= key_len,
                (best_key@.len() == 0 || (3 <= best_key@.len() <= 14 && best_key@.len() < len)),
                (start_col > 0 || key_len > lo) ==> 3 <= best_key@.len() <= 14
                    && best_key@.len() < len,
                (best_key@.len() == 0) <==> (best_score == i64::MIN),
                len < 3 ==> lo == len,
                len >= 3 ==> lo == 3,
                lo <= key_len,
                best_key@.map_values(|v: usize| v as i16).no_duplicates(),
                forall|c: int|
                    0 <= c < best_key@.len() ==> #[trigger] best_key@[c] < best_key@.len(),
                (best_key@.map_values(|v: usize| v as int), best_score as int) == (if start_fold(
                    *language,
                    ciphertext@,
                    *kind,
                    key_len as int,
                    start_col as int,
                ).1 > trans_fold(*language, ciphertext@, *kind, lo as int, key_len as int).1 {
                    start_fold(*language, ciphertext@, *kind, key_len as int, start_col as int)
                } else {
                    trans_fold(*language, ciphertext@, *kind, lo as int, key_len as int)
                }),
            decreases key_len - start_col,
        {
            let mut key: Vec<usize> = Vec::new();
            key.push(start_col);
            proof {
                assert(key@.map_values(|v: usize| v as i16).no_duplicates());
                assert(key@.map_values(|v: usize| v as int) =~= greedy_order(
                    *language,
                    ciphertext@,
                    *kind,
                    key_len as int,
                    num_rows as int,
                    start_col as int,
                    0,
                ));
            }
            while key.len() < key_len
                invariant
                    language.wf(),
                    len == ciphertext@.len() <= 0x100000,
                    forall|j: int|
                        0 <= j < ciphertext@.len() ==> 0 <= #[trigger] ciphertext@[j]
                            < language.alph().spec_length(),
                    3 <= key_len <= 15,
                    key_len < len,
                    num_rows == len as int / key_len as int,
                    start_col < key_len,
                    1 <= key@.len() <= key_len,
                    key@.map_values(|v: usize| v as i16).no_duplicates(),
                    forall|c: int| 0 <= c < key@.len() ==> #[trigger] key@[c] < key_len,
                    key@.map_values(|v: usize| v as int) == greedy_order(
                        *language,
                        ciphertext@,
                        *kind,
                        key_len as int,
                        num_rows as int,
                        start_col as int,
                        key@.len() as int - 1,
                    ),
                decreases key_len - key.len(),
            {
                let col1 = key[key.len() - 1];
                let mut max_score: i64 = i64::MIN;
                let mut max_col: usize = 0;
                let mut found = false;
                let mut col2: usize = 0;
                while col2 < key_len
                    invariant
                        language.wf(),
                        len == ciphertext@.len() <= 0x100000,
                        forall|j: int|
                            0 <= j < ciphertext@.len() ==> 0 <= #[trigger] ciphertext@[j]
                                < language.alph().spec_length(),
                        3 <= key_len <= 15,
                        key_len < len,
                        num_rows == len as int / key_len as int,
                        col1 < key_len,
                        col2 <= key_len,
                        1 <= key@.len() <= key_len,
                        key@.map_values(|v: usize| v as i16).no_duplicates(),
                        forall|c: int| 0 <= c < key@.len() ==> #[trigger] key@[c] < key_len,
                        found ==> max_col < key_len && !key@.contains(max_col),
                        !found ==> forall|c: int|
                            0 <= c < col2 ==> key@.contains(#[trigger] (c as usize)),
                        col1 == key@[key@.len() - 1],
                        (found, max_col as int, max_score as int) == greedy_pick(
                            *language,
                            ciphertext@,
                            *kind,
                            key@.map_values(|v: usize| v as int),
                            col1 as int,
                            key_len as int,
                            num_rows as int,
                            col2 as int,
                        ),
                    decreases key_len - col2,
                {
                    proof {
                        let mapped = key@.map_values(|v: usize| v as int);
                        if key@.contains(col2) {
                            let c = choose|c: int| 0 <= c < key@.len() && key@[c] == col2;
                            assert(mapped[c] == col2 as int);
                            assert(mapped.contains(col2 as int));
                        }
                        if mapped.contains(col2 as int) {
                            let c = choose|c: int|
                                0 <= c < mapped.len() && mapped[c] == col2 as int;
                            assert(key@[c] == col2);
                            assert(key@.contains(col2));
                        }
                    }
                    if !contains_usize(&key, col2) {
                        let score = adjacency_score(
                            ciphertext,
                            language,
                            kind,
                            col1,
                            col2,
                            key_len,
                            num_rows,
                        );
                        if score > max_score || !found {
                            max_score = score;
                            max_col = col2;
                            found = true;
                        }
                    }
                    col2 = col2 + 1;
                }
                proof {
                    if !found {
                        // every column below key_len would already be in the
                        // key, making it a full permutation, yet it is short
                        let mapped = key@.map_values(|v: usize| v as i16);
                        assert forall|v: int|
                            0 <= v < key_len implies #[trigger] mapped.contains(v as i16) by {
                            assert(key@.contains(v as usize));
                            let c = choose|c: int| 0 <= c < key@.len() && key@[c] == v as usize;
                            assert(mapped[c] == v as i16);
                        }
                        assert forall|i: int| 0 <= i < mapped.len() implies 0 <= #[trigger] mapped[i]
                            < key_len by {
                            assert(key@[i] < key_len);
                        }
                        crate::util::lemma_distinct_cover_len(mapped, key_len as int);
                        assert(false);
                    }
                }
                let ghost pre = key@;
                key.push(max_col);
                proof {
                    let mapped_pre = pre.map_values(|v: usize| v as i16);
                    let mapped = key@.map_values(|v: usize| v as i16);
                    assert(mapped =~= mapped_pre.push(max_col as i16));
                    assert(!mapped_pre.contains(max_col as i16)) by {
                        if mapped_pre.contains(max_col as i16) {
                            let c = choose|c: int|
                                0 <= c < mapped_pre.len() && mapped_pre[c] == max_col as i16;
                            assert(pre[c] == max_col);
                            assert(pre.contains(max_col as usize));
                        }
                    }
                    let ordered_pre = pre.map_values(|v: usize| v as int);
                    let ordered = key@.map_values(|v: usize| v as int);
                    assert(ordered =~= ordered_pre.push(max_col as int));
                    assert(ordered_pre.last() == col1 as int);
                    assert(ordered == greedy_order(
                        *language,
                        ciphertext@,
                        *kind,
                        key_len as int,
                        num_rows as int,
                        start_col as int,
                        key@.len() as int - 1,
                    ));
                }
            }
            // score the full decryption under this column order
            let indexes = decrypt_indexes(kind, len, &key);
            let dec = gather(ciphertext, &indexes, Ghost(language.alph().spec_length()));
            let score = language.score(dec.as_slice(), ScoreSize::Quadgrams);
            proof {
                let order = key@.map_values(|v: usize| v as int);
                let idx = match kind {
                    TransKind::Columnar => column_decrypt_indexes(ciphertext@.len() as int, order),
                    TransKind::Block => block_decrypt_indexes(ciphertext@.len() as int, order),
                };
                assert forall|i: int| 0 <= i < dec@.len() implies #[trigger] dec@[i]
                    == ciphertext@[idx[i]] by {
                    assert(indexes@[i] as int == idx[i]);
                }
                assert(dec@ =~= Seq::new(ciphertext@.len(), |i: int| ciphertext@[idx[i]]));
                assert(score as int == trans_score(*language, ciphertext@, *kind, order));
                assert(start_fold(
                    *language,
                    ciphertext@,
                    *kind,
                    key_len as int,
                    start_col as int + 1,
                ) == (if score as int > start_fold(
                    *language,
                    ciphertext@,
                    *kind,
                    key_len as int,
                    start_col as int,
                ).1 {
                    (order, score as int)
                } else {
                    start_fold(*language, ciphertext@, *kind, key_len as int, start_col as int)
                }));
            }
            if score > best_score {
                best_score = score;
                best_key = key;
            }
            start_col = start_col + 1;
        }
        proof {
            assert((best_key@.map_values(|v: usize| v as int), best_score as int) == trans_fold(
                *language,
                ciphertext@,
                *kind,
                lo as int,
                key_len as int + 1,
            ));
        }
        key_len = key_len + 1;
    }
    best_key
}

/// The summed bigram score over all rows between two candidate adjacent
/// columns.
fn adjacency_score(
    ciphertext: &Vec<i16>,
    language: &Language,
    kind: &TransKind,
    col1: usize,
    col2: usize,
    key_len: usize,
    num_rows: usize,
) -> (r: i64)
    requires
        language.wf(),
        ciphertext@.len() <= 0x100000,
        num_rows == ciphertext@.len() as int / key_len as int,
        col1 < key_len,
        col2 < key_len,
        key_len >= 1,
        forall|j: int|
            0 <= j < ciphertext@.len() ==> 0 <= #[trigger] ciphertext@[j]
                < language.alph().spec_length(),
    ensures
        -0x10000000000 * num_rows <= r <= 0,
        r as int == adjacency_spec(
            *language,
            ciphertext@,
            *kind,
            col1 as int,
            col2 as int,
            key_len as int,
            num_rows as int,
            num_rows as int,
        ),
{
    let mut total: i64 = 0;
    let mut row: usize = 0;
    let len = ciphertext.len();
    proof {
        vstd::arithmetic::div_mod::lemma_fundamental_div_mod(len as int, key_len as int);
    }
    while row < num_rows
        invariant
            language.wf(),
            len == ciphertext@.len() <= 0x100000,
            num_rows == len as int / key_len as int,
            num_rows * key_len <= len,
            col1 < key_len,
            col2 < key_len,
            key_len >= 1,
            row <= num_rows,
            forall|j: int|
                0 <= j < ciphertext@.len() ==> 0 <= #[trigger] ciphertext@[j]
                    < language.alph().spec_length(),
            -0x10000000000 * row <= total <= 0,
            total as int == adjacency_spec(
                *language,
                ciphertext@,
                *kind,
                col1 as int,
                col2 as int,
                key_len as int,
                num_rows as int,
                row as int,
            ),
        decreases num_rows - row,
    {
        proof {
            assert(row * key_len + col1 < num_rows * key_len) by (nonlinear_arith)
                requires
                    row < num_rows,
                    col1 < key_len,
                    key_len >= 1,
                    num_rows >= 0,
            ;
            assert(row * key_len + col2 < num_rows * key_len) by (nonlinear_arith)
                requires
                    row < num_rows,
                    col2 < key_len,
                    key_len >= 1,
                    num_rows >= 0,
            ;
            assert(col1 * num_rows + row < key_len * num_rows) by (nonlinear_arith)
                requires
                    row < num_rows,
                    col1 < key_len,
                    key_len >= 1,
                    num_rows >= 0,
            ;
            assert(col2 * num_rows + row < key_len * num_rows) by (nonlinear_arith)
                requires
                    row < num_rows,
                    col2 < key_len,
                    key_len >= 1,
                    num_rows >= 0,
            ;
            assert(key_len * num_rows == num_rows * key_len) by (nonlinear_arith);
        }
        let (i1, i2) = match kind {
            TransKind::Columnar => (col1 * num_rows + row, col2 * num_rows + row),
            TransKind::Block => (row * key_len + col1, row * key_len + col2),
        };
        let c1 = ciphertext[i1];
        let c2 = ciphertext[i2];
        let cell_idx = (c1 as usize) * 32 + (c2 as usize);
        let cell = language.bigrams[cell_idx];
        proof {
            assert(0 <= cell_idx < 1024) by (nonlinear_arith)
                requires
                    0 <= c1 < 32,
                    0 <= c2 < 32,
                    cell_idx == c1 * 32 + c2,
            ;
        }
        total = total + cell;
        row = row + 1;
    }
    total
}

/// Does the vector contain the value?
fn contains_usize(values: &Vec<usize>, v: usize) -> (r: bool)
    ensures
        r <==> values@.contains(v),
{
    let n = values.len();
    let mut k: usize = 0;
    while k < n
        invariant
            k <= n,
            n == values@.len(),
            forall|p: int| 0 <= p < k ==> values@[p] != v,
        decreases n - k,
    {
        if values[k] == v {
            proof {
                assert(values@[k as int] == v);
            }
            return true;
        }
        k = k + 1;
    }
    proof {
        if values@.contains(v) {
            let p = choose|p: int| 0 <= p < values@.len() && values@[p] == v;
        }
    }
    false
}

/// The sorting order of a keyword, as the solver and the decryptions use
/// it: position `i` carries the rank of the keyword entry at `i`.
pub open spec fn keyword_order(kw: Seq<i16>) -> Seq<int> {
    Seq::new(kw.len(), |c: int| crate::util::rank_count(kw, c, kw.len() as int))
}

/// What a transposition decryption produces when the keyword order is
/// usable: the ciphertext gathered through the layout's index map and
/// re-threaded onto the message.
pub open spec fn spec_transpos_decrypt(
    lang: crate::lang::Language,
    msg: Seq<char>,
    kw: Seq<i16>,
    kind: TransKind,
) -> Seq<char> {
    let ct = crate::lang::spec_string_to_cps(lang.alph(), msg);
    let order = keyword_order(kw);
    let idx = match kind {
        TransKind::Columnar => column_decrypt_indexes(ct.len() as int, order),
        TransKind::Block => block_decrypt_indexes(ct.len() as int, order),
    };
    crate::lang::spec_rethread(lang, msg, Seq::new(ct.len(), |i: int| ct[idx[i]]))
}

/// What a transposition encryption produces when the keyword order is
/// usable: the plaintext gathered through the layout's inverse index map
/// and re-threaded onto the message.
pub open spec fn spec_transpos_encrypt(
    lang: crate::lang::Language,
    msg: Seq<char>,
    kw: Seq<i16>,
    kind: TransKind,
) -> Seq<char> {
    let pt = crate::lang::spec_string_to_cps(lang.alph(), msg);
    let order = keyword_order(kw);
    let idx = match kind {
        TransKind::Columnar => column_encrypt_indexes(pt.len() as int, order),
        TransKind::Block => block_encrypt_indexes(pt.len() as int, order),
    };
    crate::lang::spec_rethread(lang, msg, Seq::new(pt.len(), |i: int| pt[idx[i]]))
}

/// Does the keyword's order stay inside the keyword length?
pub open spec fn order_usable(kw: Seq<i16>, ct_len: int) -> bool {
    &&& kw.len() >= 1
    &&& ct_len >= kw.len()
    &&& ct_len > 0
    &&& forall|c: int| 0 <= c < kw.len() ==> 0 <= #[trigger] keyword_order(kw)[c] < kw.len()
}

/// Represents a columnar transposition read out column by column.
pub struct ColumnTransposition {
    pub keyword: Keyword,
}

impl ColumnTransposition {
    /// A new cipher with the identity keyword.
    pub fn new(language: &Language) -> (r: ColumnTransposition)
        ensures
            r.keyword.value@ =~= seq![0i16],
    {
        ColumnTransposition { keyword: Keyword::identity(language) }
    }

    /// Encrypts the message: letters move from row order to their
    /// column-major positions, trailing letters beyond the full
    /// blocks re-reading the first code point.
    pub fn encrypt(&self, language: &Language, msg: &str) -> (r: String)
        requires
            language.wf(),
            self.keyword.value@.len() >= 1,
            msg@.len() <= 0x100000,
        ensures
            ({
                let pt = crate::lang::spec_string_to_cps(language.alph(), msg@);
                if order_usable(self.keyword.value@, pt.len() as int) {
                    r@ == spec_transpos_encrypt(
                        *language,
                        msg@,
                        self.keyword.value@,
                        TransKind::Columnar,
                    )
                } else {
                    r@ == msg@
                }
            }),
    {
        let plaintext = language.string_to_vec(msg);
        if plaintext.len() < self.keyword.len() || plaintext.len() == 0 {
            return msg.to_owned();
        }
        let key_order = self.keyword.find_order();
        let order_ok = order_in_range(&key_order);
        proof {
            let order = keyword_order(self.keyword.value@);
            assert(key_order@.map_values(|v: usize| v as int) =~= order);
        }
        if !order_ok {
            proof {
                let kw = self.keyword.value@;
                let c0 = choose|c: int|
                    0 <= c < key_order@.len() && !(#[trigger] key_order@[c] < key_order@.len());
                assert(keyword_order(kw)[c0] == key_order@[c0] as int);
                assert(!order_usable(kw, plaintext@.len() as int));
            }
            return msg.to_owned();
        }
        proof {
            assert forall|c1: int, c2: int|
                0 <= c1 < c2 < key_order@.len() implies key_order@[c1] != key_order@[c2] by {
                crate::util::lemma_rank_injective(self.keyword.value@, c1, c2);
            }
        }
        let indexes = encrypt_indexes(&TransKind::Columnar, plaintext.len(), &key_order);
        let enc = gather(&plaintext, &indexes, Ghost(language.alph().spec_length()));
        proof {
            let pt = crate::lang::spec_string_to_cps(language.alph(), msg@);
            let order = keyword_order(self.keyword.value@);
            let idx = match TransKind::Columnar {
                TransKind::Columnar => column_encrypt_indexes(pt.len() as int, order),
                TransKind::Block => block_encrypt_indexes(pt.len() as int, order),
            };
            assert(enc@ =~= Seq::new(pt.len(), |i: int| pt[idx[i]]));
        }
        language.rethread(msg, enc.as_slice())
    }

    /// Decrypts the message: letters return from their column-major
    /// positions to row order, trailing letters beyond the full blocks
    /// re-reading the first code point.
    pub fn decrypt(&self, language: &Language, msg: &str) -> (r: String)
        requires
            language.wf(),
            self.keyword.value@.len() >= 1,
            msg@.len() <= 0x100000,
        ensures
            ({
                let ct = crate::lang::spec_string_to_cps(language.alph(), msg@);
                if order_usable(self.keyword.value@, ct.len() as int) {
                    r@ == spec_transpos_decrypt(
                        *language,
                        msg@,
                        self.keyword.value@,
                        TransKind::Columnar,
                    )
                } else {
                    r@ == msg@
                }
            }),
    {
        let ciphertext = language.string_to_vec(msg);
        if ciphertext.len() < self.keyword.len() || ciphertext.len() == 0 {
            return msg.to_owned();
        }
        let key_order = self.keyword.find_order();
        let order_ok = order_in_range(&key_order);
        proof {
            let order = keyword_order(self.keyword.value@);
            assert(key_order@.map_values(|v: usize| v as int) =~= order);
        }
        if !order_ok {
            proof {
                let kw = self.keyword.value@;
                let c0 = choose|c: int|
                    0 <= c < key_order@.len() && !(#[trigger] key_order@[c] < key_order@.len());
                assert(keyword_order(kw)[c0] == key_order@[c0] as int);
                assert(!order_usable(kw, ciphertext@.len() as int));
            }
            return msg.to_owned();
        }
        let indexes = decrypt_indexes(&TransKind::Columnar, ciphertext.len(), &key_order);
        let dec = gather(&ciphertext, &indexes, Ghost(language.alph().spec_length()));
        proof {
            let ct = crate::lang::spec_string_to_cps(language.alph(), msg@);
            let order = keyword_order(self.keyword.value@);
            let idx = match TransKind::Columnar {
                TransKind::Columnar => column_decrypt_indexes(ct.len() as int, order),
                TransKind::Block => block_decrypt_indexes(ct.len() as int, order),
            };
            assert(dec@ =~= Seq::new(ct.len(), |i: int| ct[idx[i]]));
        }
        language.rethread(msg, dec.as_slice())
    }

    /// Solves the ciphertext with the greedy column-order reconstruction,
    /// writing the winning order into the keyword.
    pub fn solve(&mut self, language: &Language, msg: &str)
        requires
            language.wf(),
            msg@.len() <= 0x100000,
        ensures
            final(self).keyword.value@.len() >= 1,
            ({
                let ct = crate::lang::spec_string_to_cps(language.alph(), msg@);
                let engine = trans_fold(
                    *language,
                    ct,
                    TransKind::Columnar,
                    (if ct.len() < 3 {
                        ct.len() as int
                    } else {
                        3
                    }),
                    (if ct.len() < 15 {
                        ct.len() as int
                    } else {
                        15
                    }),
                ).0;
                if ct.len() <= 3 {
                    final(self).keyword.value@ =~= seq![0i16]
                } else {
                    final(self).keyword.value@ == engine.map_values(|v: int| v as i16)
                }
            }),
    {
        let ciphertext = language.string_to_vec(msg);
        let key = transposition_solve(&ciphertext, language, &TransKind::Columnar);
        let key16 = usizes_to_i16s(&key);
        proof {
            let engine = trans_fold(
                *language,
                ciphertext@,
                TransKind::Columnar,
                (if ciphertext@.len() < 3 {
                    ciphertext@.len() as int
                } else {
                    3
                }),
                (if ciphertext@.len() < 15 {
                    ciphertext@.len() as int
                } else {
                    15
                }),
            ).0;
            assert forall|c: int| 0 <= c < key16@.len() implies #[trigger] key16@[c] == engine[c]
                as i16 by {
                assert(key@.map_values(|v: usize| v as int)[c] == engine[c]);
            }
            assert(key16@ =~= engine.map_values(|v: int| v as i16));
        }
        self.keyword.set_slice(key16.as_slice());
    }
}

/// Represents a columnar transposition read out row by row with permuted
/// cells.
pub struct BlockTransposition {
    pub keyword: Keyword,
}

impl BlockTransposition {
    /// A new cipher with the identity keyword.
    pub fn new(language: &Language) -> (r: BlockTransposition)
        ensures
            r.keyword.value@ =~= seq![0i16],
    {
        BlockTransposition { keyword: Keyword::identity(language) }
    }

    /// Encrypts the message: letters move from row order to their
    /// permuted places within each row, trailing letters beyond the full
    /// blocks re-reading the first code point.
    pub fn encrypt(&self, language: &Language, msg: &str) -> (r: String)
        requires
            language.wf(),
            self.keyword.value@.len() >= 1,
            msg@.len() <= 0x100000,
        ensures
            ({
                let pt = crate::lang::spec_string_to_cps(language.alph(), msg@);
                if order_usable(self.keyword.value@, pt.len() as int) {
                    r@ == spec_transpos_encrypt(
                        *language,
                        msg@,
                        self.keyword.value@,
                        TransKind::Block,
                    )
                } else {
                    r@ == msg@
                }
            }),
    {
        let plaintext = language.string_to_vec(msg);
        if plaintext.len() < self.keyword.len() || plaintext.len() == 0 {
            return msg.to_owned();
        }
        let key_order = self.keyword.find_order();
        let order_ok = order_in_range(&key_order);
        proof {
            let order = keyword_order(self.keyword.value@);
            assert(key_order@.map_values(|v: usize| v as int) =~= order);
        }
        if !order_ok {
            proof {
                let kw = self.keyword.value@;
                let c0 = choose|c: int|
                    0 <= c < key_order@.len() && !(#[trigger] key_order@[c] < key_order@.len());
                assert(keyword_order(kw)[c0] == key_order@[c0] as int);
                assert(!order_usable(kw, plaintext@.len() as int));
            }
            return msg.to_owned();
        }
        proof {
            assert forall|c1: int, c2: int|
                0 <= c1 < c2 < key_order@.len() implies key_order@[c1] != key_order@[c2] by {
                crate::util::lemma_rank_injective(self.keyword.value@, c1, c2);
            }
        }
        let indexes = encrypt_indexes(&TransKind::Block, plaintext.len(), &key_order);
        let enc = gather(&plaintext, &indexes, Ghost(language.alph().spec_length()));
        proof {
            let pt = crate::lang::spec_string_to_cps(language.alph(), msg@);
            let order = keyword_order(self.keyword.value@);
            let idx = match TransKind::Block {
                TransKind::Columnar => column_encrypt_indexes(pt.len() as int, order),
                TransKind::Block => block_encrypt_indexes(pt.len() as int, order),
            };
            assert(enc@ =~= Seq::new(pt.len(), |i: int| pt[idx[i]]));
        }
        language.rethread(msg, enc.as_slice())
    }

    /// Decrypts the message: each row's cells return to their places.
    pub fn decrypt(&self, language: &Language, msg: &str) -> (r: String)
        requires
            language.wf(),
            self.keyword.value@.len() >= 1,
            msg@.len() <= 0x100000,
        ensures
            ({
                let ct = crate::lang::spec_string_to_cps(language.alph(), msg@);
                if order_usable(self.keyword.value@, ct.len() as int) {
                    r@ == spec_transpos_decrypt(
                        *language,
                        msg@,
                        self.keyword.value@,
                        TransKind::Block,
                    )
                } else {
                    r@ == msg@
                }
            }),
    {
        let ciphertext = language.string_to_vec(msg);
        if ciphertext.len() < self.keyword.len() || ciphertext.len() == 0 {
            return msg.to_owned();
        }
        let key_order = self.keyword.find_order();
        let order_ok = order_in_range(&key_order);
        proof {
            let order = keyword_order(self.keyword.value@);
            assert(key_order@.map_values(|v: usize| v as int) =~= order);
        }
        if !order_ok {
            proof {
                let kw = self.keyword.value@;
                let c0 = choose|c: int|
                    0 <= c < key_order@.len() && !(#[trigger] key_order@[c] < key_order@.len());
                assert(keyword_order(kw)[c0] == key_order@[c0] as int);
                assert(!order_usable(kw, ciphertext@.len() as int));
            }
            return msg.to_owned();
        }
        let indexes = decrypt_indexes(&TransKind::Block, ciphertext.len(), &key_order);
        let dec = gather(&ciphertext, &indexes, Ghost(language.alph().spec_length()));
        proof {
            let ct = crate::lang::spec_string_to_cps(language.alph(), msg@);
            let order = keyword_order(self.keyword.value@);
            let idx = match TransKind::Block {
                TransKind::Columnar => column_decrypt_indexes(ct.len() as int, order),
                TransKind::Block => block_decrypt_indexes(ct.len() as int, order),
            };
            assert(dec@ =~= Seq::new(ct.len(), |i: int| ct[idx[i]]));
        }
        language.rethread(msg, dec.as_slice())
    }

    /// Solves the ciphertext with the greedy column-order reconstruction.
    pub fn solve(&mut self, language: &Language, msg: &str)
        requires
            language.wf(),
            msg@.len() <= 0x100000,
        ensures
            final(self).keyword.value@.len() >= 1,
            ({
                let ct = crate::lang::spec_string_to_cps(language.alph(), msg@);
                let engine = trans_fold(
                    *language,
                    ct,
                    TransKind::Block,
                    (if ct.len() < 3 {
                        ct.len() as int
                    } else {
                        3
                    }),
                    (if ct.len() < 15 {
                        ct.len() as int
                    } else {
                        15
                    }),
                ).0;
                if ct.len() <= 3 {
                    final(self).keyword.value@ =~= seq![0i16]
                } else {
                    final(self).keyword.value@ == engine.map_values(|v: int| v as i16)
                }
            }),
    {
        let ciphertext = language.string_to_vec(msg);
        let key = transposition_solve(&ciphertext, language, &TransKind::Block);
        let key16 = usizes_to_i16s(&key);
        proof {
            let engine = trans_fold(
                *language,
                ciphertext@,
                TransKind::Block,
                (if ciphertext@.len() < 3 {
                    ciphertext@.len() as int
                } else {
                    3
                }),
                (if ciphertext@.len() < 15 {
                    ciphertext@.len() as int
                } else {
                    15
                }),
            ).0;
            assert forall|c: int| 0 <= c < key16@.len() implies #[trigger] key16@[c] == engine[c]
                as i16 by {
                assert(key@.map_values(|v: usize| v as int)[c] == engine[c]);
            }
            assert(key16@ =~= engine.map_values(|v: int| v as i16));
        }
        self.keyword.set_slice(key16.as_slice());
    }
}

/// Are all entries below the vector's own length?
fn order_in_range(order: &Vec<usize>) -> (r: bool)
    ensures
        r <==> (forall|c: int| 0 <= c < order@.len() ==> #[trigger] order@[c] < order@.len()),
{
    let n = order.len();
    let mut k: usize = 0;
    while k < n
        invariant
            k <= n,
            n == order@.len(),
            forall|c: int| 0 <= c < k ==> #[trigger] order@[c] < n,
        decreases n - k,
    {
        if order[k] >= n {
            return false;
        }
        k = k + 1;
    }
    true
}

/// Converts a vector of small indices to code points.
fn usizes_to_i16s(values: &Vec<usize>) -> (r: Vec<i16>)
    requires
        forall|c: int| 0 <= c < values@.len() ==> #[trigger] values@[c] < 0x7FFF,
    ensures
        r@.len() == values@.len(),
        forall|c: int| 0 <= c < r@.len() ==> #[trigger] r@[c] == values@[c] as i16,
{
    let n = values.len();
    let mut out: Vec<i16> = Vec::new();
    let mut k: usize = 0;
    while k < n
        invariant
            k <= n,
            n == values@.len(),
            forall|c: int| 0 <= c < values@.len() ==> #[trigger] values@[c] < 0x7FFF,
            out@.len() == k,
            forall|c: int| 0 <= c < k ==> #[trigger] out@[c] == values@[c] as i16,
        decreases n - k,
    {
        out.push(values[k] as i16);
        k = k + 1;
    }
    out
}

/// Gathers code points through an index vector: entry `i` of the result is
/// the code point at position `indexes[i]`.
pub fn gather(cps: &Vec<i16>, indexes: &Vec<usize>, Ghost(n): Ghost<int>) -> (r: Vec<i16>)
    requires
        forall|p: int| 0 <= p < indexes@.len() ==> #[trigger] indexes@[p] < cps@.len(),
        forall|p: int| 0 <= p < cps@.len() ==> 0 <= #[trigger] cps@[p] < n,
    ensures
        r@ == Seq::new(indexes@.len(), |i: int| cps@[indexes@[i] as int]),
        forall|p: int| 0 <= p < r@.len() ==> 0 <= #[trigger] r@[p] < n,
{
    let m = indexes.len();
    let mut out: Vec<i16> = Vec::new();
    let mut i: usize = 0;
    while i < m
        invariant
            i <= m,
            m == indexes@.len(),
            forall|p: int| 0 <= p < indexes@.len() ==> #[trigger] indexes@[p] < cps@.len(),
            forall|p: int| 0 <= p < cps@.len() ==> 0 <= #[trigger] cps@[p] < n,
            out@.len() == i,
            forall|p: int| 0 <= p < i ==> #[trigger] out@[p] == cps@[indexes@[p] as int],
            forall|p: int| 0 <= p < i ==> 0 <= #[trigger] out@[p] < n,
        decreases m - i,
    {
        out.push(cps[indexes[i]]);
        i = i + 1;
    }
    proof {
        assert(out@ =~= Seq::new(indexes@.len(), |p: int| cps@[indexes@[p] as int]));
    }
    out
}

} // verus!
