//! First-order motion of the embeddings, and that their backward passes are their adjoint.
use vstd::prelude::*;

use crate::embed::{
    embed_bwd_wte_row, is_embed_bwd_wpe, is_embed_bwd_wte, is_gathered, places, row_term, visits,
};
use crate::exact::{
    applied, applied_back, column_terms, exact, lemma_inner_add, lemma_inner_flip,
    lemma_running_sum_exact, lemma_total_add, lemma_total_pick, lemma_total_same, lemma_total_swap,
    lemma_total_zero, lemma_transpose, row_terms, total_of,
};
use crate::index::{lemma_pair, lemma_row_inside, lemma_whole_rows};
use crate::motion::{
    lemma_pairing_moves, lemma_pairing_rows, paired_row, pairing, row_moves, row_nums,
};
use crate::rows::row_of;
use crate::scalar::{is_running_sum, is_sum, is_zero, Scalar};

verus! {

/// How the embeddings of `m` positions move: with the row of their token, and with that of
/// their position.
pub open spec fn moves_embed(
    mx: Seq<real>,
    mwte: Seq<real>,
    mwpe: Seq<real>,
    tokens: Seq<i32>,
    t_len: nat,
    m: nat,
    c: nat,
) -> bool {
    forall|r: int, j: int|
        0 <= r < m && 0 <= j < c ==> #[trigger] row_moves(mx, c, r)(j) == row_moves(
            mwte,
            c,
            tokens[r] as int,
        )(j) + row_moves(mwpe, c, r % t_len as int)(j)
}

/// Number `j` of row `r` of `dx`, where `slot` sends the row to slot `v`.
pub open spec fn gathered_term<S>(
    val: spec_fn(S) -> real,
    dx: Seq<S>,
    c: nat,
    slot: spec_fn(int) -> int,
    v: int,
    j: int,
) -> spec_fn(int) -> real {
    |r: int|
        if slot(r) == v {
            val(dx[r * c + j])
        } else {
            0 as real
        }
}

/// Column `j` of the rows of `dx` that `slot` sends to slot `v`, added up.
pub open spec fn gathered<S>(
    val: spec_fn(S) -> real,
    dx: Seq<S>,
    c: nat,
    slot: spec_fn(int) -> int,
    n: nat,
    v: int,
    j: int,
) -> real {
    total_of(gathered_term(val, dx, c, slot, v, j), n)
}

/// Two gathered numbers that are the same, row by row.
pub proof fn lemma_gathered_same<S>(
    val: spec_fn(S) -> real,
    dx: Seq<S>,
    ex: Seq<S>,
    c: nat,
    slot: spec_fn(int) -> int,
    place: spec_fn(int) -> int,
    n: nat,
    v: int,
    j: int,
)
    requires
        forall|r: int|
            0 <= r < n ==> (if #[trigger] slot(r) == v {
                val(dx[r * c + j])
            } else {
                0 as real
            }) == (if place(r) == v {
                val(ex[r * c + j])
            } else {
                0 as real
            }),
    ensures
        gathered(val, dx, c, slot, n, v, j) == gathered(val, ex, c, place, n, v, j),
{
    let f = gathered_term(val, dx, c, slot, v, j);
    let g = gathered_term(val, ex, c, place, v, j);
    assert forall|r: int| 0 <= r < n implies #[trigger] f(r) == g(r) by {
        assert(slot(r) == slot(r));
    }
    lemma_total_same(f, g, n);
}

/// The motion that the rows get from their slots.
spec fn sent(mw: Seq<real>, c: nat, slot: spec_fn(int) -> int, n: nat) -> Seq<real> {
    Seq::new(n * c, |i: int| mw[slot(i / c as int) * c + i % c as int])
}

/// Gathering is the adjoint of looking up: what slot `v` gathers paired with the motion of
/// the slots is the gradient of the rows paired with the motion that they get.
proof fn lemma_gather<S>(
    val: spec_fn(S) -> real,
    dx: Seq<S>,
    mw: Seq<real>,
    slot: spec_fn(int) -> int,
    before: Seq<S>,
    after: Seq<S>,
    n: nat,
    slots: nat,
    c: nat,
)
    requires
        c > 0,
        forall|r: int| 0 <= r < n ==> 0 <= #[trigger] slot(r) < slots,
        forall|v: int, j: int|
            0 <= v < slots && 0 <= j < c ==> #[trigger] row_nums(val, after, c, v)(j) == row_nums(
                val,
                before,
                c,
                v,
            )(j) + gathered(val, dx, c, slot, n, v, j),
    ensures
        pairing(val, dx, sent(mw, c, slot, n), n * c) == pairing(val, after, mw, slots * c)
            - pairing(val, before, mw, slots * c),
{
    let got = sent(mw, c, slot, n);
    // row by row of dx
    let pairs = |r: int, j: int| val(dx[r * c + j]) * mw[slot(r) * c + j];
    let (own, rows) = (
        paired_row(val, dx, got, c),
        |r: int| total_of(row_terms(pairs, r), c),
    );
    assert forall|r: int| 0 <= r < n implies #[trigger] own(r) == rows(r) by {
        let f = |j: int| row_nums(val, dx, c, r)(j) * row_moves(got, c, r)(j);
        assert forall|j: int| 0 <= j < c implies #[trigger] f(j) == row_terms(pairs, r)(j) by {
            lemma_pair(r, n as int, j, c as int);
        }
        lemma_total_same(f, row_terms(pairs, r), c);
    }
    lemma_total_same(own, rows, n);
    lemma_pairing_rows(val, dx, got, n, c);
    lemma_total_swap(pairs, n, c);
    // slot by slot
    let gains = |v: int, j: int| gathered(val, dx, c, slot, n, v, j) * mw[v * c + j];
    lemma_total_swap(gains, slots, c);
    let (cl, cr) = (
        |j: int| total_of(column_terms(pairs, j), n),
        |j: int| total_of(column_terms(gains, j), slots),
    );
    assert forall|j: int| 0 <= j < c implies #[trigger] cl(j) == cr(j) by {
        let a = |r: int| val(dx[r * c + j]);
        let f = |r: int, v: int|
            if slot(r) == v {
                1 as real
            } else {
                0 as real
            };
        let b = |v: int| mw[v * c + j];
        lemma_transpose(a, f, b, n, slots);
        let fa = |r: int| a(r) * applied(f, b, slots)(r);
        assert forall|r: int| 0 <= r < n implies #[trigger] column_terms(pairs, j)(r) == fa(r) by {
            let s = slot(r);
            let g = |v: int| f(r, v) * b(v);
            assert forall|v: int| 0 <= v < slots && v != s implies #[trigger] g(v)
                == 0 as real by {
                let x = b(v);
                assert((0 as real) * x == 0 as real) by (nonlinear_arith);
            }
            lemma_total_pick(g, s, slots);
            let x = b(s);
            assert((1 as real) * x == x) by (nonlinear_arith);
        }
        lemma_total_same(column_terms(pairs, j), fa, n);
        let fb = |v: int| applied_back(f, a, n)(v) * b(v);
        assert forall|v: int| 0 <= v < slots implies #[trigger] column_terms(gains, j)(v) == fb(
            v,
        ) by {
            let g = |r: int|
                if slot(r) == v {
                    val(dx[r * c + j])
                } else {
                    0 as real
                };
            let h = |r: int| f(r, v) * a(r);
            assert forall|r: int| 0 <= r < n implies #[trigger] g(r) == h(r) by {
                let x = a(r);
                assert((1 as real) * x == x && (0 as real) * x == 0 as real) by (nonlinear_arith);
            }
            lemma_total_same(g, h, n);
        }
        lemma_total_same(column_terms(gains, j), fb, slots);
    }
    lemma_total_same(cl, cr, c);
    let (pa, pb) = (paired_row(val, after, mw, c), paired_row(val, before, mw, c));
    let gained = |v: int| total_of(row_terms(gains, v), c);
    assert forall|v: int| 0 <= v < slots implies #[trigger] pa(v) == pb(v) + gained(v) by {
        let (new, had, b) = (
            row_nums(val, after, c, v),
            row_nums(val, before, c, v),
            row_moves(mw, c, v),
        );
        let gain = |j: int| gathered(val, dx, c, slot, n, v, j);
        lemma_inner_flip(new, b, c);
        lemma_inner_flip(had, b, c);
        lemma_inner_flip(gain, b, c);
        lemma_inner_add(b, had, gain, new, c);
        lemma_total_same(|j: int| gain(j) * b(j), row_terms(gains, v), c);
    }
    lemma_total_add(pb, gained, pa, slots);
    lemma_pairing_rows(val, after, mw, slots, c);
    lemma_pairing_rows(val, before, mw, slots, c);
}

/// The rows at `places` are those of the token.
pub proof fn lemma_places_total<S>(
    val: spec_fn(S) -> real,
    dx: Seq<S>,
    c: nat,
    tokens: Seq<i32>,
    v: int,
    j: int,
    n: nat,
)
    requires
        n <= tokens.len(),
    ensures
        total_of(
            |i: int| val(dx[places(tokens, v, n)[i] * c + j]),
            places(tokens, v, n).len(),
        ) == gathered(val, dx, c, |r: int| tokens[r] as int, n, v, j),
    decreases n,
{
    let f = |i: int| val(dx[places(tokens, v, n)[i] * c + j]);
    if n > 0 {
        let less = (n - 1) as nat;
        lemma_places_total(val, dx, c, tokens, v, j, less);
        let (at, before) = (places(tokens, v, n), places(tokens, v, less));
        let g = |i: int| val(dx[before[i] * c + j]);
        assert forall|i: int| 0 <= i < before.len() implies #[trigger] g(i) == f(i) by {
            assert(at[i] == before[i]);
        }
        lemma_total_same(g, f, before.len());
    }
}

/// The rows of `visits` are those of the position.
pub proof fn lemma_visits_total<S>(
    val: spec_fn(S) -> real,
    dx: Seq<S>,
    c: nat,
    t: int,
    t_len: int,
    j: int,
    n: nat,
)
    ensures
        total_of(
            |i: int| val(dx[visits(t, t_len, n)[i] * c + j]),
            visits(t, t_len, n).len(),
        ) == gathered(val, dx, c, |r: int| r % t_len, n, t, j),
    decreases n,
{
    let f = |i: int| val(dx[visits(t, t_len, n)[i] * c + j]);
    if n > 0 {
        let less = (n - 1) as nat;
        lemma_visits_total(val, dx, c, t, t_len, j, less);
        let (at, before) = (visits(t, t_len, n), visits(t, t_len, less));
        let g = |i: int| val(dx[before[i] * c + j]);
        assert forall|i: int| 0 <= i < before.len() implies #[trigger] g(i) == f(i) by {
            assert(at[i] == before[i]);
        }
        lemma_total_same(g, f, before.len());
    }
}

/// A gathered number, in exact arithmetic.
pub proof fn lemma_gathered_exact<S: Scalar>(
    val: spec_fn(S) -> real,
    dx: Seq<S>,
    c: int,
    at: Seq<int>,
    j: int,
    before: S,
    after: S,
)
    requires
        exact(val),
        is_gathered(dx, c, at, j, before, after),
    ensures
        val(after) == val(before) + total_of(|i: int| val(dx[at[i] * c + j]), at.len()),
{
    let (zero, acc) = choose|zero: S, acc: S|
        is_zero(zero) && #[trigger] is_running_sum(zero, row_term(dx, c, at, j), at.len(), acc)
            && is_sum(before, acc, after);
    lemma_running_sum_exact(
        val,
        zero,
        row_term(dx, c, at, j),
        |i: int| val(dx[at[i] * c + j]),
        at.len(),
        acc,
    );
}

/// The gradients of the two tables of embeddings, taken together with any motion of theirs,
/// are the gradient of the embeddings taken together with their motion: the backward passes
/// are the adjoint of the lookup.
pub proof fn law_embed_adjoint<S: Scalar>(
    val: spec_fn(S) -> real,
    dx: Seq<S>,
    mx: Seq<real>,
    wte_before: Seq<S>,
    wte_after: Seq<S>,
    mwte: Seq<real>,
    wpe_before: Seq<S>,
    wpe_after: Seq<S>,
    mwpe: Seq<real>,
    tokens: Seq<i32>,
    t_len: nat,
    vocab: nat,
    positions: nat,
    c: nat,
)
    requires
        exact(val),
        c > 0,
        0 < t_len <= positions,
        wte_before.len() == vocab * c,
        wpe_before.len() == positions * c,
        forall|r: int| 0 <= r < tokens.len() ==> 0 <= #[trigger] tokens[r] < vocab,
        is_embed_bwd_wte(wte_before, wte_after, dx, tokens, c),
        is_embed_bwd_wpe(wpe_before, wpe_after, dx, tokens.len(), t_len, c),
        moves_embed(mx, mwte, mwpe, tokens, t_len, tokens.len(), c),
    ensures
        pairing(val, dx, mx, tokens.len() * c) == pairing(val, wte_after, mwte, vocab * c)
            - pairing(val, wte_before, mwte, vocab * c) + pairing(
            val,
            wpe_after,
            mwpe,
            positions * c,
        ) - pairing(val, wpe_before, mwpe, positions * c),
{
    let m = tokens.len();
    let by_token = |r: int| tokens[r] as int;
    let by_place = |r: int| r % t_len as int;
    assert forall|v: int, j: int| 0 <= v < vocab && 0 <= j < c implies #[trigger] row_nums(
        val,
        wte_after,
        c,
        v,
    )(j) == row_nums(val, wte_before, c, v)(j) + gathered(val, dx, c, by_token, m, v, j) by {
        lemma_whole_rows(vocab as int, c as int);
        lemma_row_inside(v, vocab as int, c as int);
        let (rb, ra) = (row_of(wte_before, c, v), row_of(wte_after, c, v));
        assert(embed_bwd_wte_row(dx, tokens, v, rb, ra));
        let at = places(tokens, v, m);
        assert(is_gathered(dx, c as int, at, j, rb[j], ra[j]));
        lemma_gathered_exact(val, dx, c as int, at, j, rb[j], ra[j]);
        lemma_places_total(val, dx, c, tokens, v, j, m);
    }
    lemma_gather(val, dx, mwte, by_token, wte_before, wte_after, m, vocab, c);
    assert forall|v: int, j: int| 0 <= v < positions && 0 <= j < c implies #[trigger] row_nums(
        val,
        wpe_after,
        c,
        v,
    )(j) == row_nums(val, wpe_before, c, v)(j) + gathered(val, dx, c, by_place, m, v, j) by {
        lemma_pair(v, positions as int, j, c as int);
        let i = v * c + j;
        if v < t_len {
            lemma_pair(v, t_len as int, j, c as int);
            let at = visits(v, t_len as int, m);
            assert(is_gathered(dx, c as int, at, j, wpe_before[i], wpe_after[i]));
            lemma_gathered_exact(val, dx, c as int, at, j, wpe_before[i], wpe_after[i]);
            lemma_visits_total(val, dx, c, v, t_len as int, j, m);
        } else {
            assert(i >= t_len * c) by (nonlinear_arith)
                requires
                    i == v * c + j,
                    v >= t_len,
                    j >= 0,
            ;
            assert(wpe_after[i] == wpe_before[i]);
            let f = |r: int|
                if by_place(r) == v {
                    val(dx[r * c + j])
                } else {
                    0 as real
                };
            lemma_total_zero(f, m);
        }
    }
    lemma_gather(val, dx, mwpe, by_place, wpe_before, wpe_after, m, positions, c);
    let (st, sp) = (sent(mwte, c, by_token, m), sent(mwpe, c, by_place, m));
    assert forall|i: int| 0 <= i < m * c implies #[trigger] mx[i] == st[i] + sp[i] by {
        crate::index::lemma_unpair(i, m as int, c as int);
        let (r, j) = (i / c as int, i % c as int);
        assert(row_moves(mx, c, r)(j) == mx[i]);
    }
    lemma_pairing_moves(val, dx, st, sp, mx, m * c);
}

} // verus!
