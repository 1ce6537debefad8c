//! Arithmetic of row-major indices.
use vstd::prelude::*;

verus! {

/// A row that comes before row `rows` ends before it starts.
pub proof fn lemma_row_inside(r: int, rows: int, c: int)
    requires
        0 <= r < rows,
        0 <= c,
    ensures
        0 <= r * c,
        r * c + c <= rows * c,
        (r + 1) * c == r * c + c,
{
    assert(r * c + c <= rows * c && 0 <= r * c && (r + 1) * c == r * c + c) by (nonlinear_arith)
        requires
            0 <= r < rows,
            0 <= c,
    ;
}

/// Of a buffer of `rows` whole rows, the number of numbers gives the number of rows.
pub proof fn lemma_whole_rows(rows: int, c: int)
    requires
        0 <= rows,
        0 < c,
    ensures
        (rows * c) / c == rows,
        (rows * c) % c == 0,
{
    vstd::arithmetic::div_mod::lemma_div_by_multiple(rows, c);
    vstd::arithmetic::div_mod::lemma_mod_multiples_basic(rows, c);
}

/// A buffer whose length is a multiple of `c` is made of whole rows.
pub proof fn lemma_rows_cover(len: int, c: int)
    requires
        0 <= len,
        0 < c,
        len % c == 0,
    ensures
        (len / c) * c == len,
        0 <= len / c <= len,
{
    vstd::arithmetic::div_mod::lemma_fundamental_div_mod(len, c);
    assert((len / c) * c == len && 0 <= len / c <= len) by (nonlinear_arith)
        requires
            len == c * (len / c) + len % c,
            len % c == 0,
            0 < c,
            0 <= len,
    ;
}

/// The pair (`a`, `b`) has its own place among `an * bn`.
pub proof fn lemma_pair(a: int, an: int, b: int, bn: int)
    requires
        0 <= a < an,
        0 <= b < bn,
    ensures
        0 <= a * bn + b < an * bn,
        (a * bn + b) / bn == a,
        (a * bn + b) % bn == b,
{
    lemma_row_inside(a, an, bn);
    vstd::arithmetic::div_mod::lemma_fundamental_div_mod_converse(a * bn + b, bn, a, b);
}

/// A place among `an * bn` is that of exactly one pair.
pub proof fn lemma_unpair(i: int, an: int, bn: int)
    requires
        0 <= i < an * bn,
        0 < bn,
    ensures
        0 <= i / bn < an,
        0 <= i % bn < bn,
        i == (i / bn) * bn + i % bn,
{
    vstd::arithmetic::div_mod::lemma_fundamental_div_mod(i, bn);
    let q = i / bn;
    let m = i % bn;
    assert(0 <= q < an && i == q * bn + m) by (nonlinear_arith)
        requires
            i == bn * q + m,
            0 <= m < bn,
            0 <= i < an * bn,
    ;
}

} // verus!
