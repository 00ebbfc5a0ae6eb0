//! Counting the cells of a rectangle on which a predicate holds.
use vstd::prelude::*;

verus! {

/// How many of the first `c` cells of row `r` satisfy `p`.
pub open spec fn count_in_row(p: spec_fn(int, int) -> bool, r: int, c: int) -> nat
    decreases c,
{
    if c <= 0 {
        0
    } else {
        count_in_row(p, r, c - 1) + if p(r, c - 1) {
            1nat
        } else {
            0nat
        }
    }
}

/// How many cells of the first `h` rows, `w` cells each, satisfy `p`.
pub open spec fn count_cells(p: spec_fn(int, int) -> bool, h: int, w: int) -> nat
    decreases h,
{
    if h <= 0 {
        0
    } else {
        count_cells(p, h - 1, w) + count_in_row(p, h - 1, w)
    }
}

/// How many of the first `len` entries of `s` are `true`.
pub open spec fn count_true(s: Seq<bool>) -> nat
    decreases s.len(),
{
    if s.len() == 0 {
        0
    } else {
        count_true(s.drop_last()) + if s.last() {
            1nat
        } else {
            0nat
        }
    }
}

pub proof fn lemma_count_in_row_bounds(p: spec_fn(int, int) -> bool, r: int, c: int)
    ensures
        c >= 0 ==> count_in_row(p, r, c) <= c,
    decreases c,
{
    if c > 0 {
        lemma_count_in_row_bounds(p, r, c - 1);
    }
}

pub proof fn lemma_count_cells_bounds(p: spec_fn(int, int) -> bool, h: int, w: int)
    requires
        h >= 0,
        w >= 0,
    ensures
        count_cells(p, h, w) <= h * w,
    decreases h,
{
    if h > 0 {
        lemma_count_cells_bounds(p, h - 1, w);
        lemma_count_in_row_bounds(p, h - 1, w);
        assert((h - 1) * w + w == h * w) by (nonlinear_arith);
    }
}

/// Where `p` holds at most where `q` does, `p` counts no more cells than `q`.
pub proof fn lemma_count_cells_mono(
    p: spec_fn(int, int) -> bool,
    q: spec_fn(int, int) -> bool,
    h: int,
    w: int,
)
    requires
        forall|r: int, c: int| 0 <= r < h && 0 <= c < w && #[trigger] p(r, c) ==> q(r, c),
    ensures
        count_cells(p, h, w) <= count_cells(q, h, w),
    decreases h,
{
    if h > 0 {
        lemma_count_cells_mono(p, q, h - 1, w);
        lemma_count_in_row_mono(p, q, h - 1, w, w);
    }
}

proof fn lemma_count_in_row_mono(
    p: spec_fn(int, int) -> bool,
    q: spec_fn(int, int) -> bool,
    r: int,
    c: int,
    w: int,
)
    requires
        c <= w,
        forall|c2: int| 0 <= c2 < w && #[trigger] p(r, c2) ==> q(r, c2),
    ensures
        count_in_row(p, r, c) <= count_in_row(q, r, c),
    decreases c,
{
    if c > 0 {
        lemma_count_in_row_mono(p, q, r, c - 1, w);
    }
}

/// A cell on which `p` holds makes the count positive.
pub proof fn lemma_count_cells_pos(p: spec_fn(int, int) -> bool, h: int, w: int, r: int, c: int)
    requires
        0 <= r < h,
        0 <= c < w,
        p(r, c),
    ensures
        count_cells(p, h, w) >= 1,
    decreases h,
{
    if r < h - 1 {
        lemma_count_cells_pos(p, h - 1, w, r, c);
    } else {
        lemma_count_in_row_pos(p, r, w, c);
    }
}

proof fn lemma_count_in_row_pos(p: spec_fn(int, int) -> bool, r: int, w: int, c: int)
    requires
        0 <= c < w,
        p(r, c),
    ensures
        count_in_row(p, r, w) >= 1,
    decreases w,
{
    if c < w - 1 {
        lemma_count_in_row_pos(p, r, w - 1, c);
    }
}

pub proof fn lemma_count_true_le(s: Seq<bool>)
    ensures
        count_true(s) <= s.len(),
    decreases s.len(),
{
    if s.len() > 0 {
        lemma_count_true_le(s.drop_last());
    }
}

/// Setting one `false` entry adds one to the count, which was below the length.
pub proof fn lemma_count_true_set(s: Seq<bool>, i: int)
    requires
        0 <= i < s.len(),
        !s[i],
    ensures
        count_true(s.update(i, true)) == count_true(s) + 1,
        count_true(s) < s.len(),
    decreases s.len(),
{
    let u = s.update(i, true);
    if i == s.len() - 1 {
        assert(u.drop_last() =~= s.drop_last());
        lemma_count_true_le(s.drop_last());
    } else {
        assert(u.drop_last() =~= s.drop_last().update(i, true));
        lemma_count_true_set(s.drop_last(), i);
    }
}

} // verus!
