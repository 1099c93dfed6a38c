use vstd::prelude::*;

use crate::consts::{
    MAX_FIELD_SIZE, MAX_ITEMS, MAX_PLAYERS, START_HEIGHT, START_MAX_PLAYERS, START_WIDTH,
};

verus! {

/// `w` is `sqrt(m)` rounded to the nearest integer: `w - 1/2 <= sqrt(m) < w + 1/2`.
pub open spec fn is_rounded_sqrt(w: int, m: int) -> bool {
    &&& w >= 0
    &&& (w == 0 || (2 * w - 1) * (2 * w - 1) <= 4 * m)
    &&& 4 * m < (2 * w + 1) * (2 * w + 1)
}

pub open spec fn rounded_sqrt(m: int) -> int {
    choose|w: int| is_rounded_sqrt(w, m)
}

/// Field width for `n` players: the starting width, scaled by `sqrt(n / START_MAX_PLAYERS)` once
/// `n` reaches `START_MAX_PLAYERS`, rounded.
pub open spec fn field_width(n: int) -> int {
    if n < START_MAX_PLAYERS {
        START_WIDTH as int
    } else {
        rounded_sqrt(START_WIDTH * START_WIDTH * n / START_MAX_PLAYERS as int)
    }
}

/// Field height for `n` players, scaled as the width is.
pub open spec fn field_height(n: int) -> int {
    if n < START_MAX_PLAYERS {
        START_HEIGHT as int
    } else {
        rounded_sqrt(START_HEIGHT * START_HEIGHT * n / START_MAX_PLAYERS as int)
    }
}

/// How many items a field for `n` players holds: `MAX_ITEMS` scaled by `n / START_MAX_PLAYERS`
/// once `n` reaches `START_MAX_PLAYERS` (the quotient is exact for these constants).
pub open spec fn item_target(n: int) -> int {
    if n < START_MAX_PLAYERS {
        MAX_ITEMS as int
    } else {
        MAX_ITEMS * n / START_MAX_PLAYERS as int
    }
}

proof fn lemma_rounded_sqrt_le(w1: int, w2: int, m1: int, m2: int)
    requires
        is_rounded_sqrt(w1, m1),
        is_rounded_sqrt(w2, m2),
        m1 <= m2,
    ensures
        w1 <= w2,
{
    if w1 > w2 {
        assert((2 * w1 - 1) * (2 * w1 - 1) < (2 * w2 + 1) * (2 * w2 + 1));
        assert(2 * w1 - 1 < 2 * w2 + 1) by (nonlinear_arith)
            requires
                (2 * w1 - 1) * (2 * w1 - 1) < (2 * w2 + 1) * (2 * w2 + 1),
                w1 >= 1,
                w2 >= 0,
        ;
    }
}

/// A witness for `rounded_sqrt`, built up one unit of `m` at a time.
spec fn sqrt_witness(m: nat) -> int
    decreases m,
{
    if m == 0 {
        0
    } else {
        let w = sqrt_witness((m - 1) as nat);
        if (2 * w + 1) * (2 * w + 1) <= 4 * m {
            w + 1
        } else {
            w
        }
    }
}

proof fn lemma_sqrt_witness(m: nat)
    ensures
        is_rounded_sqrt(sqrt_witness(m), m as int),
    decreases m,
{
    if m > 0 {
        lemma_sqrt_witness((m - 1) as nat);
        let w = sqrt_witness((m - 1) as nat);
        let mi = m as int;
        if (2 * w + 1) * (2 * w + 1) <= 4 * mi {
            assert(sqrt_witness(m) == w + 1);
            assert(is_rounded_sqrt(w + 1, mi)) by (nonlinear_arith)
                requires
                    w >= 0,
                    4 * (mi - 1) < (2 * w + 1) * (2 * w + 1),
                    (2 * w + 1) * (2 * w + 1) <= 4 * mi,
            ;
        } else {
            assert(sqrt_witness(m) == w);
            assert(is_rounded_sqrt(w, mi)) by (nonlinear_arith)
                requires
                    w >= 0,
                    w == 0 || (2 * w - 1) * (2 * w - 1) <= 4 * (mi - 1),
                    4 * mi < (2 * w + 1) * (2 * w + 1),
            ;
        }
    } else {
        assert(sqrt_witness(m) == 0);
        assert(is_rounded_sqrt(0, 0)) by (nonlinear_arith);
    }
}

pub proof fn lemma_rounded_sqrt_exists(m: int)
    requires
        m >= 0,
    ensures
        is_rounded_sqrt(rounded_sqrt(m), m),
{
    lemma_sqrt_witness(m as nat);
}

/// `rounded_sqrt` is pinned down by `is_rounded_sqrt`.
pub proof fn lemma_rounded_sqrt(w: int, m: int)
    requires
        is_rounded_sqrt(w, m),
    ensures
        rounded_sqrt(m) == w,
{
    lemma_rounded_sqrt_le(w, rounded_sqrt(m), m, m);
    lemma_rounded_sqrt_le(rounded_sqrt(m), w, m, m);
}

/// Up to `START_MAX_PLAYERS` players the field keeps its starting size and item count.
pub proof fn lemma_start_field(n: int)
    requires
        0 <= n <= START_MAX_PLAYERS,
    ensures
        field_width(n) == START_WIDTH,
        field_height(n) == START_HEIGHT,
        item_target(n) == MAX_ITEMS,
{
    if n == START_MAX_PLAYERS {
        assert(3999 * 3999 == 15992001 && 4001 * 4001 == 16008001);
        assert(2999 * 2999 == 8994001 && 3001 * 3001 == 9006001);
        lemma_rounded_sqrt(2000, 4000000);
        lemma_rounded_sqrt(1500, 2250000);
    }
}

/// The field never shrinks as players join, starts at its starting size, and stays within
/// `MAX_FIELD_SIZE` up to `MAX_PLAYERS` players.
pub proof fn lemma_field_monotone(n1: int, n2: int)
    requires
        0 <= n1 <= n2,
    ensures
        field_width(n1) <= field_width(n2),
        field_height(n1) <= field_height(n2),
        START_WIDTH <= field_width(n1),
        START_HEIGHT <= field_height(n1),
        n2 <= MAX_PLAYERS ==> field_width(n2) <= MAX_FIELD_SIZE && field_height(n2) <= MAX_FIELD_SIZE,
{
    let mw1 = START_WIDTH * START_WIDTH * n1 / START_MAX_PLAYERS as int;
    let mw2 = START_WIDTH * START_WIDTH * n2 / START_MAX_PLAYERS as int;
    let mh1 = START_HEIGHT * START_HEIGHT * n1 / START_MAX_PLAYERS as int;
    let mh2 = START_HEIGHT * START_HEIGHT * n2 / START_MAX_PLAYERS as int;
    assert(mw1 == 800000 * n1) by (nonlinear_arith)
        requires mw1 == 4000000 * n1 / 5;
    assert(mw2 == 800000 * n2) by (nonlinear_arith)
        requires mw2 == 4000000 * n2 / 5;
    assert(mh1 == 450000 * n1) by (nonlinear_arith)
        requires mh1 == 2250000 * n1 / 5;
    assert(mh2 == 450000 * n2) by (nonlinear_arith)
        requires mh2 == 2250000 * n2 / 5;
    lemma_rounded_sqrt_exists(mw1);
    lemma_rounded_sqrt_exists(mw2);
    lemma_rounded_sqrt_exists(mh1);
    lemma_rounded_sqrt_exists(mh2);
    assert(3999 * 3999 == 15992001 && 4001 * 4001 == 16008001);
    assert(2999 * 2999 == 8994001 && 3001 * 3001 == 9006001);
    lemma_rounded_sqrt(2000, 4000000);
    lemma_rounded_sqrt(1500, 2250000);
    if n1 >= START_MAX_PLAYERS {
        lemma_rounded_sqrt_le(2000, field_width(n1), 4000000, mw1);
        lemma_rounded_sqrt_le(1500, field_height(n1), 2250000, mh1);
    }
    if n2 >= START_MAX_PLAYERS {
        lemma_rounded_sqrt_le(2000, field_width(n2), 4000000, mw2);
        lemma_rounded_sqrt_le(1500, field_height(n2), 2250000, mh2);
        if n2 <= MAX_PLAYERS {
            assert(1788853 * 1788853 == 3199995055609 && 1788855 * 1788855 == 3200002211025);
            assert(1341639 * 1341639 == 1799995206321 && 1341641 * 1341641 == 1800000572881);
            lemma_rounded_sqrt(894427, 800000000000);
            lemma_rounded_sqrt_le(field_width(n2), 894427, mw2, 800000000000);
            lemma_rounded_sqrt(670820, 450000000000);
            lemma_rounded_sqrt_le(field_height(n2), 670820, mh2, 450000000000);
        }
    }
    if n1 >= START_MAX_PLAYERS {
        lemma_rounded_sqrt_le(field_width(n1), field_width(n2), mw1, mw2);
        lemma_rounded_sqrt_le(field_height(n1), field_height(n2), mh1, mh2);
    }
}

/// `sqrt(m)` rounded to the nearest integer.
pub fn round_sqrt(m: u64) -> (w: u64)
    requires
        m <= 0x10_0000_0000_0000,
    ensures
        is_rounded_sqrt(w as int, m as int),
        w <= 0x4000_0000,
{
    // Largest w with (2w - 1)^2 <= 4m, found by bisection over [lo, hi).
    let mut lo: u64 = 0;
    let mut hi: u64 = 0x4000_0000;
    proof {
        assert((2 * hi - 1) * (2 * hi - 1) > 4 * m) by (nonlinear_arith)
            requires hi == 0x4000_0000, m <= 0x10_0000_0000_0000;
    }
    while hi - lo > 1
        invariant
            lo < hi <= 0x4000_0000,
            m <= 0x10_0000_0000_0000,
            lo == 0 || (2 * lo - 1) * (2 * lo - 1) <= 4 * m,
            (2 * hi - 1) * (2 * hi - 1) > 4 * m,
        decreases hi - lo,
    {
        let mid = lo + (hi - lo) / 2;
        let t = 2 * mid - 1;
        assert(t * t < 0x4000_0000_0000_0000) by (nonlinear_arith)
            requires t < 0x8000_0000;
        if t * t <= 4 * m {
            lo = mid;
        } else {
            hi = mid;
        }
    }
    proof {
        assert(hi == lo + 1);
        assert((2 * lo + 1) * (2 * lo + 1) > 4 * m);
    }
    lo
}

/// Columns of spots 240 apart, starting at 20, that fit a field `w` wide with a margin of 20.
pub open spec fn grid_cols(w: int) -> int {
    (w - 41) / 240 + 1
}

proof fn lemma_side_bound(w: int, m: int, lo: int, k: int)
    requires
        is_rounded_sqrt(w, m),
        m == k * lo,
        w >= 2000 || (w >= 1500 && k == 450000),
        k == 800000 || k == 450000,
        lo >= 0,
        w >= 1500,
    ensures
        w * w >= (k - 100000) * lo,
{
    assert(4 * m < (2 * w + 1) * (2 * w + 1));
    assert(w * w + w >= k * lo) by (nonlinear_arith)
        requires 4 * m < (2 * w + 1) * (2 * w + 1), m == k * lo;
    assert(w * w >= 1500 * w) by (nonlinear_arith)
        requires w >= 1500;
    assert(w * w >= (k - 100000) * lo) by (nonlinear_arith)
        requires w * w + w >= k * lo, w * w >= 1500 * w, w >= 1500, lo >= 0, k <= 800000,
            k >= 450000;
}

/// A field for `n >= START_MAX_PLAYERS` players holds a grid of at least `2n` such spots.
pub proof fn lemma_grid_size(n: int)
    requires
        START_MAX_PLAYERS <= n,
    ensures
        grid_cols(field_width(n)) * grid_cols(field_height(n)) >= item_target(n),
        grid_cols(field_width(n)) >= 1,
        grid_cols(field_height(n)) >= 1,
{
    let w = field_width(n);
    let h = field_height(n);
    lemma_field_monotone(n, n);
    let mw = START_WIDTH * START_WIDTH * n / START_MAX_PLAYERS as int;
    let mh = START_HEIGHT * START_HEIGHT * n / START_MAX_PLAYERS as int;
    assert(mw == 800000 * n) by (nonlinear_arith)
        requires mw == 4000000 * n / 5;
    assert(mh == 450000 * n) by (nonlinear_arith)
        requires mh == 2250000 * n / 5;
    lemma_rounded_sqrt_exists(mw);
    lemma_rounded_sqrt_exists(mh);
    lemma_side_bound(w, mw, n, 800000);
    lemma_side_bound(h, mh, n, 450000);
    assert((w * h) * (w * h) >= 700000 * 350000 * (n * n)) by (nonlinear_arith)
        requires w * w >= 700000 * n, h * h >= 350000 * n, n >= 0, w >= 0, h >= 0;
    assert(w * h >= 490000 * n) by (nonlinear_arith)
        requires (w * h) * (w * h) >= 700000 * 350000 * (n * n), w >= 0, h >= 0, n >= 0;
    let c = grid_cols(w);
    let r = grid_cols(h);
    assert(240 * c >= w - 40 && 240 * r >= h - 40);
    assert(4 * ((w - 40) * (h - 40)) >= w * h) by (nonlinear_arith)
        requires w >= 2000, h >= 1500;
    assert(57600 * (c * r) >= (w - 40) * (h - 40)) by (nonlinear_arith)
        requires 240 * c >= w - 40, 240 * r >= h - 40, w >= 2000, h >= 1500;
    assert(item_target(n) == 2 * n);
}

} // verus!
