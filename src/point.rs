use vstd::prelude::*;

verus! {

/// A 2D vector with integer coordinates: a position, a velocity or a target.
#[derive(Clone, Copy, Debug, PartialEq, Eq, Structural)]
pub struct Point {
    pub x: i32,
    pub y: i32,
}

/// `r` is the nearest integer to `c * l / sqrt(n)` for `c >= 0`, halves rounded up.
///
/// Stated without square roots: `r - 1/2 <= c * l / sqrt(n) < r + 1/2`.
pub open spec fn is_nearest_nonneg(r: int, c: int, l: int, n: int) -> bool {
    &&& r >= 0
    &&& (r == 0 || (2 * r - 1) * (2 * r - 1) * n <= 4 * c * c * l * l)
    &&& 4 * c * c * l * l < (2 * r + 1) * (2 * r + 1) * n
}

/// The nearest integer to `c * l / sqrt(n)` for `c >= 0`.
pub open spec fn round_scaled_nonneg(c: int, l: int, n: int) -> int {
    choose|r: int| is_nearest_nonneg(r, c, l, n)
}

/// The nearest integer to `c * l / sqrt(n)`, halves rounded away from zero.
pub open spec fn round_scaled(c: int, l: int, n: int) -> int {
    if c >= 0 {
        round_scaled_nonneg(c, l, n)
    } else {
        -round_scaled_nonneg(-c, l, n)
    }
}

impl Point {
    /// The zero vector.
    pub fn zero() -> (r: Point)
        ensures
            r.x == 0 && r.y == 0,
    {
        Point { x: 0, y: 0 }
    }

    pub open spec fn len2_spec(self) -> int {
        self.x * self.x + self.y * self.y
    }

    pub open spec fn dist2_spec(self, other: Point) -> int {
        (self.x - other.x) * (self.x - other.x) + (self.y - other.y) * (self.y - other.y)
    }

    /// This vector rescaled to length `l`, each coordinate rounded to the nearest integer;
    /// the zero vector stays as it is.
    pub open spec fn scaled(self, l: int) -> Point {
        if self.x == 0 && self.y == 0 {
            self
        } else {
            Point {
                x: round_scaled(self.x as int, l, self.len2_spec()) as i32,
                y: round_scaled(self.y as int, l, self.len2_spec()) as i32,
            }
        }
    }

    /// Squared length.
    pub fn len2(&self) -> (r: u64)
        ensures
            r == self.len2_spec(),
    {
        let x = self.x as i64;
        let y = self.y as i64;
        proof {
            lemma_square_bound(x as int);
            lemma_square_bound(y as int);
        }
        (x * x) as u64 + (y * y) as u64
    }

    /// Squared distance to `other`.
    pub fn dist2(&self, other: &Point) -> (r: u128)
        ensures
            r == self.dist2_spec(*other),
    {
        let dx = self.x as i64 - other.x as i64;
        let dy = self.y as i64 - other.y as i64;
        let ax: u128 = if dx < 0 { (-dx) as u128 } else { dx as u128 };
        let ay: u128 = if dy < 0 { (-dy) as u128 } else { dy as u128 };
        assert(ax * ax <= 0x1_0000_0000_0000_0000u128) by (nonlinear_arith)
            requires ax <= 0x1_0000_0000u128;
        assert(ay * ay <= 0x1_0000_0000_0000_0000u128) by (nonlinear_arith)
            requires ay <= 0x1_0000_0000u128;
        assert(ax * ax == dx * dx) by (nonlinear_arith)
            requires ax == dx || ax == -dx;
        assert(ay * ay == dy * dy) by (nonlinear_arith)
            requires ay == dy || ay == -dy;
        ax * ax + ay * ay
    }

    /// Componentwise sum.
    pub fn add(self, rhs: Point) -> (r: Point)
        requires
            i32::MIN <= self.x + rhs.x <= i32::MAX,
            i32::MIN <= self.y + rhs.y <= i32::MAX,
        ensures
            r.x == self.x + rhs.x,
            r.y == self.y + rhs.y,
    {
        Point { x: self.x + rhs.x, y: self.y + rhs.y }
    }

    /// Componentwise difference.
    pub fn sub(self, rhs: Point) -> (r: Point)
        requires
            i32::MIN <= self.x - rhs.x <= i32::MAX,
            i32::MIN <= self.y - rhs.y <= i32::MAX,
        ensures
            r.x == self.x - rhs.x,
            r.y == self.y - rhs.y,
    {
        Point { x: self.x - rhs.x, y: self.y - rhs.y }
    }

    /// Adds `rhs` in place.
    pub fn add_assign(&mut self, rhs: Point)
        requires
            i32::MIN <= old(self).x + rhs.x <= i32::MAX,
            i32::MIN <= old(self).y + rhs.y <= i32::MAX,
        ensures
            final(self).x == old(self).x + rhs.x,
            final(self).y == old(self).y + rhs.y,
    {
        self.x = self.x + rhs.x;
        self.y = self.y + rhs.y;
    }

    /// Rescales this vector to length `target_len`, rounding each coordinate to the nearest
    /// integer (halves away from zero). The zero vector is returned unchanged.
    pub fn scale(&self, target_len: u16) -> (r: Point)
        ensures
            r == self.scaled(target_len as int),
            -(target_len as int) <= r.x <= target_len,
            -(target_len as int) <= r.y <= target_len,
            r.len2_spec() <= (target_len + 1) * (target_len + 1),
    {
        if self.x == 0 && self.y == 0 {
            return *self;
        }
        let n = self.len2();
        proof {
            assert(self.x * self.x >= 0) by (nonlinear_arith);
            assert(self.y * self.y >= 0) by (nonlinear_arith);
            assert(n > 0) by (nonlinear_arith)
                requires self.x != 0 || self.y != 0, n == self.x * self.x + self.y * self.y;
        }
        let x = round_component(self.x, target_len, n);
        let y = round_component(self.y, target_len, n);
        proof {
            let ax = if x < 0 { -x } else { x as int };
            let ay = if y < 0 { -y } else { y as int };
            let bx = if self.x < 0 { -self.x } else { self.x as int };
            let by = if self.y < 0 { -self.y } else { self.y as int };
            assert(bx * bx == self.x * self.x) by (nonlinear_arith)
                requires bx == self.x || bx == -self.x;
            assert(by * by == self.y * self.y) by (nonlinear_arith)
                requires by == self.y || by == -self.y;
            assert(ax * ax == x * x) by (nonlinear_arith)
                requires ax == x || ax == -x;
            assert(ay * ay == y * y) by (nonlinear_arith)
                requires ay == y || ay == -y;
            lemma_rounded_length(ax, ay, bx, by, target_len as int, n as int);
        }
        Point { x, y }
    }
}

proof fn lemma_square_bound(v: int)
    requires
        i32::MIN <= v <= i32::MAX,
    ensures
        0 <= v * v <= 0x4000_0000_0000_0000,
{
    assert(0 <= v * v <= 0x4000_0000_0000_0000) by (nonlinear_arith)
        requires -0x8000_0000 <= v <= 0x7fff_ffff;
}

/// Rounding both coordinates of a vector of length `l` gives length at most `l + 1`.
proof fn lemma_rounded_length(ax: int, ay: int, bx: int, by: int, l: int, n: int)
    requires
        n > 0,
        l >= 0,
        bx * bx + by * by == n,
        is_nearest_nonneg(ax, bx, l, n),
        is_nearest_nonneg(ay, by, l, n),
    ensures
        ax * ax + ay * ay <= (l + 1) * (l + 1),
{
    let l2 = l * l;
    let k = 4 * l2;
    assert(k == 4 * l * l) by (nonlinear_arith)
        requires l2 == l * l, k == 4 * l2;
    let xx = bx * bx;
    let yy = by * by;
    assert(xx >= 0 && yy >= 0 && l2 >= 0) by (nonlinear_arith)
        requires xx == bx * bx, yy == by * by, l2 == l * l;
    assert(4 * bx * bx * l * l == 4 * xx * l2) by (nonlinear_arith)
        requires xx == bx * bx, l2 == l * l;
    assert(4 * by * by * l * l == 4 * yy * l2) by (nonlinear_arith)
        requires yy == by * by, l2 == l * l;
    if ax >= 1 && ay >= 1 {
        let p = 2 * ax - 1;
        let q = 2 * ay - 1;
        let pp = p * p;
        let qq = q * q;
        assert(pp * n + qq * n <= 4 * xx * l2 + 4 * yy * l2);
        assert(4 * xx * l2 + 4 * yy * l2 == k * n) by (nonlinear_arith)
            requires xx + yy == n, k == 4 * l2;
        assert((pp + qq) * n == pp * n + qq * n) by (nonlinear_arith);
        assert((p * p + q * q) * n <= k * n);
        assert(p * p + q * q <= k) by (nonlinear_arith)
            requires (p * p + q * q) * n <= k * n, n > 0;
        assert(p + q <= 3 * l) by (nonlinear_arith)
            requires p * p + q * q <= 4 * l * l, p >= 1, q >= 1, l >= 0;
        assert(ax * ax + ay * ay <= (l + 1) * (l + 1)) by (nonlinear_arith)
            requires p == 2 * ax - 1, q == 2 * ay - 1, p * p + q * q <= 4 * l * l, p + q <= 3 * l;
    } else if ax >= 1 {
        let p = 2 * ax - 1;
        let pp = p * p;
        assert(4 * xx * l2 <= k * n) by (nonlinear_arith)
            requires xx <= n, k == 4 * l2, l2 >= 0;
        assert(p * p * n <= k * n);
        assert(p * p <= k) by (nonlinear_arith)
            requires p * p * n <= k * n, n > 0;
        assert(ax <= l) by (nonlinear_arith)
            requires p == 2 * ax - 1, p * p <= 4 * l * l, ax >= 1, l >= 0;
        assert(ax * ax + ay * ay <= (l + 1) * (l + 1)) by (nonlinear_arith)
            requires ax <= l, ay == 0, ax >= 0, l >= 0;
    } else if ay >= 1 {
        let q = 2 * ay - 1;
        let qq = q * q;
        assert(4 * yy * l2 <= k * n) by (nonlinear_arith)
            requires yy <= n, k == 4 * l2, l2 >= 0;
        assert(q * q * n <= k * n);
        assert(q * q <= k) by (nonlinear_arith)
            requires q * q * n <= k * n, n > 0;
        assert(ay <= l) by (nonlinear_arith)
            requires q == 2 * ay - 1, q * q <= 4 * l * l, ay >= 1, l >= 0;
        assert(ax * ax + ay * ay <= (l + 1) * (l + 1)) by (nonlinear_arith)
            requires ay <= l, ax == 0, ay >= 0, l >= 0;
    } else {
        assert(ax * ax + ay * ay <= (l + 1) * (l + 1)) by (nonlinear_arith)
            requires ax == 0, ay == 0;
    }
}

/// Two candidates that both satisfy `is_nearest_nonneg` are the same integer.
proof fn lemma_nearest_unique(r1: int, r2: int, c: int, l: int, n: int)
    requires
        n > 0,
        is_nearest_nonneg(r1, c, l, n),
        is_nearest_nonneg(r2, c, l, n),
    ensures
        r1 == r2,
{
    lemma_nearest_le(r1, r2, c, l, n);
    lemma_nearest_le(r2, r1, c, l, n);
}

proof fn lemma_nearest_le(r1: int, r2: int, c: int, l: int, n: int)
    requires
        n > 0,
        is_nearest_nonneg(r1, c, l, n),
        is_nearest_nonneg(r2, c, l, n),
    ensures
        r2 <= r1,
{
    if r2 <= r1 {
        return;
    }
    let k = 4 * c * c * l * l;
    let a = (2 * r2 - 1) * (2 * r2 - 1);
    let b = (2 * r1 + 1) * (2 * r1 + 1);
    assert(a * n <= k);
    assert(k < b * n);
    assert(a < b) by (nonlinear_arith)
        requires a * n < b * n, n > 0;
    assert(2 * r2 - 1 <= 2 * r1 + 1) by (nonlinear_arith)
        requires (2 * r2 - 1) * (2 * r2 - 1) < (2 * r1 + 1) * (2 * r1 + 1), r2 >= 1, r1 >= 0;
}

/// `round_scaled` is pinned down by `is_nearest_nonneg`.
proof fn lemma_round_scaled(r: int, c: int, l: int, n: int)
    requires
        n > 0,
        c >= 0 ==> is_nearest_nonneg(r, c, l, n),
        c < 0 ==> is_nearest_nonneg(-r, -c, l, n),
    ensures
        round_scaled(c, l, n) == r,
{
    if c >= 0 {
        lemma_nearest_unique(round_scaled_nonneg(c, l, n), r, c, l, n);
    } else {
        lemma_nearest_unique(round_scaled_nonneg(-c, l, n), -r, -c, l, n);
    }
}

/// Whether `(2r + 1)^2 * n <= target`.
fn next_fits_below(r: u32, n: u128, target: u128) -> (b: bool)
    requires
        r <= 0xffff,
        n <= 0xffff_ffff_ffff_ffff,
    ensures
        b == ((2 * r + 1) * (2 * r + 1) * n <= target),
{
    let s: u128 = 2 * (r as u128) + 1;
    assert(s * s <= 0x4_0000_0000) by (nonlinear_arith)
        requires s <= 0x2_0000;
    assert((s * s) * n <= 0x4_0000_0000 * 0xffff_ffff_ffff_ffff) by (nonlinear_arith)
        requires s * s <= 0x4_0000_0000, n <= 0xffff_ffff_ffff_ffff;
    s * s * n <= target
}

/// The nearest integer to `c * l / sqrt(n)`, where `c * c <= n`.
fn round_component(c: i32, l: u16, n: u64) -> (r: i32)
    requires
        n > 0,
        c * c <= n,
    ensures
        r == round_scaled(c as int, l as int, n as int),
        -(l as int) <= r <= l,
        c >= 0 ==> is_nearest_nonneg(r as int, c as int, l as int, n as int),
        c < 0 ==> is_nearest_nonneg(-r, -c, l as int, n as int),
{
    let a: u128 = if c < 0 { (-(c as i64)) as u128 } else { c as u128 };
    let l2: u128 = l as u128;
    let n2: u128 = n as u128;
    proof {
        assert(a * a == c * c) by (nonlinear_arith)
            requires a == c || a == -c;
        assert(a * a <= 0x4000_0000_0000_0000) by (nonlinear_arith)
            requires a <= 0x8000_0000;
        assert(l2 * l2 <= 0x1_0000_0000) by (nonlinear_arith)
            requires l2 <= 0xffff;
        assert(4 * (a * a) * (l2 * l2) <= 0x1_0000_0000_0000_0000_0000_0000) by (nonlinear_arith)
            requires a * a <= 0x4000_0000_0000_0000, l2 * l2 <= 0x1_0000_0000;
    }
    let target: u128 = 4 * (a * a) * (l2 * l2);
    let mut r: u32 = 0;
    let mut next_fits = next_fits_below(0, n2, target);
    while r < l as u32 && next_fits
        invariant
            r <= l,
            target == 4 * (a * a) * (l2 * l2),
            n2 == n,
            n > 0,
            a * a <= n,
            r == 0 || (2 * r - 1) * (2 * r - 1) * n <= target,
            next_fits == ((2 * r + 1) * (2 * r + 1) * n <= target),
        decreases l - r,
    {
        r = r + 1;
        next_fits = next_fits_below(r, n2, target);
    }
    proof {
        if r == l {
            // (2l+1)^2 n > 4 a^2 l^2, because a^2 <= n and (2l+1)^2 > 4 l^2.
            assert(target < (2 * r + 1) * (2 * r + 1) * n) by (nonlinear_arith)
                requires
                    target == 4 * (a * a) * (l2 * l2),
                    r == l2,
                    a * a <= n,
                    n > 0,
                    l2 >= 0;
        }
        assert(4 * a * a * l2 * l2 == target) by (nonlinear_arith)
            requires target == 4 * (a * a) * (l2 * l2);
        assert(is_nearest_nonneg(r as int, a as int, l as int, n as int));
        if c >= 0 {
            lemma_round_scaled(r as int, c as int, l as int, n as int);
        } else {
            lemma_round_scaled(-r, c as int, l as int, n as int);
        }
    }
    if c < 0 {
        -(r as i32)
    } else {
        r as i32
    }
}

} // verus!
