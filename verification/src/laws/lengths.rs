//! How closely lengths are computed: what rounding does to squares, sums, roots and quotients.
use vstd::arithmetic::power2::*;
use vstd::prelude::*;

use crate::ieee::bounds::{lemma_int_within, lemma_power_code, power_code, within};
use crate::ieee::convert::double_of_int;
use crate::ieee::double::{lemma_double_format, DOUBLE_INF};
use crate::ieee::encoding::{code_units, lemma_code_split, lemma_code_units_increases, Double};
use crate::ieee::error::{lemma_relative_error, lemma_step};
use crate::ieee::exact::{
    lemma_nearest_at_least, lemma_nearest_at_most, lemma_nearest_exists,
    lemma_nearest_root_at_least, lemma_nearest_root_exists,
};
use crate::ieee::root::{nearest_root_code, root_rounds_to};
use crate::ieee::rounding::{lemma_code_units_ordered, nearest_code};
use crate::vector::Vector;

verus! {

/// `x` differs from `y` by at most one part in `2^k`.
pub open spec fn close(x: int, y: int, k: nat) -> bool {
    0 <= x && 0 <= y && (x - y) * pow2(k) <= y && (y - x) * pow2(k) <= y
}

/// Sums of close numbers are close.
pub proof fn lemma_close_sum(x1: int, y1: int, x2: int, y2: int, k: nat)
    requires
        close(x1, y1, k),
        close(x2, y2, k),
    ensures
        close(x1 + x2, y1 + y2, k),
{
    let h = pow2(k) as int;
    assert((x1 + x2 - (y1 + y2)) * h == (x1 - y1) * h + (x2 - y2) * h && (y1 + y2 - (x1 + x2)) * h
        == (y1 - x1) * h + (y2 - x2) * h) by (nonlinear_arith);
}

/// Close numbers are close by a lesser measure.
pub proof fn lemma_close_weakens(x: int, y: int, k: nat, j: nat)
    requires
        close(x, y, k),
        j <= k,
    ensures
        close(x, y, j),
{
    if j < k {
        lemma_pow2_strictly_increases(j, k);
        let (h, g) = (pow2(k) as int, pow2(j) as int);
        assert((x - y) * g <= y && (y - x) * g <= y) by (nonlinear_arith)
            requires
                (x - y) * h <= y,
                (y - x) * h <= y,
                0 <= g <= h,
                y >= 0,
        ;
    }
}

/// Close numbers are within a factor of two.
pub proof fn lemma_close_doubles(x: int, y: int, k: nat)
    requires
        close(x, y, k),
        k >= 1,
    ensures
        x <= 2 * y,
        y <= 2 * x,
{
    lemma_close_weakens(x, y, k, 1);
    lemma2_to64();
    assert((x - y) * 2 <= y && (y - x) * 2 <= y);
}

/// What is close to something close is close, by a lesser measure.
pub proof fn lemma_close_chain(x: int, y: int, z: int, k: nat)
    requires
        close(x, y, k + 2),
        close(y, z, k + 1),
    ensures
        close(x, z, k),
{
    lemma_close_doubles(y, z, k + 1);
    lemma_pow2_unfold(k + 2);
    lemma_pow2_unfold(k + 1);
    let h = pow2(k) as int;
    assert((x - z) * h <= z && (z - x) * h <= z) by (nonlinear_arith)
        requires
            (x - y) * (4 * h) <= y,
            (y - x) * (4 * h) <= y,
            (y - z) * (2 * h) <= z,
            (z - y) * (2 * h) <= z,
            y <= 2 * z,
            z >= 0,
    ;
}

/// Either of two close numbers is close to the other.
pub proof fn lemma_close_turns(x: int, y: int, k: nat)
    requires
        close(x, y, k + 1),
    ensures
        close(y, x, k),
{
    lemma_close_doubles(x, y, k + 1);
    lemma_pow2_unfold(k + 1);
    let h = pow2(k) as int;
    assert((x - y) * (2 * h) == 2 * ((x - y) * h) && (y - x) * (2 * h) == 2 * ((y - x) * h))
        by (nonlinear_arith);
}

/// Multiples of close numbers are close.
pub proof fn lemma_close_scales(x: int, y: int, c: int, k: nat)
    requires
        close(x, y, k),
        c >= 0,
    ensures
        close(x * c, y * c, k),
{
    let h = pow2(k) as int;
    assert((x * c - y * c) * h <= y * c && (y * c - x * c) * h <= y * c && 0 <= x * c && 0 <= y * c)
        by (nonlinear_arith)
        requires
            (x - y) * h <= y,
            (y - x) * h <= y,
            0 <= x,
            0 <= y,
            c >= 0,
    {
        assert((x * c - y * c) * h == ((x - y) * h) * c);
        assert((y * c - x * c) * h == ((y - x) * h) * c);
    }
}

/// Numbers with close multiples are close.
pub proof fn lemma_close_cancels(x: int, y: int, c: int, k: nat)
    requires
        close(x * c, y * c, k),
        c > 0,
    ensures
        close(x, y, k),
{
    let h = pow2(k) as int;
    assert((x - y) * h <= y && (y - x) * h <= y && 0 <= x && 0 <= y) by (nonlinear_arith)
        requires
            (x * c - y * c) * h <= y * c,
            (y * c - x * c) * h <= y * c,
            0 <= x * c,
            0 <= y * c,
            c > 0,
    {
        assert((x * c - y * c) * h == ((x - y) * h) * c);
        assert((y * c - x * c) * h == ((y - x) * h) * c);
    }
}

/// Squares of close numbers are close, by a lesser measure.
pub proof fn lemma_close_squares(x: int, y: int, k: nat)
    requires
        close(x, y, k + 2),
    ensures
        close(x * x, y * y, k),
{
    lemma_close_doubles(x, y, k + 2);
    lemma_pow2_unfold(k + 2);
    lemma_pow2_unfold(k + 1);
    let h = pow2(k) as int;
    let (d, s) = ((x - y) * h, x + y);
    assert(4 * d <= y && -(4 * d) <= y) by (nonlinear_arith)
        requires
            (x - y) * (4 * h) <= y,
            (y - x) * (4 * h) <= y,
            d == (x - y) * h,
    ;
    assert((x * x - y * y) * h == d * s && (y * y - x * x) * h == -(d * s)) by (nonlinear_arith)
        requires
            d == (x - y) * h,
            s == x + y,
    ;
    assert(4 * (d * s) <= 3 * (y * y) && -(4 * (d * s)) <= 3 * (y * y)) by (nonlinear_arith)
        requires
            4 * d <= y,
            -(4 * d) <= y,
            0 <= s <= 3 * y,
            y >= 0,
    ;
    assert(0 <= x * x && 0 <= y * y) by (nonlinear_arith);
}

/// A distance along an axis, in units: nothing, or from a meter to `2^127` of them.
pub open spec fn is_extent(a: nat) -> bool {
    a == 0 || pow2(1074) <= a <= pow2(1201)
}

/// A number of units that rounding changes little: nothing, or neither too small nor too large.
pub open spec fn is_steady(x: int) -> bool {
    x == 0 || pow2(52) <= x <= pow2(1400)
}

/// A whole number of meters is an extent.
pub proof fn lemma_extent_of_int(x: int)
    requires
        -(pow2(127) as int) <= x <= pow2(127),
    ensures
        double_of_int(x).finite(),
        is_extent(code_units(double_of_int(x).code(), 52)),
        x != 0 ==> code_units(double_of_int(x).code(), 52) > 0,
{
    lemma_int_within(x, 127);
    lemma_pow2_pos(1074);
    let m = if x < 0 {
        (-x) as nat
    } else {
        x as nat
    };
    let n = m * pow2(1074);
    if x == 0 {
        assert(n == 0) by (nonlinear_arith)
            requires
                m == 0,
                n == m * pow2(1074),
        ;
        lemma_pow2_pos(52);
        assert(code_units(0, 52) * 1 == 0);
        lemma_nearest_at_most(n, 1, 52, DOUBLE_INF as nat, 0);
    } else {
        lemma_power_code(0);
        assert(n >= pow2(1074) * 1) by (nonlinear_arith)
            requires
                m >= 1,
                n == m * pow2(1074),
        ;
        lemma_nearest_at_least(n, 1, 52, DOUBLE_INF as nat, power_code(0));
        lemma_nearest_exists(n, 1, 52, DOUBLE_INF as nat);
        assert(double_of_int(x).code() == nearest_code(n, 1, 52, DOUBLE_INF as nat));
        lemma_code_units_ordered(power_code(0), double_of_int(x).code(), 52);
    }
}

/// The square of an extent, rounded.
pub proof fn lemma_square_rounds(x: Double)
    requires
        x.finite(),
        is_extent(code_units(x.code(), 52)),
    ensures
        ({
            let a = code_units(x.code(), 52);
            let p = x.product(x);
            &&& p.finite()
            &&& !p.negative()
            &&& is_steady(p.units())
            &&& close(p.units() * pow2(1074), a as int * a, 53)
            &&& p.units() <= pow2(1330)
            &&& a > 0 ==> p.units() >= pow2(1074)
        }),
{
    let a = code_units(x.code(), 52);
    let u = pow2(1074);
    let inf = DOUBLE_INF as nat;
    let p = x.product(x);
    let n = a * a;
    lemma_pow2_pos(1074);
    lemma_pow2_pos(52);
    if a == 0 {
        assert(n == 0 && 0 * u == 0) by (nonlinear_arith)
            requires
                n == a * a,
                a == 0,
        ;
        assert(code_units(0, 52) == 0);
        lemma_nearest_at_most(n, u, 52, inf, 0);
        assert(0 * pow2(53) == 0) by (nonlinear_arith);
    } else {
        let t = pow2(1201);
        lemma_pow2_adds(1201, 1201);
        lemma_pow2_adds(1328, 1074);
        lemma_pow2_strictly_increases(52, 1074);
        lemma_pow2_strictly_increases(1328, 1330);
        lemma_pow2_strictly_increases(1330, 1400);
        lemma_pow2_strictly_increases(1328, 2000);
        assert(u * u <= n <= t * t) by (nonlinear_arith)
            requires
                n == a * a,
                u <= a <= t,
        ;
        assert(pow2(52) * u <= n <= pow2(2000) * u) by (nonlinear_arith)
            requires
                u * u <= n <= pow2(1328) * u,
                pow2(52) <= u,
                pow2(1328) <= pow2(2000),
        ;
        lemma_relative_error(n, u);
        let c = nearest_code(n, u, 52, inf);
        lemma_power_code(254);
        lemma_nearest_at_most(n, u, 52, inf, power_code(254));
        lemma_power_code(0);
        lemma_nearest_at_least(n, u, 52, inf, power_code(0));
        lemma_code_units_ordered(power_code(0), c, 52);
        lemma_code_units_ordered(c, power_code(254), 52);
        lemma_least_normal();
        lemma_code_units_ordered(0x10_0000_0000_0000, c, 52);
        assert(p.code() == c);
    }
}

proof fn lemma_least_normal()
    ensures
        code_units(0x10_0000_0000_0000, 52) == pow2(52),
{
    lemma_double_format();
    lemma2_to64();
    lemma_code_split(0, pow2(52), 52);
    assert(pow2(52) * 1 == pow2(52));
}

/// A sum of steady numbers, rounded.
pub proof fn lemma_steady_sum(x: Double, y: Double)
    requires
        x.finite(),
        y.finite(),
        !x.negative(),
        !y.negative(),
        is_steady(x.units()),
        is_steady(y.units()),
        x.units() <= pow2(1340),
        y.units() <= pow2(1340),
    ensures
        ({
            let s = x.sum(y);
            &&& s.finite()
            &&& !s.negative()
            &&& is_steady(s.units())
            &&& close(s.units(), x.units() + y.units(), 53)
            &&& s.units() <= 4 * pow2(1340)
            &&& x.units() <= s.units()
            &&& y.units() <= s.units()
        }),
{
    let n = (x.units() + y.units()) as nat;
    let inf = DOUBLE_INF as nat;
    let s = x.sum(y);
    lemma_pow2_pos(52);
    assert(code_units(0, 52) == 0);
    if n == 0 {
        assert(0 * pow2(53) == 0) by (nonlinear_arith);
    } else {
        lemma2_to64();
        lemma_pow2_adds(2, 1340);
        lemma_pow2_strictly_increases(1342, 1400);
        lemma_pow2_strictly_increases(1342, 2000);
        assert(pow2(52) * 1 <= n && n <= pow2(2000) * 1);
        lemma_relative_error(n, 1);
        let c = nearest_code(n, 1, 52, inf);
        let r = code_units(c, 52);
        assert(r * 1 == r);
        assert(s.code() == c);
        assert(close(r as int, n as int, 53));
        lemma_close_doubles(r as int, n as int, 53);
        let (k, l) = (code_units(x.code(), 52), code_units(y.code(), 52));
        assert(k * 1 == k && l * 1 == l);
        lemma_nearest_at_least(n, 1, 52, inf, x.code());
        lemma_nearest_at_least(n, 1, 52, inf, y.code());
        lemma_code_units_ordered(x.code(), c, 52);
        lemma_code_units_ordered(y.code(), c, 52);
        lemma_least_normal();
        lemma_code_units_ordered(0x10_0000_0000_0000, c, 52);
    }
}

/// The root of something steady, rounded: its square is close.
pub proof fn lemma_root_rounds(q: Double)
    requires
        q.finite(),
        !q.negative(),
        pow2(1073) <= q.units() <= pow2(1400),
    ensures
        ({
            let r = q.root();
            &&& r.finite()
            &&& !r.negative()
            &&& pow2(1073) <= r.units() <= pow2(1300)
            &&& q.units() >= pow2(1074) ==> r.units() >= pow2(1074)
            &&& close(r.units() * r.units(), q.units() * pow2(1074), 50)
        }),
{
    let u = pow2(1074);
    let inf = DOUBLE_INF as nat;
    let s = (q.units() * u) as nat;
    let c = nearest_root_code(s, 52, inf);
    lemma_pow2_pos(52);
    lemma_pow2_pos(1073);
    assert(code_units(0, 52) == 0);
    assert(s as int == q.units() * u) by (nonlinear_arith)
        requires
            s == (q.units() * u) as nat,
            q.units() >= 0,
            u >= 0,
    ;
    lemma_power_code(-1);
    lemma_pow2_unfold(1074);
    assert(s >= pow2(1073) * pow2(1073)) by (nonlinear_arith)
        requires
            s == q.units() * u,
            q.units() >= pow2(1073),
            u == 2 * pow2(1073),
    ;
    lemma_nearest_root_at_least(s, 52, inf, power_code(-1));
    lemma_nearest_root_exists(s, 52, inf);
    assert(root_rounds_to(c, s, 52, inf));
    if q.units() >= u {
        lemma_power_code(0);
        assert(s >= u * u) by (nonlinear_arith)
            requires
                s == q.units() * u,
                q.units() >= u,
        ;
        lemma_nearest_root_at_least(s, 52, inf, power_code(0));
        lemma_code_units_ordered(power_code(0), c, 52);
    }
    // Not above 2^226.
    lemma_power_code(226);
    lemma_pow2_adds(1400, 1074);
    lemma_pow2_adds(1300, 1300);
    lemma_pow2_strictly_increases(2474, 2600);
    let v = pow2(1300);
    assert(s <= v * v) by (nonlinear_arith)
        requires
            s == q.units() * u,
            0 <= q.units() <= pow2(1400),
            pow2(1400) * u == pow2(2474),
            pow2(2474) <= v * v,
    ;
    if c > power_code(226) {
        lemma_code_units_ordered(power_code(226), (c - 1) as nat, 52);
        lemma_code_units_increases(power_code(226), c, 52);
        let low = code_units((c - 1) as nat, 52) + code_units(c, 52);
        assert(low * low > 4 * s) by (nonlinear_arith)
            requires
                low > 2 * v,
                s <= v * v,
        ;
    }
    lemma_code_units_ordered(c, power_code(226), 52);
    lemma_code_units_ordered(power_code(-1), c, 52);
    // The neighbors are a step away.
    lemma2_to64_rest();
    lemma_step(c, 52);
    lemma_step((c - 1) as nat, 52);
    let q52 = 0x10_0000_0000_0000nat;
    let n = code_units(c, 52);
    let before = (c - 1) as nat;
    assert(c >= 1022 * q52);
    assert(before >= q52 && c / q52 >= 1 && before / q52 >= 1 && before / q52 <= c / q52);
    let e = (c / q52 - 1) as nat;
    let g = pow2(e);
    assert(n == (c % q52 + q52) * g);
    assert(n >= q52 * g) by (nonlinear_arith)
        requires
            n == (c % q52 + q52) * g,
            g >= 0,
            c % q52 >= 0,
    ;
    if before / q52 < c / q52 {
        lemma_pow2_strictly_increases((before / q52 - 1) as nat, e);
    }
    lemma_pow2_pos(e);
    assert(n - code_units(before, 52) <= g);
    let (low, high) = (code_units(before, 52) + n, n + code_units(c + 1, 52));
    assert(low * low >= (2 * n - g) * (2 * n - g)) by (nonlinear_arith)
        requires
            low >= 2 * n - g,
            2 * n - g >= 0,
    ;
    assert(high == 2 * n + g);
    let m = n as int * n;
    assert((s - m) * pow2(51) <= m && (m - s) * pow2(51) <= m) by (nonlinear_arith)
        requires
            (2 * n - g) * (2 * n - g) <= 4 * s,
            4 * s <= (2 * n + g) * (2 * n + g),
            m == n * n,
            n >= 0x10_0000_0000_0000 * g,
            pow2(51) == 0x8_0000_0000_0000,
            g >= 0,
    {
        let x = n * g;
        assert((2 * n - g) * (2 * n - g) == 4 * m - 4 * x + g * g);
        assert((2 * n + g) * (2 * n + g) == 4 * m + 4 * x + g * g);
        assert(n * n >= n * (0x10_0000_0000_0000 * g));
        assert(n * (0x10_0000_0000_0000 * g) == 0x10_0000_0000_0000 * x);
        assert(g * g <= g * n);
        assert(g * n == x);
    }
    assert(m >= 0) by (nonlinear_arith)
        requires
            m == n * n,
    ;
    assert(close(s as int, m, 51));
    lemma_close_turns(s as int, m, 50);
    assert(q.root().code() == c);
}

/// An extent over a length, rounded.
pub proof fn lemma_quotient_rounds(x: Double, n: Double)
    requires
        x.finite(),
        is_extent(code_units(x.code(), 52)),
        n.finite(),
        !n.negative(),
        pow2(1073) <= n.units() <= pow2(1300),
    ensures
        ({
            let a = code_units(x.code(), 52);
            let d = x.quotient(n);
            &&& d.finite()
            &&& close(code_units(d.code(), 52) * n.units(), (a * pow2(1074)) as int, 53)
        }),
{
    let (a, m, u) = (code_units(x.code(), 52), n.units() as nat, pow2(1074));
    let d = x.quotient(n);
    let k = a * u;
    lemma_pow2_pos(52);
    lemma_pow2_pos(1073);
    lemma_pow2_pos(1074);
    assert(code_units(0, 52) == 0);
    if a == 0 {
        if x.code() > 0 {
            lemma_code_units_increases(0, x.code(), 52);
        }
        assert(k == 0 && 0 * m == 0 && 0 * pow2(53) == 0) by (nonlinear_arith)
            requires
                k == a * u,
                a == 0,
        ;
    } else {
        lemma_pow2_adds(848, 1300);
        lemma_pow2_adds(1074, 1074);
        lemma_pow2_adds(1201, 1074);
        lemma_pow2_adds(1202, 1073);
        lemma_pow2_strictly_increases(52, 848);
        lemma_pow2_strictly_increases(1202, 2000);
        assert(pow2(52) * m <= k <= pow2(2000) * m) by (nonlinear_arith)
            requires
                k == a * u,
                u <= a <= pow2(1201),
                u * u == pow2(848) * pow2(1300),
                pow2(1201) * u == pow2(1202) * pow2(1073),
                pow2(1073) <= m <= pow2(1300),
                pow2(52) <= pow2(848),
                pow2(1202) <= pow2(2000),
                u > 0,
        {
            assert(a * u >= u * u);
            assert(pow2(52) * m <= pow2(848) * pow2(1300));
            assert(a * u <= pow2(1201) * u);
            assert(pow2(1202) * pow2(1073) <= pow2(2000) * m);
        }
        lemma_relative_error(k, m);
        assert(d.code() == nearest_code(k, m, 52, DOUBLE_INF as nat));
        let r = code_units(d.code(), 52);
        assert(r as int * m >= 0) by (nonlinear_arith);
    }
}

/// The length of a vector of extents: a finite number of at least a meter, whose square is close
/// to the exact one.
pub proof fn lemma_norm(v: Vector)
    requires
        v.x.finite(),
        v.y.finite(),
        v.z.finite(),
        is_extent(code_units(v.x.code(), 52)),
        is_extent(code_units(v.y.code(), 52)),
        is_extent(code_units(v.z.code(), 52)),
        code_units(v.x.code(), 52) > 0 || code_units(v.y.code(), 52) > 0 || code_units(
            v.z.code(),
            52,
        ) > 0,
    ensures
        ({
            let (a, b, c) = (
                code_units(v.x.code(), 52) as int,
                code_units(v.y.code(), 52) as int,
                code_units(v.z.code(), 52) as int,
            );
            let n = v.norm();
            &&& n.finite()
            &&& !n.negative()
            &&& pow2(1074) <= n.units() <= pow2(1300)
            &&& close(n.units() * n.units(), a * a + b * b + c * c, 48)
        }),
{
    let u = pow2(1074) as int;
    let (a, b, c) = (
        code_units(v.x.code(), 52) as int,
        code_units(v.y.code(), 52) as int,
        code_units(v.z.code(), 52) as int,
    );
    lemma_pow2_pos(1074);
    lemma_pow2_strictly_increases(1330, 1340);
    let (xx, yy, zz) = (v.x.product(v.x), v.y.product(v.y), v.z.product(v.z));
    lemma_square_rounds(v.x);
    lemma_square_rounds(v.y);
    lemma_square_rounds(v.z);
    let sum = xx.sum(yy);
    lemma_steady_sum(xx, yy);
    lemma_close_doubles(sum.units(), xx.units() + yy.units(), 53);
    lemma2_to64();
    lemma_pow2_adds(10, 1330);
    let q = sum.sum(zz);
    assert(sum.units() <= pow2(1340));
    lemma_steady_sum(sum, zz);
    // The rounded square is close to the exact one.
    let (s2, s3) = (a * a + b * b, a * a + b * b + c * c);
    lemma_close_sum(xx.units() * u, a * a, yy.units() * u, b * b, 53);
    assert(xx.units() * u + yy.units() * u == (xx.units() + yy.units()) * u) by (nonlinear_arith);
    lemma_close_scales(sum.units(), xx.units() + yy.units(), u, 53);
    lemma_close_weakens((xx.units() + yy.units()) * u, s2, 53, 52);
    lemma_close_chain(sum.units() * u, (xx.units() + yy.units()) * u, s2, 51);
    lemma_close_weakens(zz.units() * u, c * c, 53, 51);
    lemma_close_sum(sum.units() * u, s2, zz.units() * u, c * c, 51);
    assert(sum.units() * u + zz.units() * u == (sum.units() + zz.units()) * u) by (nonlinear_arith);
    lemma_close_scales(q.units(), sum.units() + zz.units(), u, 53);
    lemma_close_weakens(q.units() * u, (sum.units() + zz.units()) * u, 53, 52);
    lemma_close_chain(q.units() * u, (sum.units() + zz.units()) * u, s3, 50);
    // It is at least a square meter.
    lemma_pow2_unfold(1074);
    assert(q.units() >= u);
    lemma_root_rounds(q);
    let norm = v.norm();
    assert(norm == q.root());
    let n = norm.units();
    let nn = n * n;
    lemma_close_weakens(q.units() * u, s3, 50, 49);
    lemma_close_chain(nn, q.units() * u, s3, 48);
}

/// The root of what is not above the square of a number does not exceed it.
pub proof fn lemma_root_at_most(q: Double, top: Double)
    requires
        q.finite(),
        top.finite(),
        q.units() >= 0,
        top.units() >= 0,
        q.units() * pow2(1074) <= top.units() * top.units(),
    ensures
        q.root().finite(),
        0 <= q.root().units() <= top.units(),
{
    let inf = DOUBLE_INF as nat;
    lemma_pow2_pos(52);
    assert(code_units(0, 52) == 0);
    if q.code() > 0 {
        lemma_code_units_increases(0, q.code(), 52);
        let v = code_units(top.code(), 52);
        let s = code_units(q.code(), 52) * pow2(1074);
        let c = nearest_root_code(s, 52, inf);
        lemma_nearest_root_exists(s, 52, inf);
        assert(root_rounds_to(c, s, 52, inf));
        assert(s <= v * v);
        if c > top.code() {
            lemma_code_units_ordered(top.code(), (c - 1) as nat, 52);
            lemma_code_units_increases(top.code(), c, 52);
            let low = code_units((c - 1) as nat, 52) + code_units(c, 52);
            assert(low * low > 4 * s) by (nonlinear_arith)
                requires
                    low > 2 * v,
                    s <= v * v,
            ;
        }
        lemma_code_units_ordered(c, top.code(), 52);
    }
}

} // verus!
