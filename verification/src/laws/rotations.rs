//! Laws of rotations: quaternions multiply, keep length one, and turn vectors, as numbers.
use vstd::arithmetic::power2::*;
use vstd::prelude::*;

use crate::ieee::accuracy::{
    lemma_difference_error, lemma_double_literal, lemma_product_error, lemma_product_relative,
    lemma_quotient_relative, lemma_sum_error, size,
};
use crate::ieee::Double;
use crate::laws::lengths::{
    close, lemma_close_chain, lemma_close_doubles, lemma_close_scales, lemma_close_squares,
    lemma_close_turns, lemma_close_weakens, lemma_root_rounds,
};
use crate::maths::{value_of, Elementary};
use crate::params::{HALF, ONE, ZERO};
use crate::quaternion::{rotation_of, view_axis, x_axis, y_axis, Quaternion};
use crate::render::camera::Camera;
use crate::vector::Vector;

verus! {

/// A finite number of at most two.
pub open spec fn is_modest(x: Double) -> bool {
    x.finite() && size(x.units()) <= 2 * pow2(1074)
}

/// A quaternion of such numbers.
pub open spec fn are_modest(q: Quaternion) -> bool {
    is_modest(q.x) && is_modest(q.y) && is_modest(q.z) && is_modest(q.w)
}

/// A vector of such numbers.
pub open spec fn is_short(v: Vector) -> bool {
    is_modest(v.x) && is_modest(v.y) && is_modest(v.z)
}

/// A sum or a difference.
#[verifier::opaque]
spec fn mixed(a: Double, b: Double, minus: bool) -> Double {
    if minus {
        a.difference(b)
    } else {
        a.sum(b)
    }
}

/// A number with a sign.
spec fn signed(x: int, minus: bool) -> int {
    if minus {
        -x
    } else {
        x
    }
}

/// Powers of two around one.
proof fn lemma_powers()
    ensures
        pow2(1022) > 0,
        pow2(1023) == 2 * pow2(1022),
        pow2(1024) == 4 * pow2(1022),
        pow2(1025) == 8 * pow2(1022),
        pow2(1026) == 0x10 * pow2(1022),
        pow2(1027) == 0x20 * pow2(1022),
        pow2(1028) == 0x40 * pow2(1022),
        pow2(1029) == 0x80 * pow2(1022),
        pow2(1074) == 0x10_0000_0000_0000 * pow2(1022),
        pow2(1076) == 4 * pow2(1074),
        pow2(1077) == 8 * pow2(1074),
        pow2(1078) == 0x10 * pow2(1074),
        pow2(1079) == 0x20 * pow2(1074),
        pow2(1080) == 0x40 * pow2(1074),
        pow2(1081) == 0x80 * pow2(1074),
        pow2(1082) == 0x100 * pow2(1074),
{
    lemma2_to64();
    lemma2_to64_rest();
    lemma_pow2_pos(1022);
    lemma_pow2_adds(1, 1022);
    lemma_pow2_adds(2, 1022);
    lemma_pow2_adds(3, 1022);
    lemma_pow2_adds(4, 1022);
    lemma_pow2_adds(5, 1022);
    lemma_pow2_adds(6, 1022);
    lemma_pow2_adds(7, 1022);
    lemma_pow2_adds(52, 1022);
    lemma_pow2_adds(2, 1074);
    lemma_pow2_adds(3, 1074);
    lemma_pow2_adds(4, 1074);
    lemma_pow2_adds(5, 1074);
    lemma_pow2_adds(6, 1074);
    lemma_pow2_adds(7, 1074);
    lemma_pow2_adds(8, 1074);
}

/// The product of two modest numbers.
proof fn lemma_modest_product(a: Double, b: Double)
    requires
        is_modest(a),
        is_modest(b),
    ensures
        ({
            let p = a.product(b);
            let (u, k) = (pow2(1074) as int, pow2(1022) as int);
            &&& p.finite()
            &&& size(p.units()) <= 4 * u
            &&& size(p.units() * u - a.units() * b.units()) <= k * u
            &&& size(a.units() * b.units()) <= 4 * (u * u)
        }),
{
    let u = pow2(1074) as int;
    lemma_powers();
    assert(size(a.units() * b.units()) <= 4 * (u * u)) by (nonlinear_arith)
        requires
            size(a.units()) <= 2 * u,
            size(b.units()) <= 2 * u,
            u > 0,
    ;
    assert(pow2(1076) * pow2(1074) == 4 * (u * u)) by (nonlinear_arith)
        requires
            pow2(1076) == 4 * u,
            u == pow2(1074),
    ;
    lemma_product_error(a, b, 1025);
    let k = pow2(1022) as int;
    assert(pow2(1023) * pow2(1074) == 2 * (k * u)) by (nonlinear_arith)
        requires
            pow2(1023) == 2 * k,
            u == pow2(1074),
    ;
}

/// Four products, added or subtracted one after the other.
#[verifier::rlimit(60)]
proof fn lemma_four(
    p: Double,
    q: Double,
    r: Double,
    s: Double,
    mq: bool,
    mr: bool,
    ms: bool,
    a: int,
    b: int,
    c: int,
    d: int,
)
    requires
        ({
            let (u, k) = (pow2(1074) as int, pow2(1022) as int);
            &&& p.finite() && q.finite() && r.finite() && s.finite()
            &&& size(p.units()) <= 4 * u
            &&& size(q.units()) <= 4 * u
            &&& size(r.units()) <= 4 * u
            &&& size(s.units()) <= 4 * u
            &&& size(p.units() * u - a) <= k * u
            &&& size(q.units() * u - b) <= k * u
            &&& size(r.units() * u - c) <= k * u
            &&& size(s.units() * u - d) <= k * u
        }),
    ensures
        ({
            let t = mixed(mixed(mixed(p, q, mq), r, mr), s, ms);
            let (u, k) = (pow2(1074) as int, pow2(1022) as int);
            let exact = a + signed(b, mq) + signed(c, mr) + signed(d, ms);
            &&& t.finite()
            &&& size(t.units()) <= 0x20 * u
            &&& size(t.units() * u - exact) <= 0x12 * (k * u)
        }),
{
    let (u, k) = (pow2(1074) as int, pow2(1022) as int);
    lemma_powers();
    let t1 = mixed(p, q, mq);
    lemma_step(p, q, mq, 1026);
    let t2 = mixed(t1, r, mr);
    lemma_step(t1, r, mr, 1027);
    let t3 = mixed(t2, s, ms);
    lemma_step(t2, s, ms, 1028);
    let (x, y, z) = (signed(q.units(), mq), signed(r.units(), mr), signed(s.units(), ms));
    let e = t3.units() - (p.units() + x + y + z);
    assert(size(e) <= 14 * k);
    lemma_four_sum(p.units(), x, y, z, e, a, signed(b, mq), signed(c, mr), signed(d, ms), u, k);
    lemma_signed(q.units(), b, mq, u);
    lemma_signed(r.units(), c, mr, u);
    lemma_signed(s.units(), d, ms, u);
}

/// A sum or a difference, rounded.
proof fn lemma_step(p: Double, q: Double, minus: bool, e: nat)
    requires
        p.finite(),
        q.finite(),
        2 <= e <= 2046,
        size(p.units()) + size(q.units()) <= pow2((51 + e) as nat),
    ensures
        ({
            let t = mixed(p, q, minus);
            &&& t.finite()
            &&& 2 * size(t.units() - (p.units() + signed(q.units(), minus))) <= pow2((e - 2) as nat)
            &&& size(t.units()) <= pow2((51 + e) as nat)
        }),
{
    reveal(mixed);
    if minus {
        lemma_difference_error(p, q, e);
    } else {
        lemma_sum_error(p, q, e);
    }
}

/// Signs carry over.
proof fn lemma_signed(q: int, b: int, minus: bool, u: int)
    ensures
        size(signed(q, minus) * u - signed(b, minus)) == size(q * u - b),
        size(signed(q, minus)) == size(q),
{
    assert((-q) * u == -(q * u)) by (nonlinear_arith);
}

/// The errors of four products and of their sum.
proof fn lemma_four_sum(
    p: int,
    x: int,
    y: int,
    z: int,
    e: int,
    a: int,
    b: int,
    c: int,
    d: int,
    u: int,
    k: int,
)
    ensures
        u > 0 && k > 0 && size(e) <= 14 * k && size(p * u - a) <= k * u && size(x * u - b) <= k * u
            && size(y * u - c) <= k * u && size(z * u - d) <= k * u ==> size(
            (p + x + y + z + e) * u - (a + b + c + d),
        ) <= 0x12 * (k * u),
{
    if u > 0 && size(e) <= 14 * k {
        assert(size(e * u) <= 14 * (k * u)) by (nonlinear_arith)
            requires
                size(e) <= 14 * k,
                u > 0,
        ;
    }
    assert((p + x + y + z + e) * u == p * u + x * u + y * u + z * u + e * u) by (nonlinear_arith);
}

/// The product of two numbers of which neither is too large.
proof fn lemma_scaled(a: Double, b: Double, m: int, n: int, e: nat)
    requires
        a.finite(),
        b.finite(),
        m >= 0,
        n >= 0,
        size(a.units()) <= m * pow2(1074),
        size(b.units()) <= n * pow2(1074),
        (m * n) * pow2(1074) <= pow2((51 + e) as nat),
        2 <= e <= 2046,
    ensures
        ({
            let p = a.product(b);
            let u = pow2(1074) as int;
            &&& p.finite()
            &&& size(p.units()) <= pow2((51 + e) as nat)
            &&& 2 * size(p.units() * u - a.units() * b.units()) <= pow2((e - 2) as nat) * u
        }),
{
    let u = pow2(1074) as int;
    lemma_pow2_pos(1074);
    let t = pow2((51 + e) as nat);
    assert(size(a.units() * b.units()) <= t * u) by (nonlinear_arith)
        requires
            size(a.units()) <= m * u,
            size(b.units()) <= n * u,
            (m * n) * u <= t,
            u > 0,
            m >= 0,
            n >= 0,
    ;
    lemma_product_error(a, b, e);
}

/// Composing rotations multiplies their quaternions: each part of the product, up to one part in
/// `2^47`.
pub proof fn law_composition_multiplies(a: Quaternion, b: Quaternion)
    requires
        are_modest(a),
        are_modest(b),
    ensures
        is_product(a, b, a.composed(b)),
{
    lemma_powers();
    let (u, k) = (pow2(1074) as int, pow2(1022) as int);
    lemma_modest_product(a.w, b.x);
    lemma_modest_product(a.x, b.w);
    lemma_modest_product(a.y, b.z);
    lemma_modest_product(a.z, b.y);
    lemma_modest_product(a.w, b.y);
    lemma_modest_product(a.x, b.z);
    lemma_modest_product(a.y, b.w);
    lemma_modest_product(a.z, b.x);
    lemma_modest_product(a.w, b.z);
    lemma_modest_product(a.x, b.y);
    lemma_modest_product(a.y, b.x);
    lemma_modest_product(a.z, b.w);
    lemma_modest_product(a.w, b.w);
    lemma_modest_product(a.x, b.x);
    lemma_modest_product(a.y, b.y);
    lemma_modest_product(a.z, b.z);
    lemma_four(
        a.w.product(b.x),
        a.x.product(b.w),
        a.y.product(b.z),
        a.z.product(b.y),
        false,
        false,
        true,
        a.w.units() * b.x.units(),
        a.x.units() * b.w.units(),
        a.y.units() * b.z.units(),
        a.z.units() * b.y.units(),
    );
    lemma_four(
        a.w.product(b.y),
        a.x.product(b.z),
        a.y.product(b.w),
        a.z.product(b.x),
        true,
        false,
        false,
        a.w.units() * b.y.units(),
        a.x.units() * b.z.units(),
        a.y.units() * b.w.units(),
        a.z.units() * b.x.units(),
    );
    lemma_four(
        a.w.product(b.z),
        a.x.product(b.y),
        a.y.product(b.x),
        a.z.product(b.w),
        false,
        true,
        false,
        a.w.units() * b.z.units(),
        a.x.units() * b.y.units(),
        a.y.units() * b.x.units(),
        a.z.units() * b.w.units(),
    );
    lemma_four(
        a.w.product(b.w),
        a.x.product(b.x),
        a.y.product(b.y),
        a.z.product(b.z),
        true,
        true,
        true,
        a.w.units() * b.w.units(),
        a.x.units() * b.x.units(),
        a.y.units() * b.y.units(),
        a.z.units() * b.z.units(),
    );
    assert(u * u == 0x10_0000_0000_0000 * (k * u)) by (nonlinear_arith)
        requires
            u == 0x10_0000_0000_0000 * k,
    ;
    lemma2_to64();
    lemma2_to64_rest();
    reveal(mixed);
}

/// A number is an exact one, over `2^1074`, up to one part in `2^47`.
pub open spec fn is_exactly(x: Double, exact: int) -> bool {
    let u = pow2(1074) as int;
    x.finite() && size(x.units() * u - exact) * pow2(47) <= u * u
}

/// A quaternion is the product of two, up to rounding.
pub open spec fn is_product(a: Quaternion, b: Quaternion, c: Quaternion) -> bool {
    let (ax, ay, az, aw) = (a.x.units(), a.y.units(), a.z.units(), a.w.units());
    let (bx, by, bz, bw) = (b.x.units(), b.y.units(), b.z.units(), b.w.units());
    &&& is_exactly(c.x, aw * bx + ax * bw + ay * bz - az * by)
    &&& is_exactly(c.y, aw * by - ax * bz + ay * bw + az * bx)
    &&& is_exactly(c.z, aw * bz + ax * by - ay * bx + az * bw)
    &&& is_exactly(c.w, aw * bw - ax * bx - ay * by - az * bz)
}

/// Bringing a quaternion to length one keeps its direction: every part is multiplied by the same
/// number, whose square times the sum of the squares of the parts is one, up to one part in
/// `2^42`. The law returns that number.
pub proof fn law_unit_keeps_the_direction(q: Quaternion) -> (f: int)
    requires
        are_modest(q),
        3 * (pow2(1074) * pow2(1074)) <= 4 * square_of(q),
    ensures
        is_unit_of(q, q.unit(), f),
{
    let (u, k) = (pow2(1074) as int, pow2(1022) as int);
    let (x, y, z, w) = (q.x.units(), q.y.units(), q.z.units(), q.w.units());
    lemma_powers();
    lemma2_to64();
    lemma2_to64_rest();
    lemma_modest_product(q.x, q.x);
    lemma_modest_product(q.y, q.y);
    lemma_modest_product(q.z, q.z);
    lemma_modest_product(q.w, q.w);
    lemma_four(
        q.x.product(q.x),
        q.y.product(q.y),
        q.z.product(q.z),
        q.w.product(q.w),
        false,
        false,
        false,
        x * x,
        y * y,
        z * z,
        w * w,
    );
    let square = mixed(
        mixed(mixed(q.x.product(q.x), q.y.product(q.y), false), q.z.product(q.z), false),
        q.w.product(q.w),
        false,
    );
    let exact = square_of(q);
    let uu = u * u;
    assert(uu == 0x10_0000_0000_0000 * (k * u) && k * u > 0) by (nonlinear_arith)
        requires
            uu == u * u,
            u == 0x10_0000_0000_0000 * k,
            k > 0,
    ;
    let su = square.units() * u;
    assert(close(su, exact, 46));
    assert(2 * su >= uu && su <= 0x20 * uu);
    assert(2 * square.units() >= u && square.units() <= 0x20 * u) by (nonlinear_arith)
        requires
            2 * (square.units() * u) >= u * u,
            square.units() * u <= 0x20 * (u * u),
            u > 0,
    ;
    lemma_pow2_adds(1, 1073);
    lemma_pow2_strictly_increases(1079, 1400);
    lemma_root_rounds(square);
    let root = square.root();
    let r = root.units();
    lemma_close_weakens(r * r, su, 50, 47);
    lemma_close_chain(r * r, su, exact, 45);
    lemma_close_doubles(r * r, exact, 45);
    let f = (Double { bits: ONE }).quotient(root);
    lemma_inverse(root, exact);
    lemma_scaled(q.x, f, 2, 4, 1026);
    lemma_scaled(q.y, f, 2, 4, 1026);
    lemma_scaled(q.z, f, 2, 4, 1026);
    lemma_scaled(q.w, f, 2, 4, 1026);
    assert(pow2(1024) * u == 4 * (k * u)) by (nonlinear_arith)
        requires
            pow2(1024) == 4 * k,
    ;
    assert(q.unit().x == q.x.product(f)) by {
        reveal(mixed);
    }
    assert(q.unit().y == q.y.product(f)) by {
        reveal(mixed);
    }
    assert(q.unit().z == q.z.product(f)) by {
        reveal(mixed);
    }
    assert(q.unit().w == q.w.product(f)) by {
        reveal(mixed);
    }
    f.units()
}

/// The sum of the squares of the parts.
pub open spec fn square_of(q: Quaternion) -> int {
    q.x.units() * q.x.units() + q.y.units() * q.y.units() + q.z.units() * q.z.units() + q.w.units()
        * q.w.units()
}

/// A quaternion is another times `f`, and has length one.
pub open spec fn is_unit_of(q: Quaternion, r: Quaternion, f: int) -> bool {
    let u = pow2(1074) as int;
    &&& f > 0
    &&& close(square_of(q) * (f * f), (u * u) * (u * u), 42)
    &&& is_exactly(r.x, q.x.units() * f)
    &&& is_exactly(r.y, q.y.units() * f)
    &&& is_exactly(r.z, q.z.units() * f)
    &&& is_exactly(r.w, q.w.units() * f)
}

/// One over a length.
proof fn lemma_inverse(root: Double, exact: int)
    requires
        root.finite(),
        pow2(1073) <= root.units(),
        close(root.units() * root.units(), exact, 45),
        exact <= 0x10 * (pow2(1074) * pow2(1074)),
        exact > 0,
    ensures
        ({
            let f = (Double { bits: ONE }).quotient(root);
            let u = pow2(1074) as int;
            &&& f.finite()
            &&& 0 < f.units() <= 4 * u
            &&& close(exact * (f.units() * f.units()), (u * u) * (u * u), 42)
        }),
{
    let one = Double { bits: ONE };
    let u = pow2(1074) as int;
    let m = root.units();
    lemma2_to64();
    lemma2_to64_rest();
    lemma_pow2_pos(1074);
    lemma_pow2_adds(1, 1073);
    lemma_double_literal(one, 0x10_0000_0000_0000, 1022);
    lemma_pow2_adds(52, 1022);
    assert(one.units() == u);
    lemma_pow2_strictly_increases(1075, 2000);
    lemma_pow2_adds(1, 1074);
    assert(size(u) * pow2(1074) <= pow2(2000) * m) by (nonlinear_arith)
        requires
            u == pow2(1074),
            u <= 2 * m,
            2 * u <= pow2(2000),
            u > 0,
    ;
    lemma_quotient_relative(one, root);
    let g = one.quotient(root).units();
    let (nn, uu) = (m * m, u * u);
    lemma_close_doubles(nn, exact, 45);
    assert(uu > 0) by (nonlinear_arith)
        requires
            uu == u * u,
            u > 0,
    ;
    assert(m <= 6 * u) by (nonlinear_arith)
        requires
            m * m <= 0x20 * (u * u),
            u > 0,
    ;
    lemma_pow2_adds(3, 53);
    lemma_pow2_strictly_increases(56, 1074);
    assert(pow2(53) * m <= uu) by (nonlinear_arith)
        requires
            m <= 6 * u,
            8 * pow2(53) <= u,
            uu == u * u,
            pow2(53) > 0,
            u > 0,
    ;
    let gm = g * m;
    assert(size(gm - uu) * pow2(53) <= 2 * uu);
    assert(gm >= 0) by (nonlinear_arith)
        requires
            gm == g * m,
            g >= 0,
            m > 0,
    ;
    assert(close(gm, uu, 52));
    assert(2 * gm >= uu && gm <= 2 * uu);
    assert(g > 0) by (nonlinear_arith)
        requires
            2 * (g * m) >= uu,
            uu > 0,
            m > 0,
    ;
    assert(g <= 4 * u) by (nonlinear_arith)
        requires
            g * m <= 2 * (u * u),
            2 * m >= u,
            u > 0,
            g >= 0,
    ;
    let gg = g * g;
    lemma_close_squares(gm, uu, 50);
    assert(gm * gm == gg * nn) by (nonlinear_arith)
        requires
            gg == g * g,
            nn == m * m,
            gm == g * m,
    ;
    assert(gg >= 0) by (nonlinear_arith)
        requires
            gg == g * g,
    ;
    lemma_close_scales(nn, exact, gg, 45);
    lemma_close_turns(nn * gg, exact * gg, 44);
    assert(nn * gg == gg * nn) by (nonlinear_arith);
    lemma_close_weakens(gg * nn, uu * uu, 50, 43);
    lemma_close_chain(exact * gg, gg * nn, uu * uu, 42);
}

/// The sum of three products.
proof fn lemma_three(p: Double, q: Double, r: Double, a: int, b: int, c: int)
    requires
        ({
            let (u, k) = (pow2(1074) as int, pow2(1022) as int);
            &&& p.finite() && q.finite() && r.finite()
            &&& size(p.units()) <= 4 * u
            &&& size(q.units()) <= 4 * u
            &&& size(r.units()) <= 4 * u
            &&& size(p.units() * u - a) <= k * u
            &&& size(q.units() * u - b) <= k * u
            &&& size(r.units() * u - c) <= k * u
        }),
    ensures
        ({
            let t = mixed(mixed(p, q, false), r, false);
            let (u, k) = (pow2(1074) as int, pow2(1022) as int);
            &&& t.finite()
            &&& size(t.units()) <= 0x10 * u
            &&& size(t.units() * u - (a + b + c)) <= 9 * (k * u)
        }),
{
    let (u, k) = (pow2(1074) as int, pow2(1022) as int);
    lemma_powers();
    let t1 = mixed(p, q, false);
    lemma_step(p, q, false, 1026);
    let t2 = mixed(t1, r, false);
    lemma_step(t1, r, false, 1027);
    let e = t2.units() - (p.units() + q.units() + r.units());
    assert(size(e) <= 6 * k);
    assert(size(e * u) <= 6 * (k * u)) by (nonlinear_arith)
        requires
            size(e) <= 6 * k,
            u > 0,
    ;
    assert(t2.units() * u == e * u + p.units() * u + q.units() * u + r.units() * u)
        by (nonlinear_arith)
        requires
            e == t2.units() - (p.units() + q.units() + r.units()),
    ;
}

/// The product of a number with one that stands for an exact one.
proof fn lemma_term(a: Double, d: Double, exact: int, m: int, n: int, e: nat, c: int, eps: int)
    requires
        a.finite(),
        d.finite(),
        m >= 0,
        n >= 0,
        eps >= 0,
        2 <= e <= 2046,
        size(a.units()) <= m * pow2(1074),
        size(d.units()) <= n * pow2(1074),
        (m * n) * pow2(1074) <= pow2((51 + e) as nat),
        pow2((e - 2) as nat) == 2 * (c * pow2(1022)),
        size(d.units() * pow2(1074) - exact) <= eps * (pow2(1022) * pow2(1074)),
    ensures
        ({
            let (u, k) = (pow2(1074) as int, pow2(1022) as int);
            let p = a.product(d);
            &&& p.finite()
            &&& size(p.units()) <= pow2((51 + e) as nat)
            &&& size(p.units() * u * u - a.units() * exact) <= (c + m * eps) * (k * u * u)
        }),
{
    let (u, k) = (pow2(1074) as int, pow2(1022) as int);
    lemma_powers();
    lemma_scaled(a, d, m, n, e);
    let p = a.product(d).units();
    let (x, y) = (p * u - a.units() * d.units(), d.units() * u - exact);
    assert(size(x) <= c * (k * u)) by (nonlinear_arith)
        requires
            2 * size(x) <= (2 * (c * k)) * u,
    ;
    assert(size(x * u) <= c * (k * u * u)) by (nonlinear_arith)
        requires
            size(x) <= c * (k * u),
            u > 0,
    ;
    let v = a.units();
    assert(size(v * y) <= (m * eps) * (k * u * u)) by (nonlinear_arith)
        requires
            size(v) <= m * u,
            size(y) <= eps * (k * u),
            u > 0,
            k > 0,
            m >= 0,
            eps >= 0,
    ;
    assert(p * u * u - v * exact == x * u + v * y) by (nonlinear_arith)
        requires
            x == p * u - v * d.units(),
            y == d.units() * u - exact,
    ;
    assert((c + m * eps) * (k * u * u) == c * (k * u * u) + (m * eps) * (k * u * u))
        by (nonlinear_arith);
}

/// One component of a turned vector: the parts of the sum, one after the other.
proof fn lemma_component(
    v: Double,
    b: Double,
    scale: Double,
    along: Double,
    cross: Double,
    twice: Double,
    k1: int,
    vb: int,
    o: int,
    w: int,
)
    requires
        ({
            let (u, k) = (pow2(1074) as int, pow2(1022) as int);
            &&& is_modest(v) && is_modest(b)
            &&& scale.finite() && along.finite() && cross.finite() && twice.finite()
            &&& size(scale.units()) <= 0x20 * u
            &&& size(along.units()) <= 0x20 * u
            &&& size(cross.units()) <= 8 * u
            &&& size(twice.units()) <= 4 * u
            &&& size(scale.units() * u - k1) <= 0x12 * (k * u)
            &&& size(along.units() * u - 2 * vb) <= 0x1a * (k * u)
            &&& size(cross.units() * u - o) <= 4 * (k * u)
            &&& size(twice.units() - 2 * w) <= k
            &&& size(w) <= 2 * u
        }),
    ensures
        ({
            let t = mixed(
                mixed(v.product(scale), b.product(along), false),
                cross.product(twice),
                false,
            );
            let u = pow2(1074) as int;
            let exact = v.units() * k1 + 2 * (b.units() * vb) + 2 * (o * w);
            t.finite() && size(t.units() * u * u - exact) * pow2(44) <= u * u * u
        }),
{
    let (u, k) = (pow2(1074) as int, pow2(1022) as int);
    lemma_powers();
    lemma2_to64();
    lemma2_to64_rest();
    let kuu = k * u * u;
    lemma_term(v, scale, k1, 2, 0x20, 1029, 0x10, 0x12);
    lemma_term(b, along, 2 * vb, 2, 0x20, 1029, 0x10, 0x1a);
    let (t1, t2) = (v.product(scale), b.product(along));
    assert((0x10 + 2 * 0x12) * kuu == 52 * kuu && (0x10 + 2 * 0x1a) * kuu == 68 * kuu);
    // The vector product, the other way round.
    lemma_scaled(cross, twice, 8, 4, 1028);
    let t3 = cross.product(twice);
    let (p3, c, d) = (t3.units(), cross.units(), twice.units());
    let x = p3 * u - c * d;
    assert(pow2(1026) * u == 0x10 * (k * u)) by (nonlinear_arith)
        requires
            pow2(1026) == 0x10 * k,
    ;
    assert(size(x) <= 8 * (k * u));
    let (y, z) = (c * u - o, d - 2 * w);
    assert(size(x * u) <= 8 * kuu) by (nonlinear_arith)
        requires
            size(x) <= 8 * (k * u),
            u > 0,
            kuu == k * u * u,
    ;
    assert(size(y * d) <= 0x10 * kuu) by (nonlinear_arith)
        requires
            size(y) <= 4 * (k * u),
            size(d) <= 4 * u,
            u > 0,
            k > 0,
            kuu == k * u * u,
    ;
    assert(size(o) <= 9 * (u * u)) by (nonlinear_arith)
        requires
            size(c * u - o) <= 4 * (k * u),
            size(c) <= 8 * u,
            4 * k <= u,
            u > 0,
    ;
    assert(size(o * z) <= 9 * kuu) by (nonlinear_arith)
        requires
            size(o) <= 9 * (u * u),
            size(z) <= k,
            u > 0,
            k > 0,
            kuu == k * u * u,
    ;
    assert(p3 * u * u - 2 * (o * w) == x * u + y * d + o * z) by (nonlinear_arith)
        requires
            x == p3 * u - c * d,
            y == c * u - o,
            z == d - 2 * w,
    ;
    assert(size(p3 * u * u - 2 * (o * w)) <= 33 * kuu);
    // The sum.
    let s1 = mixed(t1, t2, false);
    lemma_step(t1, t2, false, 1030);
    let t = mixed(s1, t3, false);
    lemma_step(s1, t3, false, 1031);
    let e = t.units() - (t1.units() + t2.units() + t3.units());
    assert(size(e) <= 96 * k);
    assert(size(e * u * u) <= 96 * kuu) by (nonlinear_arith)
        requires
            size(e) <= 96 * k,
            u > 0,
            kuu == k * u * u,
    ;
    let (a1, a2, a3) = (t1.units() * u * u, t2.units() * u * u, t3.units() * u * u);
    assert(t.units() * u * u == e * u * u + a1 + a2 + a3) by (nonlinear_arith)
        requires
            e == t.units() - (t1.units() + t2.units() + t3.units()),
            a1 == t1.units() * u * u,
            a2 == t2.units() * u * u,
            a3 == t3.units() * u * u,
    ;
    assert(b.units() * (2 * vb) == 2 * (b.units() * vb)) by (nonlinear_arith);
    let exact = v.units() * k1 + 2 * (b.units() * vb) + 2 * (o * w);
    assert(size(t.units() * u * u - exact) <= 0x100 * kuu);
    assert(u * u * u == 0x10_0000_0000_0000 * kuu) by (nonlinear_arith)
        requires
            u == 0x10_0000_0000_0000 * k,
            kuu == k * u * u,
    ;
}

/// A component of the vector product.
proof fn lemma_cross(a: Double, b: Double, c: Double, d: Double)
    requires
        is_modest(a),
        is_modest(b),
        is_modest(c),
        is_modest(d),
    ensures
        ({
            let t = a.product(b).difference(c.product(d));
            let (u, k) = (pow2(1074) as int, pow2(1022) as int);
            &&& t.finite()
            &&& size(t.units()) <= 8 * u
            &&& size(t.units() * u - (a.units() * b.units() - c.units() * d.units())) <= 4 * (k * u)
        }),
{
    let (u, k) = (pow2(1074) as int, pow2(1022) as int);
    lemma_powers();
    lemma_modest_product(a, b);
    lemma_modest_product(c, d);
    let (p, q) = (a.product(b), c.product(d));
    lemma_difference_error(p, q, 1026);
    let e = p.difference(q).units() - (p.units() - q.units());
    assert(size(e) <= 2 * k);
    assert(size(e * u) <= 2 * (k * u)) by (nonlinear_arith)
        requires
            size(e) <= 2 * k,
            u > 0,
    ;
    assert(p.difference(q).units() * u == e * u + p.units() * u - q.units() * u)
        by (nonlinear_arith)
        requires
            e == p.difference(q).units() - (p.units() - q.units()),
    ;
}

/// Twice a number.
proof fn lemma_twice(a: Double, m: int, e: nat, c: int)
    requires
        a.finite(),
        m >= 0,
        2 <= e <= 2046,
        size(a.units()) <= m * pow2(1074),
        (m * 2) * pow2(1074) <= pow2((51 + e) as nat),
        pow2((e - 2) as nat) == 2 * (c * pow2(1022)),
    ensures
        ({
            let t = a.product(Double { bits: 0x4000_0000_0000_0000 /* 2.0 */ });
            &&& t.finite()
            &&& size(t.units()) <= pow2((51 + e) as nat)
            &&& size(t.units() - 2 * a.units()) <= c * pow2(1022)
        }),
{
    let two = Double { bits: 0x4000_0000_0000_0000 /* 2.0 */ };
    let (u, k) = (pow2(1074) as int, pow2(1022) as int);
    lemma_powers();
    lemma2_to64();
    lemma2_to64_rest();
    lemma_double_literal(two, 0x10_0000_0000_0000, 1023);
    lemma_pow2_adds(52, 1023);
    lemma_pow2_adds(1, 1074);
    assert(two.units() == 2 * u);
    lemma_scaled(a, two, m, 2, e);
    let t = a.product(two).units();
    assert(size(t - 2 * a.units()) <= c * k) by (nonlinear_arith)
        requires
            2 * size(t * u - a.units() * (2 * u)) <= (2 * (c * k)) * u,
            u > 0,
    ;
}

/// A vector is another one, turned by a quaternion: the exact rotation, up to one part in `2^44`.
pub open spec fn is_turned(q: Quaternion, v: Vector, t: Vector) -> bool {
    let (x, y, z, w) = (q.x.units(), q.y.units(), q.z.units(), q.w.units());
    let (a, b, c) = (v.x.units(), v.y.units(), v.z.units());
    let scale = w * w - (x * x + y * y + z * z);
    let along = a * x + b * y + c * z;
    &&& is_part(t.x, a * scale + 2 * (x * along) + 2 * ((y * c - b * z) * w))
    &&& is_part(t.y, b * scale + 2 * (y * along) + 2 * ((z * a - c * x) * w))
    &&& is_part(t.z, c * scale + 2 * (z * along) + 2 * ((x * b - a * y) * w))
}

/// A number is an exact one, over `2^2148`, up to one part in `2^44`.
pub open spec fn is_part(x: Double, exact: int) -> bool {
    let u = pow2(1074) as int;
    x.finite() && size(x.units() * u * u - exact) * pow2(44) <= u * u * u
}

/// A quaternion turns a vector as rotations do: by the part along its axis, the part across, and
/// the vector product of both.
pub proof fn law_turning_rotates(q: Quaternion, v: Vector)
    requires
        are_modest(q),
        is_short(v),
    ensures
        is_turned(q, v, q.turned(v)),
{
    let (u, k) = (pow2(1074) as int, pow2(1022) as int);
    let (x, y, z, w) = (q.x.units(), q.y.units(), q.z.units(), q.w.units());
    let (a, b, c) = (v.x.units(), v.y.units(), v.z.units());
    lemma_powers();
    lemma_modest_product(q.x, q.x);
    lemma_modest_product(q.y, q.y);
    lemma_modest_product(q.z, q.z);
    lemma_modest_product(q.w, q.w);
    lemma_modest_product(v.x, q.x);
    lemma_modest_product(v.y, q.y);
    lemma_modest_product(v.z, q.z);
    let bb = mixed(
        mixed(q.x.product(q.x), q.y.product(q.y), false),
        q.z.product(q.z),
        false,
    );
    lemma_three(
        q.x.product(q.x),
        q.y.product(q.y),
        q.z.product(q.z),
        x * x,
        y * y,
        z * z,
    );
    let ww = q.w.product(q.w);
    let scale = mixed(ww, bb, true);
    lemma_step(ww, bb, true, 1028);
    let k1 = w * w - (x * x + y * y + z * z);
    let e = scale.units() - (ww.units() - bb.units());
    assert(size(e * u) <= 8 * (k * u)) by (nonlinear_arith)
        requires
            size(e) <= 8 * k,
            u > 0,
    ;
    assert(scale.units() * u == e * u + ww.units() * u - bb.units() * u) by (nonlinear_arith)
        requires
            e == scale.units() - (ww.units() - bb.units()),
    ;
    assert(size(scale.units() * u - k1) <= 0x12 * (k * u));
    let vb = mixed(
        mixed(v.x.product(q.x), v.y.product(q.y), false),
        v.z.product(q.z),
        false,
    );
    lemma_three(
        v.x.product(q.x),
        v.y.product(q.y),
        v.z.product(q.z),
        a * x,
        b * y,
        c * z,
    );
    let along = vb.product(Double { bits: 0x4000_0000_0000_0000 /* 2.0 */ });
    lemma_twice(vb, 0x10, 1028, 8);
    let g = along.units() - 2 * vb.units();
    assert(size(g * u) <= 8 * (k * u)) by (nonlinear_arith)
        requires
            size(g) <= 8 * k,
            u > 0,
    ;
    assert(along.units() * u == g * u + 2 * (vb.units() * u)) by (nonlinear_arith)
        requires
            g == along.units() - 2 * vb.units(),
    ;
    let m = a * x + b * y + c * z;
    assert(size(along.units() * u - 2 * m) <= 0x1a * (k * u));
    let twice = q.w.product(Double { bits: 0x4000_0000_0000_0000 /* 2.0 */ });
    lemma_twice(q.w, 2, 1025, 1);
    lemma_cross(q.y, v.z, v.y, q.z);
    lemma_cross(q.z, v.x, v.z, q.x);
    lemma_cross(q.x, v.y, v.x, q.y);
    let cross = q.axis().outer(v);
    lemma_component(v.x, q.x, scale, along, cross.x, twice, k1, m, y * c - b * z, w);
    lemma_component(v.y, q.y, scale, along, cross.y, twice, k1, m, z * a - c * x, w);
    lemma_component(v.z, q.z, scale, along, cross.z, twice, k1, m, x * b - a * y, w);
    assert(q.turned(v) == (Vector {
        x: mixed(mixed(v.x.product(scale), q.x.product(along), false), cross.x.product(twice), false),
        y: mixed(mixed(v.y.product(scale), q.y.product(along), false), cross.y.product(twice), false),
        z: mixed(mixed(v.z.product(scale), q.z.product(along), false), cross.z.product(twice), false),
    })) by {
        reveal(mixed);
    }
}

/// A number is half an angle, up to rounding.
pub open spec fn is_half(angle: Double, half: Double) -> bool {
    &&& half.finite()
    &&& size(2 * half.units() - angle.units()) * pow2(53) <= size(angle.units()) + pow2(54)
}

/// The sine and the cosine of an ordinary angle are numbers of at most one.
pub open spec fn is_circular<M: Fn(Elementary, Double, Double) -> Double>(
    maths: M,
    half: Double,
) -> bool {
    let zero = Double { bits: ZERO };
    let (s, c) = (
        value_of(maths, Elementary::Sin, half, zero),
        value_of(maths, Elementary::Cos, half, zero),
    );
    half.finite() ==> s.finite() && c.finite() && size(s.units()) <= pow2(1074) && size(c.units())
        <= pow2(1074)
}

/// Those of all ordinary angles are.
pub open spec fn are_circular<M: Fn(Elementary, Double, Double) -> Double>(maths: M) -> bool {
    forall|half: Double| #[trigger] is_circular(maths, half)
}

/// A quaternion turns by an angle about the axis with these signs: its last part is the cosine of
/// half the angle, and the others are the sine of it with the signs, up to rounding.
pub open spec fn turns_about<M: Fn(Elementary, Double, Double) -> Double>(
    maths: M,
    q: Quaternion,
    signs: (int, int, int),
    angle: Double,
) -> bool {
    exists|half: Double|
        {
            let zero = Double { bits: ZERO };
            let s = value_of(maths, Elementary::Sin, half, zero).units();
            &&& #[trigger] is_half(angle, half)
            &&& q.w == value_of(maths, Elementary::Cos, half, zero)
            &&& is_modest(q.x) && is_modest(q.y) && is_modest(q.z)
            &&& size(q.x.units() - signs.0 * s) * pow2(53) <= size(signs.0 * s) + pow2(53)
            &&& size(q.y.units() - signs.1 * s) * pow2(53) <= size(signs.1 * s) + pow2(53)
            &&& size(q.z.units() - signs.2 * s) * pow2(53) <= size(signs.2 * s) + pow2(53)
        }
}

/// One part of a quaternion about an axis.
proof fn lemma_axis_part(a: Double, sign: int, s: Double)
    requires
        a.finite(),
        s.finite(),
        sign == 0 || sign == 1 || sign == -1,
        a.units() == sign * pow2(1074),
        size(s.units()) <= pow2(1074),
    ensures
        is_modest(a.product(s)),
        size(a.product(s).units() - sign * s.units()) * pow2(53) <= size(sign * s.units()) + pow2(
            53,
        ),
{
    let (u, v) = (pow2(1074) as int, s.units());
    lemma2_to64();
    lemma2_to64_rest();
    lemma_pow2_pos(1074);
    lemma_pow2_strictly_increases(1074, 2000);
    lemma_pow2_strictly_increases(60, 1074);
    let x = sign * v;
    assert(size(x) <= u) by (nonlinear_arith)
        requires
            x == sign * v,
            sign == 0 || sign == 1 || sign == -1,
            size(v) <= u,
    ;
    assert(a.units() * v == x * u) by (nonlinear_arith)
        requires
            a.units() == sign * u,
            x == sign * v,
    ;
    assert(size(x * u) == size(x) * u && size(x) * u <= pow2(2000) * u) by (nonlinear_arith)
        requires
            size(x) <= pow2(2000),
            u > 0,
    ;
    lemma_product_relative(a, s);
    let p = a.product(s).units();
    assert(size(p - x) * pow2(53) <= size(x) + pow2(53)) by (nonlinear_arith)
        requires
            size(p * u - x * u) * pow2(53) <= size(x) * u + pow2(53) * u,
            u > 0,
    ;
}

/// The quaternion of a rotation about an axis.
proof fn lemma_turns_about<M: Fn(Elementary, Double, Double) -> Double>(
    maths: M,
    axis: Vector,
    signs: (int, int, int),
    angle: Double,
)
    requires
        are_circular(maths),
        angle.finite(),
        size(angle.units()) <= pow2(1500),
        axis.x.finite() && axis.y.finite() && axis.z.finite(),
        signs.0 == 0 || signs.0 == 1 || signs.0 == -1,
        signs.1 == 0 || signs.1 == 1 || signs.1 == -1,
        signs.2 == 0 || signs.2 == 1 || signs.2 == -1,
        axis.x.units() == signs.0 * pow2(1074),
        axis.y.units() == signs.1 * pow2(1074),
        axis.z.units() == signs.2 * pow2(1074),
    ensures
        turns_about(maths, rotation_of(maths, axis, angle), signs, angle),
        are_modest(rotation_of(maths, axis, angle)),
{
    let zero = Double { bits: ZERO };
    let half = angle.product(Double { bits: HALF });
    lemma_half_angle(angle);
    assert(is_circular(maths, half));
    let s = value_of(maths, Elementary::Sin, half, zero);
    lemma_axis_part(axis.x, signs.0, s);
    lemma_axis_part(axis.y, signs.1, s);
    lemma_axis_part(axis.z, signs.2, s);
    let q = rotation_of(maths, axis, angle);
    assert(q.x == axis.x.product(s) && q.y == axis.y.product(s) && q.z == axis.z.product(s));
    lemma_pow2_pos(1074);
    assert(is_half(angle, half));
}

/// The number one half.
proof fn lemma_held_half()
    ensures
        (Double { bits: HALF }).finite(),
        (Double { bits: HALF }).units() > 0,
        2 * (Double { bits: HALF }).units() == pow2(1074),
{
    let k = pow2(1021);
    lemma2_to64();
    lemma2_to64_rest();
    lemma_double_literal(Double { bits: HALF }, 0x10_0000_0000_0000, 1021);
    lemma_pow2_adds(53, 1021);
    assert(pow2(1074) == 0x20_0000_0000_0000 * k) by (nonlinear_arith)
        requires
            pow2(1074) == pow2(53) * k,
            pow2(53) == 0x20_0000_0000_0000,
    ;
}

/// Half an angle.
proof fn lemma_half_angle(angle: Double)
    requires
        angle.finite(),
        size(angle.units()) <= pow2(1500),
    ensures
        is_half(angle, angle.product(Double { bits: HALF })),
{
    let held = Double { bits: HALF };
    let half = angle.product(held);
    let (x, u) = (angle.units(), pow2(1074) as int);
    lemma2_to64();
    lemma2_to64_rest();
    lemma_held_half();
    lemma_pow2_adds(1, 53);
    lemma_pow2_strictly_increases(1500, 2000);
    let p = held.units();
    assert(size(x * p) == size(x) * p && size(x) * p <= pow2(2000) * u) by (nonlinear_arith)
        requires
            size(x) <= pow2(2000),
            u == 2 * p,
            p > 0,
    ;
    lemma_product_relative(angle, held);
    let h = half.units();
    assert(size(2 * h - x) * pow2(53) <= size(x) + 2 * pow2(53)) by (nonlinear_arith)
        requires
            size(h * u - x * p) * pow2(53) <= size(x) * p + pow2(53) * u,
            u == 2 * p,
            p > 0,
    ;
}

/// A drag of the camera yaws it about its own second axis and then pitches it about its own first
/// one, and does nothing else: its orientation is multiplied by the quaternion of the yaw, then by
/// that of the pitch, and brought to length one. The law returns both quaternions, both products,
/// and the factor.
pub proof fn law_rotation_yaws_and_pitches<M: Fn(Elementary, Double, Double) -> Double>(
    maths: M,
    camera: Camera,
    yaw: Double,
    pitch: Double,
) -> (r: (Quaternion, Quaternion, Quaternion, Quaternion, int))
    requires
        are_circular(maths),
        are_modest(camera.orientation),
        yaw.finite(),
        pitch.finite(),
        size(yaw.units()) <= pow2(1500),
        size(pitch.units()) <= pow2(1500),
    ensures
        ({
            let (by_yaw, by_pitch, first, second, f) = r;
            let after = camera.rotated(maths, yaw, pitch);
            &&& turns_about(maths, by_yaw, (0, 1, 0), yaw)
            &&& turns_about(maths, by_pitch, (1, 0, 0), pitch)
            &&& is_product(camera.orientation, by_yaw, first)
            &&& are_modest(first) ==> is_product(first, by_pitch, second)
            &&& are_modest(second) && 3 * (pow2(1074) * pow2(1074)) <= 4 * square_of(second)
                ==> is_unit_of(second, after.orientation, f)
            &&& after.position == camera.position
            &&& after.fov_y == camera.fov_y
        }),
{
    reveal(Camera::rotated);
    lemma_axes();
    lemma_turns_about(maths, y_axis(), (0, 1, 0), yaw);
    lemma_turns_about(maths, x_axis(), (1, 0, 0), pitch);
    let by_yaw = rotation_of(maths, y_axis(), yaw);
    let by_pitch = rotation_of(maths, x_axis(), pitch);
    let first = camera.orientation.composed(by_yaw);
    law_composition_multiplies(camera.orientation, by_yaw);
    let second = first.composed(by_pitch);
    if are_modest(first) {
        law_composition_multiplies(first, by_pitch);
    }
    let f = if are_modest(second) && 3 * (pow2(1074) * pow2(1074)) <= 4 * square_of(second) {
        law_unit_keeps_the_direction(second)
    } else {
        0
    };
    (by_yaw, by_pitch, first, second, f)
}

/// A roll turns the camera about where it looks, and does nothing else: its orientation is
/// multiplied by the quaternion of the roll, and brought to length one. The law returns the
/// quaternion, the product, and the factor.
pub proof fn law_roll_turns_about_the_view<M: Fn(Elementary, Double, Double) -> Double>(
    maths: M,
    camera: Camera,
    angle: Double,
) -> (r: (Quaternion, Quaternion, int))
    requires
        are_circular(maths),
        are_modest(camera.orientation),
        angle.finite(),
        size(angle.units()) <= pow2(1500),
    ensures
        ({
            let (by_roll, product, f) = r;
            let after = camera.rolled(maths, angle);
            &&& turns_about(maths, by_roll, (0, 0, -1), angle)
            &&& is_product(camera.orientation, by_roll, product)
            &&& are_modest(product) && 3 * (pow2(1074) * pow2(1074)) <= 4 * square_of(product)
                ==> is_unit_of(product, after.orientation, f)
            &&& after.position == camera.position
            &&& after.fov_y == camera.fov_y
        }),
{
    reveal(Camera::rolled);
    lemma_axes();
    lemma_turns_about(maths, view_axis(), (0, 0, -1), angle);
    let by_roll = rotation_of(maths, view_axis(), angle);
    let product = camera.orientation.composed(by_roll);
    law_composition_multiplies(camera.orientation, by_roll);
    let f = if are_modest(product) && 3 * (pow2(1074) * pow2(1074)) <= 4 * square_of(product) {
        law_unit_keeps_the_direction(product)
    } else {
        0
    };
    (by_roll, product, f)
}

/// The numbers of the axes.
proof fn lemma_axes()
    ensures
        (Double { bits: ZERO }).finite(),
        (Double { bits: ONE }).finite(),
        (Double { bits: 0xbff0_0000_0000_0000 /* -1.0 */ }).finite(),
        (Double { bits: ZERO }).units() == 0 * pow2(1074),
        (Double { bits: ONE }).units() == 1 * pow2(1074),
        (Double { bits: 0xbff0_0000_0000_0000 /* -1.0 */ }).units() == -1 * pow2(1074),
{
    let one = Double { bits: ONE };
    lemma2_to64();
    lemma2_to64_rest();
    lemma_double_literal(one, 0x10_0000_0000_0000, 1022);
    lemma_pow2_adds(52, 1022);
    assert((Double { bits: 0xbff0_0000_0000_0000 /* -1.0 */ }).code() == one.code());
    assert(0 * pow2(1074) == 0) by (nonlinear_arith);
}

} // verus!
