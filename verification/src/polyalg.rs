//! Polynomials as coefficient sequences (lowest first): sums, products,
//! division by `X^m − 1`, and the fact that a polynomial with at most `n`
//! coefficients that vanishes on a coset `g·⟨w⟩` of a subgroup of order `n`
//! is the zero function.
use vstd::prelude::*;
use crate::field::{fadd, fmul, fpow, fsub, modulus};
use crate::identities::horner;
use crate::poly::poly_eval;

verus! {

/// Coefficient `i` of `a` (0 beyond its end).
pub open spec fn coef(a: Seq<int>, i: int) -> int {
    if 0 <= i < a.len() {
        a[i]
    } else {
        0
    }
}

/// `a` without its constant coefficient (empty stays empty).
pub open spec fn ptail(a: Seq<int>) -> Seq<int> {
    if a.len() == 0 {
        a
    } else {
        a.drop_first()
    }
}

/// The larger of two lengths.
pub open spec fn max_nat(a: nat, b: nat) -> nat {
    if a >= b {
        a
    } else {
        b
    }
}

/// `a + b`.
pub open spec fn padd(a: Seq<int>, b: Seq<int>) -> Seq<int> {
    Seq::new(max_nat(a.len(), b.len()), |i: int| coef(a, i) + coef(b, i))
}

/// `s·a`.
pub open spec fn pscale(s: int, a: Seq<int>) -> Seq<int> {
    Seq::new(a.len(), |i: int| s * a[i])
}

/// `a − b`.
pub open spec fn psub(a: Seq<int>, b: Seq<int>) -> Seq<int> {
    padd(a, pscale(-1, b))
}

/// The constant polynomial `v`.
pub open spec fn pconst(v: int) -> Seq<int> {
    seq![v]
}

/// `a·b`, by `a₀·b + X·(ptail(a)·b)`.
pub open spec fn pmul(a: Seq<int>, b: Seq<int>) -> Seq<int>
    decreases a.len(),
{
    if a.len() == 0 {
        Seq::empty()
    } else {
        padd(pscale(a[0], b), seq![0int] + pmul(a.drop_first(), b))
    }
}

// ---------------------------------------------------------------------------
// Values over the integers
// ---------------------------------------------------------------------------

/// Horner's rule, one step, for every sequence.
proof fn lemma_horner_step(a: Seq<int>, x: int)
    ensures
        horner(a, x) == coef(a, 0) + x * horner(ptail(a), x),
{
    if a.len() == 0 {
        assert(x * 0 == 0);
    }
}

/// The value of a sum is the sum of the values.
pub proof fn lemma_horner_padd(a: Seq<int>, b: Seq<int>, x: int)
    ensures
        horner(padd(a, b), x) == horner(a, x) + horner(b, x),
    decreases a.len() + b.len(),
{
    let s = padd(a, b);
    if s.len() == 0 {
        assert(a.len() == 0 && b.len() == 0);
    } else {
        assert(s.drop_first() =~= padd(ptail(a), ptail(b)));
        lemma_horner_padd(ptail(a), ptail(b), x);
        lemma_horner_step(a, x);
        lemma_horner_step(b, x);
        let ha = horner(ptail(a), x);
        let hb = horner(ptail(b), x);
        assert(x * (ha + hb) == x * ha + x * hb) by (nonlinear_arith);
    }
}

/// The value of `s·a` is `s` times the value of `a`.
pub proof fn lemma_horner_pscale(s: int, a: Seq<int>, x: int)
    ensures
        horner(pscale(s, a), x) == s * horner(a, x),
    decreases a.len(),
{
    if a.len() == 0 {
        assert(s * 0 == 0);
    } else {
        assert(pscale(s, a).drop_first() =~= pscale(s, a.drop_first()));
        lemma_horner_pscale(s, a.drop_first(), x);
        let h = horner(a.drop_first(), x);
        assert(s * a[0] + x * (s * h) == s * (a[0] + x * h)) by (nonlinear_arith);
    }
}

/// Concatenation: `lo + X^{|lo|}·hi`.
pub proof fn lemma_horner_concat(lo: Seq<int>, hi: Seq<int>, x: int)
    ensures
        horner(lo + hi, x) == horner(lo, x) + vstd::arithmetic::power::pow(x, lo.len()) * horner(
            hi,
            x,
        ),
    decreases lo.len(),
{
    reveal(vstd::arithmetic::power::pow);
    if lo.len() == 0 {
        assert(lo + hi =~= hi);
        assert(1 * horner(hi, x) == horner(hi, x));
    } else {
        assert((lo + hi).drop_first() =~= lo.drop_first() + hi);
        lemma_horner_concat(lo.drop_first(), hi, x);
        let pw = vstd::arithmetic::power::pow(x, (lo.len() - 1) as nat);
        let hl = horner(lo.drop_first(), x);
        let hh = horner(hi, x);
        assert(vstd::arithmetic::power::pow(x, lo.len()) == x * pw);
        assert(x * (hl + pw * hh) == x * hl + (x * pw) * hh) by (nonlinear_arith);
    }
}

/// The value of a product is the product of the values.
pub proof fn lemma_horner_pmul(a: Seq<int>, b: Seq<int>, x: int)
    ensures
        horner(pmul(a, b), x) == horner(a, x) * horner(b, x),
    decreases a.len(),
{
    if a.len() == 0 {
        assert(0 * horner(b, x) == 0);
    } else {
        let rest = pmul(a.drop_first(), b);
        lemma_horner_pmul(a.drop_first(), b, x);
        lemma_horner_padd(pscale(a[0], b), seq![0int] + rest, x);
        lemma_horner_pscale(a[0], b, x);
        assert((seq![0int] + rest).drop_first() =~= rest);
        let ha = horner(a.drop_first(), x);
        let hb = horner(b, x);
        assert(a[0] * hb + (0 + x * (ha * hb)) == (a[0] + x * ha) * hb) by (nonlinear_arith);
    }
}

// ---------------------------------------------------------------------------
// Lengths
// ---------------------------------------------------------------------------

/// With factors of at most `ua ≥ 1` and `ub ≥ 1` coefficients, the product
/// has at most `ua + ub − 1`.
pub proof fn lemma_pmul_len(a: Seq<int>, b: Seq<int>, ua: nat, ub: nat)
    requires
        1 <= ua,
        1 <= ub,
        a.len() <= ua,
        b.len() <= ub,
    ensures
        pmul(a, b).len() <= ua + ub - 1,
    decreases a.len(),
{
    if a.len() > 0 {
        if a.len() == 1 {
            assert(pmul(a.drop_first(), b).len() == 0);
        } else {
            lemma_pmul_len(a.drop_first(), b, (ua - 1) as nat, ub);
        }
    }
}

// ---------------------------------------------------------------------------
// Values in the field
// ---------------------------------------------------------------------------

/// The field value of a sum, a scaled polynomial, a difference, a product
/// and a constant.
pub proof fn lemma_poly_eval_ops(a: Seq<int>, b: Seq<int>, s: int, v: int, x: int)
    ensures
        poly_eval(padd(a, b), x) == fadd(poly_eval(a, x), poly_eval(b, x)),
        poly_eval(pscale(s, a), x) == fmul(s, poly_eval(a, x)),
        poly_eval(psub(a, b), x) == fsub(poly_eval(a, x), poly_eval(b, x)),
        poly_eval(pmul(a, b), x) == fmul(poly_eval(a, x), poly_eval(b, x)),
        poly_eval(pconst(v), x) == v % modulus(),
{
    reveal(fadd);
    reveal(fsub);
    reveal(fmul);
    let p = modulus();
    let ha = horner(a, x);
    let hb = horner(b, x);
    crate::identities::lemma_poly_eval_horner(a, x);
    crate::identities::lemma_poly_eval_horner(b, x);
    crate::identities::lemma_poly_eval_horner(padd(a, b), x);
    crate::identities::lemma_poly_eval_horner(pscale(s, a), x);
    crate::identities::lemma_poly_eval_horner(pscale(-1, b), x);
    crate::identities::lemma_poly_eval_horner(psub(a, b), x);
    crate::identities::lemma_poly_eval_horner(pmul(a, b), x);
    lemma_horner_padd(a, b, x);
    lemma_horner_padd(a, pscale(-1, b), x);
    lemma_horner_pscale(s, a, x);
    lemma_horner_pscale(-1, b, x);
    lemma_horner_pmul(a, b, x);
    vstd::arithmetic::div_mod::lemma_add_mod_noop(ha, hb, p);
    vstd::arithmetic::div_mod::lemma_mul_mod_noop_right(s, ha, p);
    vstd::arithmetic::div_mod::lemma_sub_mod_noop(ha, hb, p);
    assert(ha + -1 * hb == ha - hb);
    vstd::arithmetic::div_mod::lemma_mul_mod_noop(ha, hb, p);
    assert(pconst(v).drop_first() =~= Seq::<int>::empty());
    assert(poly_eval(Seq::<int>::empty(), x) == 0);
    assert(x * 0 == 0);
    assert(poly_eval(pconst(v), x) == (v + x * poly_eval(pconst(v).drop_first(), x)) % p);
}

// ---------------------------------------------------------------------------
// Division by X^m − 1
// ---------------------------------------------------------------------------

/// Division by `X^m − 1`: the quotient and the remainder (at most `m`
/// coefficients), by folding the coefficients from `X^m` on onto the first
/// `m`, since `X^m ≡ 1`.
pub open spec fn zdiv(e: Seq<int>, m: nat) -> (Seq<int>, Seq<int>)
    decreases e.len(),
{
    if m == 0 || e.len() <= m {
        (Seq::empty(), e)
    } else {
        let hi = e.subrange(m as int, e.len() as int);
        let sub = zdiv(padd(e.subrange(0, m as int), hi), m);
        (padd(sub.0, hi), sub.1)
    }
}

/// `e = (X^m − 1)·quotient + remainder` over the integers, with a remainder
/// of at most `m` coefficients and a quotient of at most `|e| − m`.
pub proof fn lemma_zdiv(e: Seq<int>, m: nat, x: int)
    requires
        m >= 1,
    ensures
        horner(e, x) == (vstd::arithmetic::power::pow(x, m) - 1) * horner(zdiv(e, m).0, x)
            + horner(zdiv(e, m).1, x),
        zdiv(e, m).1.len() <= m,
        zdiv(e, m).0.len() + m <= max_nat(e.len(), m),
    decreases e.len(),
{
    if e.len() <= m {
        assert((vstd::arithmetic::power::pow(x, m) - 1) * 0 == 0);
    } else {
        let lo = e.subrange(0, m as int);
        let hi = e.subrange(m as int, e.len() as int);
        let f = padd(lo, hi);
        let sub = zdiv(f, m);
        lemma_zdiv(f, m, x);
        assert(e =~= lo + hi);
        lemma_horner_concat(lo, hi, x);
        lemma_horner_padd(lo, hi, x);
        lemma_horner_padd(sub.0, hi, x);
        let pw = vstd::arithmetic::power::pow(x, m);
        let hl = horner(lo, x);
        let hh = horner(hi, x);
        let ht = horner(sub.0, x);
        let hr = horner(sub.1, x);
        assert(hl + pw * hh == (pw - 1) * (ht + hh) + hr) by (nonlinear_arith)
            requires
                hl + hh == (pw - 1) * ht + hr,
        ;
    }
}

/// In the field: `e(x) = q(x)·(x^m − 1) + r(x)` for `(q, r) = zdiv(e, m)`.
pub proof fn lemma_zdiv_eval(e: Seq<int>, m: nat, x: int)
    requires
        m >= 1,
    ensures
        poly_eval(e, x) == fadd(
            fmul(poly_eval(zdiv(e, m).0, x), fsub(fpow(x, m), 1)),
            poly_eval(zdiv(e, m).1, x),
        ),
{
    reveal(fadd);
    reveal(fsub);
    reveal(fmul);
    let p = modulus();
    let (t, r) = zdiv(e, m);
    lemma_zdiv(e, m, x);
    crate::identities::lemma_poly_eval_horner(e, x);
    crate::identities::lemma_poly_eval_horner(t, x);
    crate::identities::lemma_poly_eval_horner(r, x);
    let pw = vstd::arithmetic::power::pow(x, m);
    let ht = horner(t, x);
    let hr = horner(r, x);
    vstd::arithmetic::div_mod::lemma_small_mod(1, p as nat);
    vstd::arithmetic::div_mod::lemma_sub_mod_noop(pw, 1, p);
    vstd::arithmetic::div_mod::lemma_mul_mod_noop(ht, pw - 1, p);
    vstd::arithmetic::div_mod::lemma_add_mod_noop(ht * (pw - 1), hr, p);
    vstd::arithmetic::mul::lemma_mul_is_commutative(ht, pw - 1);
}

// ---------------------------------------------------------------------------
// Vanishing on a coset of a subgroup
// ---------------------------------------------------------------------------

/// Point `i` of the coset `g·⟨w⟩`: `g·w^i`.
pub open spec fn grid_point(g: int, w: int, i: int) -> int {
    fmul(g, fpow(w, i as nat))
}

/// `⟨w⟩` has order `n`, a power of two from 2 to `2^32` (as `w^{n/2} = −1`),
/// and `gi` inverts `g`.
pub open spec fn grid(g: int, gi: int, w: int, n: nat) -> bool {
    &&& crate::poly::valid_domain_size(n)
    &&& n >= 2
    &&& fpow(w, n / 2) == modulus() - 1
    &&& fmul(g, gi) == 1
}

/// `Σ_{i<n} (g·w^i)^a` is `n` for `a = 0` and a multiple of `p` for
/// `0 < a < n`.
proof fn lemma_grid_power_sum(g: int, gi: int, w: int, n: nat, a: nat)
    requires
        grid(g, gi, w, n),
        a < n,
    ensures
        a == 0 ==> crate::identities::jsum(n as int, |i: int| fpow(grid_point(g, w, i), a)) == n,
        a > 0 ==> crate::identities::jsum(n as int, |i: int| fpow(grid_point(g, w, i), a))
            % modulus() == 0,
{
    let p = modulus();
    let f = |i: int| fpow(grid_point(g, w, i), a);
    if a == 0 {
        let one = |i: int| 1int;
        assert forall|i: int| 0 <= i < n implies #[trigger] f(i) == one(i) by {
            vstd::arithmetic::power::lemma_pow0(grid_point(g, w, i));
            vstd::arithmetic::div_mod::lemma_small_mod(1, p as nat);
        }
        crate::identities::lemma_jsum_ext(n as int, f, one);
        crate::identities::lemma_jsum_ones(n as int);
    } else {
        let gg = fpow(g, a);
        let b = fpow(w, a);
        let pw = |i: int| vstd::arithmetic::power::pow(b, i as nat);
        let u = |i: int| gg * pw(i);
        assert forall|i: int| 0 <= i < n implies #[trigger] f(i) % p == u(i) % p by {
            crate::poly::lemma_fpow_of_product(g, fpow(w, i as nat), a);
            crate::field::lemma_fpow_multiplies(w, i as nat, a);
            crate::field::lemma_fpow_multiplies(w, a, i as nat);
            vstd::arithmetic::mul::lemma_mul_is_commutative(i, a as int);
            reveal(fmul);
            vstd::arithmetic::div_mod::lemma_mul_mod_noop_right(gg, pw(i), p);
            vstd::arithmetic::div_mod::lemma_mod_bound(u(i), p);
            vstd::arithmetic::div_mod::lemma_small_mod((u(i) % p) as nat, p as nat);
        }
        crate::identities::lemma_jsum_congruent(n as int, f, u);
        crate::identities::lemma_jsum_scale(n as int, gg, pw, u);
        crate::identities::lemma_jsum_int_geom(n as int, b, pw);
        vstd::arithmetic::div_mod::lemma_small_mod(a, n);
        crate::identities::lemma_geom_vanishes(w, n, a);
        let ig = crate::identities::int_geom(b, n as int);
        vstd::arithmetic::div_mod::lemma_mul_mod_noop_right(gg, ig, p);
        assert(gg * 0 == 0);
    }
}

/// `Σ_{i<n} x_i^a·c(x_i)` over the coset points `x_i`: `n·c₀` for `a = 0`,
/// and a multiple of `p` for `a > 0`, while `a + |c| ≤ n`.
proof fn lemma_grid_twisted_sum(c: Seq<int>, g: int, gi: int, w: int, n: nat, a: nat)
    requires
        grid(g, gi, w, n),
        a + c.len() <= n,
    ensures
        crate::identities::jsum(
            n as int,
            |i: int| fpow(grid_point(g, w, i), a) * poly_eval(c, grid_point(g, w, i)),
        ) % modulus() == (if a == 0 && c.len() > 0 {
            n * c[0]
        } else {
            0
        }) % modulus(),
    decreases c.len(),
{
    let p = modulus();
    let nn = n as int;
    let t = |i: int| fpow(grid_point(g, w, i), a) * poly_eval(c, grid_point(g, w, i));
    if c.len() == 0 {
        assert forall|i: int| 0 <= i < nn implies #[trigger] t(i) == 0 by {}
        crate::identities::lemma_jsum_zero(nn, t);
    } else {
        let c0 = c[0];
        let rest = c.drop_first();
        let ga = |i: int| fpow(grid_point(g, w, i), a);
        let u = |i: int| c0 * ga(i);
        let v = |i: int| fpow(grid_point(g, w, i), a + 1) * poly_eval(rest, grid_point(g, w, i));
        let wv = |i: int| u(i) + v(i);
        assert forall|i: int| 0 <= i < nn implies #[trigger] t(i) % p == wv(i) % p by {
            let x = grid_point(g, w, i);
            let fa = fpow(x, a);
            let e = poly_eval(rest, x);
            assert(poly_eval(c, x) == (c0 + x * e) % p);
            vstd::arithmetic::div_mod::lemma_mul_mod_noop_right(fa, c0 + x * e, p);
            assert(fa * (c0 + x * e) == c0 * fa + (fa * x) * e) by (nonlinear_arith);
            crate::field::lemma_fpow_step(x, a);
            reveal(fmul);
            vstd::arithmetic::div_mod::lemma_mul_mod_noop_left(fa * x, e, p);
            vstd::arithmetic::div_mod::lemma_add_mod_noop(c0 * fa, (fa * x) * e, p);
            vstd::arithmetic::div_mod::lemma_add_mod_noop(c0 * fa, fpow(x, a + 1) * e, p);
        }
        crate::identities::lemma_jsum_congruent(nn, t, wv);
        crate::identities::lemma_jsum_add(nn, u, v, wv);
        crate::identities::lemma_jsum_scale(nn, c0, ga, u);
        lemma_grid_twisted_sum(rest, g, gi, w, n, a + 1);
        lemma_grid_power_sum(g, gi, w, n, a);
        let gs = crate::identities::jsum(nn, ga);
        vstd::arithmetic::div_mod::lemma_add_mod_noop(c0 * gs, crate::identities::jsum(nn, v), p);
        if a > 0 {
            vstd::arithmetic::div_mod::lemma_mul_mod_noop_right(c0, gs, p);
            assert(c0 * 0 == 0);
        } else {
            assert(c0 * gs == nn * c0) by (nonlinear_arith)
                requires
                    gs == nn,
            ;
        }
        vstd::arithmetic::div_mod::lemma_small_mod(0, p as nat);
    }
}

/// `g·w^i` is invertible: `gi·w^{n−i}` inverts it.
proof fn lemma_grid_point_inverse(g: int, gi: int, w: int, n: nat, i: int)
    requires
        grid(g, gi, w, n),
        0 <= i < n,
    ensures
        fmul(grid_point(g, w, i), fmul(gi, fpow(w, (n - i) as nat))) == 1,
{
    let a = fpow(w, i as nat);
    let b = fpow(w, (n - i) as nat);
    crate::field::lemma_fmul_assoc(g, a, fmul(gi, b));
    crate::field::lemma_fmul_assoc(a, gi, b);
    crate::field::lemma_fmul_comm(a, gi);
    crate::field::lemma_fmul_assoc(gi, a, b);
    crate::field::lemma_fpow_adds(w, i as nat, (n - i) as nat);
    assert(n % 2 == 0);
    crate::field::lemma_fpow_adds(w, n / 2, n / 2);
    crate::identities::lemma_minus_one_squared();
    assert(fmul(a, b) == 1);
    crate::field::lemma_fmul_assoc(g, gi, 1);
    crate::field::lemma_fmul_one(1);
}

/// A polynomial with at most `n` coefficients that vanishes at the `n`
/// points of the coset `g·⟨w⟩` is 0 everywhere.
pub proof fn lemma_grid_unique(c: Seq<int>, g: int, gi: int, w: int, n: nat)
    requires
        grid(g, gi, w, n),
        c.len() <= n,
        forall|i: int| 0 <= i < n ==> #[trigger] poly_eval(c, grid_point(g, w, i)) == 0,
    ensures
        forall|x: int| #[trigger] poly_eval(c, x) == 0,
    decreases c.len(),
{
    if c.len() > 0 {
        let p = modulus();
        let nn = n as int;
        let c0 = c[0];
        let rest = c.drop_first();
        // Σ_i c(x_i) = 0 ≡ n·c₀, so c₀ ≡ 0.
        let t = |i: int| fpow(grid_point(g, w, i), 0) * poly_eval(c, grid_point(g, w, i));
        assert forall|i: int| 0 <= i < nn implies #[trigger] t(i) == 0 by {
            assert(poly_eval(c, grid_point(g, w, i)) == 0);
        }
        crate::identities::lemma_jsum_zero(nn, t);
        lemma_grid_twisted_sum(c, g, gi, w, n, 0);
        vstd::arithmetic::div_mod::lemma_small_mod(0, p as nat);
        assert((nn * c0) % p == 0);
        crate::field::lemma_pow2_inverse_known(n);
        vstd::arithmetic::div_mod::lemma_small_mod(n, p as nat);
        reveal(fmul);
        let fi = crate::field::finv(nn);
        assert((fi * nn) % p == 1);
        vstd::arithmetic::div_mod::lemma_mul_mod_noop_left(fi * nn, c0, p);
        assert((fi * nn) * c0 == fi * (nn * c0)) by (nonlinear_arith);
        vstd::arithmetic::div_mod::lemma_mul_mod_noop_right(fi, nn * c0, p);
        assert(fi * 0 == 0);
        assert(1 * c0 == c0);
        assert(c0 % p == 0);
        // c(x) = x·rest(x), and every x_i is invertible, so rest vanishes too.
        assert forall|i: int| 0 <= i < nn implies #[trigger] poly_eval(rest, grid_point(g, w, i))
            == 0 by {
            let x = grid_point(g, w, i);
            let e = poly_eval(rest, x);
            let y = fmul(gi, fpow(w, (n - i) as nat));
            assert(poly_eval(c, x) == (c0 + x * e) % p);
            vstd::arithmetic::div_mod::lemma_add_mod_noop(c0, x * e, p);
            vstd::arithmetic::div_mod::lemma_mod_bound(x * e, p);
            vstd::arithmetic::div_mod::lemma_small_mod(((x * e) % p) as nat, p as nat);
            assert(fmul(x, e) == 0);
            lemma_grid_point_inverse(g, gi, w, n, i);
            crate::field::lemma_fmul_comm(x, y);
            crate::field::lemma_fmul_assoc(y, x, e);
            crate::field::lemma_poly_eval_canonical(rest, x);
            crate::field::lemma_fmul_one(e);
            assert(y * 0 == 0);
        }
        lemma_grid_unique(rest, g, gi, w, n);
        assert forall|x: int| #[trigger] poly_eval(c, x) == 0 by {
            assert(poly_eval(rest, x) == 0);
            assert(poly_eval(c, x) == (c0 + x * poly_eval(rest, x)) % p);
            assert(x * 0 == 0);
        }
    }
}

} // verus!
