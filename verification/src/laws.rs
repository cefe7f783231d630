//! Cross-cutting algebraic laws of the polynomial engine and the
//! commitment component, stated over the same specification functions the
//! component contracts use.

use vstd::prelude::*;

verus! {

use vstd::arithmetic::div_mod::{
    lemma_add_mod_noop, lemma_fundamental_div_mod, lemma_mul_mod_noop_left,
    lemma_mul_mod_noop_right, lemma_small_mod,
};
use vstd::arithmetic::mul::lemma_mul_is_distributive_add_other_way;

use crate::commitment::inner_product;
use crate::domain::Domain;
use crate::field::{
    all_fr, fadd, fmul, fsub, lemma_fadd_assoc, lemma_fmul_assoc, lemma_fmul_distrib, pow_fr,
    MODULUS,
};
use crate::polynomial::{eval_poly, idft_at, indicator_seq, lemma_eval_poly_is_fr, Polynomial};
use crate::prover::{chunks_eval_fold, round2_z_at, FirstPartialProverState};
use crate::precomputations::SetupPolynomials;

proof fn lemma_eval_zeros(s: Seq<u64>, z: int)
    requires
        forall|i: int| 0 <= i < s.len() ==> #[trigger] s[i] == 0,
    ensures
        eval_poly(s, z) == 0,
    decreases s.len(),
{
    if s.len() > 0 {
        lemma_eval_zeros(s.subrange(1, s.len() as int), z);
        assert(fmul(z, 0) == 0);
        assert(fadd(0, 0) == 0);
    }
}

proof fn lemma_eval_trailing_zeros(s: Seq<u64>, t: Seq<u64>, z: int)
    requires
        t.len() >= s.len(),
        forall|i: int| 0 <= i < s.len() ==> #[trigger] t[i] == s[i],
        forall|i: int| s.len() <= i < t.len() ==> #[trigger] t[i] == 0,
    ensures
        eval_poly(t, z) == eval_poly(s, z),
    decreases s.len(),
{
    if s.len() == 0 {
        lemma_eval_zeros(t, z);
    } else {
        let st = s.subrange(1, s.len() as int);
        let tt = t.subrange(1, t.len() as int);
        lemma_eval_trailing_zeros(st, tt, z);
        assert(t[0] == s[0]);
    }
}

/// Splitting a polynomial at coefficient `n` preserves its value: the low
/// part plus `z^n` times the high part.
pub proof fn lemma_eval_poly_split(s: Seq<u64>, n: int, z: int)
    requires
        0 <= n <= s.len(),
    ensures
        eval_poly(s, z) == fadd(
            eval_poly(s.subrange(0, n), z),
            fmul(pow_fr(z, n as nat), eval_poly(s.subrange(n, s.len() as int), z)),
        ),
    decreases n,
{
    if n == 0 {
        let e = eval_poly(s, z);
        lemma_eval_poly_is_fr(s, z);
        assert(s.subrange(0, 0).len() == 0);
        assert(s.subrange(0, s.len() as int) =~= s);
        lemma_small_mod(e as nat, MODULUS as nat);
        assert(fmul(1, e) == e);
        assert(fadd(0, e) == e);
    } else {
        let tail = s.subrange(1, s.len() as int);
        lemma_eval_poly_split(tail, n - 1, z);
        assert(s.subrange(0, n).subrange(1, n) =~= tail.subrange(0, n - 1));
        assert(s.subrange(n, s.len() as int) =~= tail.subrange(n - 1, tail.len() as int));
        let a = eval_poly(tail.subrange(0, n - 1), z);
        let rest = eval_poly(tail.subrange(n - 1, tail.len() as int), z);
        let p1 = pow_fr(z, (n - 1) as nat);
        assert(s.subrange(0, n)[0] == s[0]);
        assert(eval_poly(s.subrange(0, n), z) == fadd(s[0] as int, fmul(z, a)));
        assert(eval_poly(s, z) == fadd(s[0] as int, fmul(z, eval_poly(tail, z))));
        assert(eval_poly(tail, z) == fadd(a, fmul(p1, rest)));
        lemma_fmul_distrib(z, a, fmul(p1, rest));
        lemma_fadd_assoc(s[0] as int, fmul(z, a), fmul(z, fmul(p1, rest)));
        lemma_fmul_assoc(z, p1, rest);
        assert(pow_fr(z, n as nat) == fmul(z, p1));
    }
}

proof fn lemma_fold_tail(
    padded: Seq<u64>,
    parts: Seq<Polynomial>,
    z: int,
    chunk: int,
    acc: int,
    cur: int,
    k: int,
)
    requires
        chunk >= 1,
        padded.len() == parts.len() * chunk,
        forall|t: int|
            0 <= t < parts.len() ==> (#[trigger] parts[t]).elems@.len() == chunk,
        forall|t: int, i: int|
            0 <= t < parts.len() && 0 <= i < chunk ==> #[trigger] parts[t].elems@[i] == padded[t
                * chunk + i],
        0 <= k <= parts.len(),
        0 <= acc < MODULUS,
        0 <= cur < MODULUS,
    ensures
        chunks_eval_fold(parts, z, pow_fr(z, chunk as nat), acc, cur, k) == fadd(
            acc,
            fmul(cur, eval_poly(padded.subrange(k * chunk, padded.len() as int), z)),
        ),
    decreases parts.len() - k,
{
    assert(0 <= k * chunk <= parts.len() * chunk) by (nonlinear_arith)
        requires
            0 <= k <= parts.len(),
            chunk >= 1,
    ;
    if k == parts.len() {
        assert(k * chunk == padded.len());
        let tail = padded.subrange(k * chunk, padded.len() as int);
        assert(tail.len() == 0);
        assert(fmul(cur, 0) == 0);
        lemma_small_mod(acc as nat, MODULUS as nat);
        assert(fadd(acc, 0) == acc);
    } else {
        assert((k + 1) * chunk == k * chunk + chunk) by (nonlinear_arith);
        assert((k + 1) * chunk <= parts.len() * chunk) by (nonlinear_arith)
            requires
                k + 1 <= parts.len(),
                chunk >= 1,
        ;
        let ek = eval_poly(parts[k].elems@, z);
        let p = pow_fr(z, chunk as nat);
        let acc2 = fadd(acc, fmul(ek, cur));
        let cur2 = fmul(cur, p);
        lemma_fold_tail(padded, parts, z, chunk, acc2, cur2, k + 1);
        let tail = padded.subrange(k * chunk, padded.len() as int);
        lemma_eval_poly_split(tail, chunk, z);
        assert forall|i: int| 0 <= i < chunk implies tail.subrange(0, chunk)[i] == parts[k].elems@[
            i
        ] by {
            assert(parts[k].elems@[i] == padded[k * chunk + i]);
        }
        assert(tail.subrange(0, chunk) =~= parts[k].elems@);
        assert(tail.subrange(chunk, tail.len() as int) =~= padded.subrange(
            (k + 1) * chunk,
            padded.len() as int,
        ));
        let rest = eval_poly(padded.subrange((k + 1) * chunk, padded.len() as int), z);
        lemma_eval_poly_is_fr(parts[k].elems@, z);
        lemma_fmul_distrib(cur, ek, fmul(p, rest));
        lemma_fadd_assoc(acc, fmul(cur, ek), fmul(cur, fmul(p, rest)));
        lemma_fmul_assoc(cur, p, rest);
        assert(ek * cur == cur * ek) by (nonlinear_arith);
        assert(fmul(ek, cur) == fmul(cur, ek));
    }
}

/// Splitting a coefficient polynomial into `chunk`-sized pieces — the last
/// piece zero-padded, as `break_into_multiples` produces them — and then
/// recombining the pieces' values with increasing powers of `z^chunk`
/// reproduces direct evaluation of the original polynomial at `z`, at
/// every point `z`.
pub proof fn lemma_break_into_multiples_recombines(
    orig: Seq<u64>,
    parts: Seq<Polynomial>,
    z: int,
    chunk: int,
)
    requires
        chunk >= 1,
        orig.len() >= 1,
        parts.len() >= 1,
        parts.len() * chunk >= orig.len(),
        forall|t: int|
            0 <= t < parts.len() ==> (#[trigger] parts[t]).elems@.len() == chunk,
        forall|t: int, i: int|
            0 <= t < parts.len() && 0 <= i < chunk ==> #[trigger] parts[t].elems@[i] == (if t
                * chunk + i < orig.len() {
                orig[t * chunk + i]
            } else {
                0u64
            }),
    ensures
        chunks_eval_fold(parts, z, pow_fr(z, chunk as nat), 0, 1, 0) == eval_poly(orig, z),
{
    let len = (parts.len() * chunk) as nat;
    let padded = Seq::new(
        len,
        |j: int|
            if j < orig.len() {
                orig[j]
            } else {
                0u64
            },
    );
    assert forall|t: int, i: int| 0 <= t < parts.len() && 0 <= i < chunk implies #[trigger] parts[
        t
    ].elems@[i] == padded[t * chunk + i] by {
        assert(0 <= t * chunk + i < parts.len() * chunk) by (nonlinear_arith)
            requires
                0 <= t < parts.len(),
                0 <= i < chunk,
        ;
    }
    lemma_fold_tail(padded, parts, z, chunk, 0, 1, 0);
    assert(padded.subrange(0, padded.len() as int) =~= padded);
    lemma_eval_trailing_zeros(orig, padded, z);
    let e = eval_poly(orig, z);
    lemma_eval_poly_is_fr(orig, z);
    lemma_small_mod(e as nat, MODULUS as nat);
    assert(fmul(1, e) == e);
    assert(fadd(0, e) == e);
}

/// The permutation grand product starts at the multiplicative identity:
/// its value at the domain's first point is one, whatever the witness,
/// the permutation and the challenges.
pub proof fn lemma_grand_product_starts_at_identity(
    fs: FirstPartialProverState,
    setup: SetupPolynomials,
    beta: int,
    gamma: int,
)
    ensures
        round2_z_at(fs, setup, beta, gamma, 0) == 1,
{
}

/// Pointwise field sum of two equally long scalar vectors.
pub open spec fn fadd_seqs(x: Seq<u64>, y: Seq<u64>) -> Seq<u64> {
    Seq::new(x.len(), |i: int| fadd(x[i] as int, y[i] as int) as u64)
}

/// A scalar vector scaled by a constant.
pub open spec fn scale_seq(c: int, x: Seq<u64>) -> Seq<u64> {
    Seq::new(x.len(), |i: int| fmul(c, x[i] as int) as u64)
}

/// The all-zero scalar vector.
pub open spec fn zero_seq(n: int) -> Seq<u64> {
    Seq::new(n as nat, |i: int| 0u64)
}

/// The coefficient form of the `i`-th Lagrange basis polynomial of `dom`.
pub open spec fn lagrange_coeffs(dom: Domain, i: int) -> Seq<u64> {
    Seq::new(
        dom.size as nat,
        |j: int| idft_at(indicator_seq(dom.size as int, i), dom, j) as u64,
    )
}

/// The coefficient vector interpolating the value vector `v` over `dom`.
pub open spec fn idft_seq(v: Seq<u64>, dom: Domain) -> Seq<u64> {
    Seq::new(v.len(), |j: int| idft_at(v, dom, j) as u64)
}

proof fn lemma_inner_zero(n: int, b: Seq<u64>)
    requires
        n >= 0,
    ensures
        inner_product(zero_seq(n), b) == 0,
    decreases n,
{
    if n > 0 {
        lemma_inner_zero(n - 1, b.subrange(1, b.len() as int));
        assert(zero_seq(n).subrange(1, n) =~= zero_seq(n - 1));
        assert(fmul(0, b[0] as int) == 0);
        assert(fadd(0, 0) == 0);
    }
}

proof fn lemma_inner_indicator(n: int, i: int, b: Seq<u64>)
    requires
        0 <= i < n,
        n <= b.len(),
        all_fr(b),
    ensures
        inner_product(indicator_seq(n, i), b) == b[i],
    decreases n,
{
    let e = indicator_seq(n, i);
    if i == 0 {
        assert(e[0] == 1u64);
        assert(fmul(1, b[0] as int) == b[0]) by {
            lemma_small_mod(b[0] as nat, MODULUS as nat);
        }
        assert(e.subrange(1, n) =~= zero_seq(n - 1));
        lemma_inner_zero(n - 1, b.subrange(1, b.len() as int));
        assert(fadd(b[0] as int, 0) == b[0]) by {
            lemma_small_mod(b[0] as nat, MODULUS as nat);
        }
    } else {
        assert(e[0] == 0u64);
        assert(fmul(0, b[0] as int) == 0);
        assert(e.subrange(1, n) =~= indicator_seq(n - 1, i - 1));
        let bt = b.subrange(1, b.len() as int);
        lemma_inner_indicator(n - 1, i - 1, bt);
        assert(bt[i - 1] == b[i]);
        assert(fadd(0, b[i] as int) == b[i]) by {
            lemma_small_mod(b[i] as nat, MODULUS as nat);
        }
    }
}

proof fn lemma_inner_additive(x: Seq<u64>, y: Seq<u64>, b: Seq<u64>)
    requires
        x.len() == y.len(),
    ensures
        inner_product(fadd_seqs(x, y), b) == fadd(inner_product(x, b), inner_product(y, b)),
    decreases x.len(),
{
    let s = fadd_seqs(x, y);
    if x.len() == 0 {
        assert(fadd(0, 0) == 0);
    } else {
        let xt = x.subrange(1, x.len() as int);
        let yt = y.subrange(1, y.len() as int);
        let bt = b.subrange(1, b.len() as int);
        lemma_inner_additive(xt, yt, bt);
        assert(s.subrange(1, s.len() as int) =~= fadd_seqs(xt, yt));
        let m = MODULUS as int;
        // the head term distributes
        assert(fmul(s[0] as int, b[0] as int) == fadd(
            fmul(x[0] as int, b[0] as int),
            fmul(y[0] as int, b[0] as int),
        )) by {
            assert(s[0] as int == fadd(x[0] as int, y[0] as int));
            lemma_mul_mod_noop_left(x[0] as int + y[0] as int, b[0] as int, m);
            lemma_mul_is_distributive_add_other_way(b[0] as int, x[0] as int, y[0] as int);
            lemma_add_mod_noop(x[0] as int * b[0] as int, y[0] as int * b[0] as int, m);
        }
        crate::field::lemma_fadd_rearrange(
            fmul(x[0] as int, b[0] as int),
            fmul(y[0] as int, b[0] as int),
            inner_product(xt, bt),
            inner_product(yt, bt),
        );
    }
}

proof fn lemma_inner_scale(c: int, x: Seq<u64>, b: Seq<u64>)
    ensures
        inner_product(scale_seq(c, x), b) == fmul(c, inner_product(x, b)),
    decreases x.len(),
{
    let s = scale_seq(c, x);
    let m = MODULUS as int;
    if x.len() == 0 {
        assert(fmul(c, 0) == 0);
    } else {
        let xt = x.subrange(1, x.len() as int);
        let bt = b.subrange(1, b.len() as int);
        lemma_inner_scale(c, xt, bt);
        assert(s.subrange(1, s.len() as int) =~= scale_seq(c, xt));
        // head: (c * x0) * b0 == c * (x0 * b0) modulo the prime
        assert(fmul(s[0] as int, b[0] as int) == fmul(c, fmul(x[0] as int, b[0] as int))) by {
            lemma_mul_mod_noop_left(c * (x[0] as int), b[0] as int, m);
            crate::field::lemma_fmul_assoc(c, x[0] as int, b[0] as int);
        }
        // c * (h + t) == c*h + c*t
        crate::field::lemma_fmul_distrib(
            c,
            fmul(x[0] as int, b[0] as int),
            inner_product(xt, bt),
        );
    }
}

proof fn lemma_eval_additive(x: Seq<u64>, y: Seq<u64>, t: int)
    requires
        x.len() == y.len(),
    ensures
        eval_poly(fadd_seqs(x, y), t) == fadd(eval_poly(x, t), eval_poly(y, t)),
    decreases x.len(),
{
    let s = fadd_seqs(x, y);
    let m = MODULUS as int;
    if x.len() == 0 {
        assert(fadd(0, 0) == 0);
    } else {
        let xt = x.subrange(1, x.len() as int);
        let yt = y.subrange(1, y.len() as int);
        lemma_eval_additive(xt, yt, t);
        assert(s.subrange(1, s.len() as int) =~= fadd_seqs(xt, yt));
        let ex = eval_poly(xt, t);
        let ey = eval_poly(yt, t);
        // t * (ex + ey) == t*ex + t*ey
        crate::field::lemma_fmul_distrib(t, ex, ey);
        assert(s[0] as int == fadd(x[0] as int, y[0] as int));
        // (x0 + y0) reduced does not change the sum
        lemma_add_mod_noop(x[0] as int + y[0] as int, t * ex % m + t * ey % m, m);
        crate::field::lemma_fadd_rearrange(
            x[0] as int,
            y[0] as int,
            fmul(t, ex),
            fmul(t, ey),
        );
        assert(fadd(s[0] as int, fmul(t, fadd(ex, ey))) == fadd(
            fadd(x[0] as int, y[0] as int),
            fadd(fmul(t, ex), fmul(t, ey)),
        )) by {
            lemma_small_mod(
                ((x[0] as int + y[0] as int) % m) as nat,
                MODULUS as nat,
            );
            lemma_add_mod_noop(
                (x[0] as int + y[0] as int) % m,
                fmul(t, ex) + fmul(t, ey),
                m,
            );
            lemma_add_mod_noop(
                x[0] as int + y[0] as int,
                fmul(t, ex) + fmul(t, ey),
                m,
            );
        }
    }
}

proof fn lemma_eval_scale(c: int, x: Seq<u64>, t: int)
    ensures
        eval_poly(scale_seq(c, x), t) == fmul(c, eval_poly(x, t)),
    decreases x.len(),
{
    let s = scale_seq(c, x);
    if x.len() == 0 {
        assert(fmul(c, 0) == 0);
    } else {
        let xt = x.subrange(1, x.len() as int);
        lemma_eval_scale(c, xt, t);
        assert(s.subrange(1, s.len() as int) =~= scale_seq(c, xt));
        let ex = eval_poly(xt, t);
        // goal: fadd(c*x0, t * (c*ex)) == c * fadd(x0, t*ex)
        crate::field::lemma_fmul_distrib(c, x[0] as int, fmul(t, ex));
        // t * (c * ex) == c * (t * ex)
        crate::field::lemma_fmul_assoc(t, c, ex);
        crate::field::lemma_fmul_comm(t, c);
        crate::field::lemma_fmul_assoc(c, t, ex);
        // reduced arguments
        let m = MODULUS as int;
        lemma_mul_mod_noop_right(t, c * ex, m);
        lemma_mul_mod_noop_right(c, x[0] as int + fmul(t, ex) * 1, m);
        assert(fmul(c, fadd(x[0] as int, fmul(t, ex))) == fadd(
            fmul(c, x[0] as int),
            fmul(c, fmul(t, ex)),
        ));
        assert(fmul(t, fmul(c, ex)) == fmul(c, fmul(t, ex)));
    }
}

proof fn lemma_idft_of_prefix_step(v: Seq<u64>, dom: Domain, k: int)
    requires
        all_fr(v),
        1 <= k <= v.len(),
        v.len() == dom.size,
    ensures
        idft_seq(prefix_seq(v, k), dom) =~= fadd_seqs(
            idft_seq(prefix_seq(v, k - 1), dom),
            scale_seq(v[k - 1] as int, lagrange_coeffs(dom, k - 1)),
        ),
{
    let n = v.len() as int;
    let wk = prefix_seq(v, k);
    let wp = prefix_seq(v, k - 1);
    let c = v[k - 1] as int;
    let e = indicator_seq(n, k - 1);
    assert(wk =~= fadd_seqs(wp, scale_seq(c, e))) by {
        assert forall|i: int| 0 <= i < n implies wk[i] == fadd_seqs(wp, scale_seq(c, e))[i] by {
            lemma_small_mod(v[i] as nat, MODULUS as nat);
            if i == k - 1 {
                assert(fmul(c, 1) == c) by {
                    lemma_small_mod(c as nat, MODULUS as nat);
                }
                assert(fadd(0, c) == c) by {
                    lemma_small_mod(c as nat, MODULUS as nat);
                }
            } else {
                assert(fmul(c, 0) == 0);
            }
        }
    }
    assert forall|j: int| 0 <= j < n implies idft_seq(wk, dom)[j] == fadd_seqs(
        idft_seq(wp, dom),
        scale_seq(c, lagrange_coeffs(dom, k - 1)),
    )[j] by {
        let y = pow_fr(dom.omega_inv as int, j as nat);
        lemma_eval_additive(wp, scale_seq(c, e), y);
        lemma_eval_scale(c, e, y);
        let minv = dom.size_inv as int;
        let ew = eval_poly(wp, y);
        let ee = eval_poly(e, y);
        crate::field::lemma_fmul_distrib(minv, ew, fmul(c, ee));
        crate::field::lemma_fmul_assoc(minv, c, ee);
        crate::field::lemma_fmul_comm(minv, c);
        crate::field::lemma_fmul_assoc(c, minv, ee);
        assert(fmul(minv, fmul(c, ee)) == fmul(c, fmul(minv, ee)));
    }
}

/// A value vector with everything from slot `k` on zeroed.
pub open spec fn prefix_seq(v: Seq<u64>, k: int) -> Seq<u64> {
    Seq::new(
        v.len(),
        |i: int|
            if i < k {
                v[i]
            } else {
                0u64
            },
    )
}

proof fn lemma_base_change_prefix(
    v: Seq<u64>,
    crs_l: Seq<u64>,
    crs_m: Seq<u64>,
    dom: Domain,
    k: int,
)
    requires
        all_fr(v),
        all_fr(crs_l),
        v.len() == dom.size,
        crs_l.len() == dom.size,
        crs_m.len() >= dom.size,
        dom.size >= 1,
        forall|i: int|
            0 <= i < dom.size ==> #[trigger] crs_l[i] as int == inner_product(
                lagrange_coeffs(dom, i),
                crs_m,
            ),
        0 <= k <= v.len(),
    ensures
        inner_product(prefix_seq(v, k), crs_l) == inner_product(
            idft_seq(prefix_seq(v, k), dom),
            crs_m,
        ),
    decreases k,
{
    let n = v.len() as int;
    if k == 0 {
        assert(prefix_seq(v, 0) =~= zero_seq(n));
        lemma_inner_zero(n, crs_l);
        assert(idft_seq(zero_seq(n), dom) =~= zero_seq(n)) by {
            assert forall|j: int| 0 <= j < n implies idft_seq(zero_seq(n), dom)[j] == 0u64 by {
                let y = pow_fr(dom.omega_inv as int, j as nat);
                assert(zero_seq(n) =~= scale_seq(0, zero_seq(n)));
                lemma_eval_scale(0, zero_seq(n), y);
                assert(fmul(0, eval_poly(zero_seq(n), y)) == 0);
                assert(fmul(dom.size_inv as int, 0) == 0);
            }
        }
        lemma_inner_zero(n, crs_m);
    } else {
        lemma_base_change_prefix(v, crs_l, crs_m, dom, k - 1);
        let wk = prefix_seq(v, k);
        let wp = prefix_seq(v, k - 1);
        let c = v[k - 1] as int;
        let e = indicator_seq(n, k - 1);
        // left side: peel the new coordinate
        assert(wk =~= fadd_seqs(wp, scale_seq(c, e))) by {
            assert forall|i: int| 0 <= i < n implies wk[i] == fadd_seqs(wp, scale_seq(c, e))[
                i
            ] by {
                lemma_small_mod(v[i] as nat, MODULUS as nat);
                if i == k - 1 {
                    assert(fmul(c, 1) == c) by {
                        lemma_small_mod(c as nat, MODULUS as nat);
                    }
                    assert(fadd(0, c) == c) by {
                        lemma_small_mod(c as nat, MODULUS as nat);
                    }
                } else {
                    assert(fmul(c, 0) == 0);
                }
            }
        }
        lemma_inner_additive(wp, scale_seq(c, e), crs_l);
        lemma_inner_scale(c, e, crs_l);
        lemma_inner_indicator(n, k - 1, crs_l);
        // right side: the interpolation is linear in the values
        lemma_idft_of_prefix_step(v, dom, k);
        lemma_inner_additive(
            idft_seq(wp, dom),
            scale_seq(c, lagrange_coeffs(dom, k - 1)),
            crs_m,
        );
        lemma_inner_scale(c, lagrange_coeffs(dom, k - 1), crs_m);
        assert(crs_l[k - 1] as int == inner_product(lagrange_coeffs(dom, k - 1), crs_m));
        assert(idft_seq(wp, dom).len() == scale_seq(c, lagrange_coeffs(dom, k - 1)).len());
    }
}

/// Committing a value vector against Lagrange-form bases and committing
/// its interpolated coefficient vector against monomial-form bases yield
/// the same commitment, whenever the Lagrange bases are the monomial
/// commitments of the Lagrange basis polynomials — the two bases then
/// describe one structured reference string.
pub proof fn lemma_commitment_base_change(
    v: Seq<u64>,
    crs_l: Seq<u64>,
    crs_m: Seq<u64>,
    dom: Domain,
)
    requires
        all_fr(v),
        all_fr(crs_l),
        v.len() == dom.size,
        crs_l.len() == dom.size,
        crs_m.len() >= dom.size,
        dom.size >= 1,
        forall|i: int|
            0 <= i < dom.size ==> #[trigger] crs_l[i] as int == inner_product(
                lagrange_coeffs(dom, i),
                crs_m,
            ),
    ensures
        inner_product(v, crs_l) == inner_product(idft_seq(v, dom), crs_m),
{
    lemma_base_change_prefix(v, crs_l, crs_m, dom, v.len() as int);
    assert(prefix_seq(v, v.len() as int) =~= v);
}

/// The first `n` powers of `b`, lowest exponent first.
pub open spec fn powers_seq(b: int, n: int) -> Seq<u64> {
    Seq::new(n as nat, |t: int| pow_fr(b, t as nat) as u64)
}

/// The geometric sum `1 + x + ... + x^(m-1)`, in Horner form.
pub open spec fn geo(x: int, m: int) -> int
    decreases m,
{
    if m <= 0 {
        0
    } else {
        fadd(1, fmul(x, geo(x, m - 1)))
    }
}

proof fn lemma_geo_bounds(x: int, m: int)
    ensures
        0 <= geo(x, m) < MODULUS,
    decreases m,
{
    if m > 0 {
        lemma_geo_bounds(x, m - 1);
    }
}

proof fn lemma_eval_powers(b: int, n: int, y: int)
    requires
        n >= 0,
    ensures
        eval_poly(powers_seq(b, n), y) == geo(fmul(b, y), n),
    decreases n,
{
    if n > 0 {
        let s = powers_seq(b, n);
        assert(s[0] == 1u64);
        assert forall|i: int| 0 <= i < n - 1 implies s.subrange(1, n)[i] == scale_seq(
            b,
            powers_seq(b, n - 1),
        )[i] by {
            assert(pow_fr(b, (i + 1) as nat) == fmul(b, pow_fr(b, i as nat)));
            crate::field::lemma_pow_fr_bounds(b, (i + 1) as nat);
        }
        assert(s.subrange(1, n) =~= scale_seq(b, powers_seq(b, n - 1)));
        lemma_eval_scale(b, powers_seq(b, n - 1), y);
        lemma_eval_powers(b, n - 1, y);
        let g = geo(fmul(b, y), n - 1);
        crate::field::lemma_fmul_assoc(y, b, g);
        crate::field::lemma_fmul_comm(y, b);
        crate::field::lemma_fmul_assoc(b, y, g);
    }
}

proof fn lemma_geo_one(m: int)
    requires
        m >= 0,
    ensures
        geo(1, m) == m % (MODULUS as int),
    decreases m,
{
    if m > 0 {
        lemma_geo_one(m - 1);
        let gp = geo(1, m - 1);
        lemma_geo_bounds(1, m - 1);
        lemma_small_mod(gp as nat, MODULUS as nat);
        assert(fmul(1, gp) == gp);
        assert(fadd(1, (m - 1) % (MODULUS as int)) == (1 + (m - 1)) % (MODULUS as int)) by {
            vstd::arithmetic::div_mod::lemma_add_mod_noop_right(1, m - 1, MODULUS as int);
        }
    }
}

proof fn lemma_geo_mul(x: int, m: int)
    requires
        m >= 0,
    ensures
        fmul(fsub(x, 1), geo(x, m)) == fsub(pow_fr(x, m as nat), 1),
    decreases m,
{
    let md = MODULUS as int;
    let d = fsub(x, 1);
    if m == 0 {
        assert(fmul(d, 0) == 0);
        assert(fsub(1, 1) == 0);
    } else {
        lemma_geo_mul(x, m - 1);
        let gp = geo(x, m - 1);
        let pp = pow_fr(x, (m - 1) as nat);
        lemma_fmul_distrib(d, 1, fmul(x, gp));
        assert(fmul(d, 1) == d) by {
            vstd::arithmetic::div_mod::lemma_mod_bound(x - 1, md);
            lemma_small_mod(d as nat, MODULUS as nat);
        }
        // d * (x * gp) == x * (d * gp)
        crate::field::lemma_fmul_assoc(d, x, gp);
        crate::field::lemma_fmul_comm(d, x);
        crate::field::lemma_fmul_assoc(x, d, gp);
        // x * ((pp - 1) mod) == (x*pp - x) mod
        lemma_mul_mod_noop_right(x, pp - 1, md);
        assert(x * (pp - 1) == x * pp - x * 1) by {
            vstd::arithmetic::mul::lemma_mul_is_distributive_sub(x, pp, 1);
        }
        assert(fmul(x, fsub(pp, 1)) == (x * pp - x) % md);
        // d + (x*pp - x) mod == (x*pp - 1) mod
        lemma_add_mod_noop(x - 1, x * pp - x, md);
        // pow(x, m) - 1 reduced the same way
        assert(fsub(fmul(x, pp), 1) == (x * pp - 1) % md) by {
            vstd::arithmetic::div_mod::lemma_sub_mod_noop(x * pp, 1, md);
            lemma_small_mod(1nat, MODULUS as nat);
        }
    }
}

proof fn lemma_geo_zero(x: int, m: int)
    requires
        0 <= x < MODULUS,
        x != 1,
        m >= 0,
        pow_fr(x, m as nat) == 1,
    ensures
        geo(x, m) == 0,
{
    let d = fsub(x, 1);
    if x == 0 {
        assert(d == MODULUS - 1);
    }
    if x >= 2 {
        lemma_small_mod((x - 1) as nat, MODULUS as nat);
    }
    assert(d != 0);
    assert(1 <= d < MODULUS) by {
        vstd::arithmetic::div_mod::lemma_mod_bound(x - 1, MODULUS as int);
    }
    lemma_geo_mul(x, m);
    assert(fsub(1, 1) == 0);
    crate::field::lemma_nonzero_has_inverse(d);
    lemma_geo_bounds(x, m);
    assert(fmul(d, 0) == 0);
    crate::field::lemma_fmul_cancel(d, geo(x, m), 0);
}

proof fn lemma_odd_divisor_of_pow2(n: int, e: int)
    requires
        crate::domain::is_pow2(n),
        e >= 1,
        e % 2 == 1,
        n % e == 0,
    ensures
        e == 1,
    decreases n,
{
    if n == 1 {
        if e > 1 {
            lemma_small_mod(1nat, e as nat);
            assert(false);
        }
    } else {
        assert(n % 2 == 0 && n >= 2);
        lemma_fundamental_div_mod(n, e);
        vstd::arithmetic::div_mod::lemma_div_pos_is_pos(n, e);
        let f = n / e;
        assert(n == e * f);
        assert(f >= 1) by (nonlinear_arith)
            requires
                n == e * f,
                n >= 2,
                e >= 1,
                f >= 0,
        ;
        if f % 2 == 1 {
            lemma_fundamental_div_mod(e, 2);
            lemma_fundamental_div_mod(f, 2);
            let eh = e / 2;
            let fh = f / 2;
            assert(e * f == 2 * (2 * eh * fh + eh + fh) + 1) by (nonlinear_arith)
                requires
                    e == 2 * eh + 1,
                    f == 2 * fh + 1,
            ;
            vstd::arithmetic::div_mod::lemma_fundamental_div_mod_converse(
                e * f,
                2,
                2 * eh * fh + eh + fh,
                1,
            );
            assert(false);
        }
        let fh = f / 2;
        lemma_fundamental_div_mod(f, 2);
        assert(f == 2 * fh);
        assert(n == 2 * (e * fh)) by (nonlinear_arith)
            requires
                n == e * f,
                f == 2 * fh,
        ;
        lemma_fundamental_div_mod(n, 2);
        assert(n / 2 == e * fh);
        assert((e * fh) % e == 0) by {
            vstd::arithmetic::div_mod::lemma_mod_multiples_basic(fh, e);
            assert(fh * e == e * fh) by (nonlinear_arith);
        }
        lemma_odd_divisor_of_pow2(n / 2, e);
    }
}

proof fn lemma_period_mod(w: int, n: int, d: int)
    requires
        pow_fr(w, n as nat) == 1,
        pow_fr(w, d as nat) == 1,
        1 <= d <= n,
    ensures
        pow_fr(w, (n % d) as nat) == 1,
{
    let q = n / d;
    let r = n % d;
    lemma_fundamental_div_mod(n, d);
    vstd::arithmetic::div_mod::lemma_mod_bound(n, d);
    vstd::arithmetic::div_mod::lemma_div_pos_is_pos(n, d);
    assert(n == d * q + r);
    crate::field::lemma_pow_fr_add(w, (d * q) as nat, r as nat);
    crate::field::lemma_pow_fr_pow(w, d as nat, q as nat);
    assert(d * q >= 0) by (nonlinear_arith)
        requires
            d >= 1,
            q >= 0,
    ;
    assert(d as nat * q as nat == (d * q) as nat);
    crate::field::lemma_pow_fr_one_base(q as nat);
    // pow(w, n) == fmul(1, pow(w, r))
    crate::field::lemma_pow_fr_bounds(w, r as nat);
    if r > 0 {
        lemma_small_mod(pow_fr(w, r as nat) as nat, MODULUS as nat);
    }
    assert(fmul(1, pow_fr(w, r as nat)) == pow_fr(w, r as nat) % (MODULUS as int));
}

proof fn lemma_pow2_order(w: int, n: int, d: int)
    requires
        0 <= w < MODULUS,
        crate::domain::is_pow2(n),
        pow_fr(w, n as nat) == 1,
        n >= 2 ==> pow_fr(w, (n / 2) as nat) != 1,
        1 <= d < n,
    ensures
        pow_fr(w, d as nat) != 1,
    decreases d,
{
    if pow_fr(w, d as nat) == 1 {
        let r = n % d;
        lemma_period_mod(w, n, d);
        vstd::arithmetic::div_mod::lemma_mod_bound(n, d);
        if r != 0 {
            lemma_pow2_order(w, n, r);
            assert(false);
        } else {
            lemma_fundamental_div_mod(n, d);
            vstd::arithmetic::div_mod::lemma_div_pos_is_pos(n, d);
            let e = n / d;
            assert(n == d * e);
            assert(e >= 2) by (nonlinear_arith)
                requires
                    n == d * e,
                    1 <= d < n,
                    e >= 0,
            ;
            assert(n % e == 0) by {
                vstd::arithmetic::div_mod::lemma_mod_multiples_basic(d, e);
                assert(d * e == e * d) by (nonlinear_arith);
                assert((d * e) % e == 0);
            }
            if e % 2 == 1 {
                lemma_odd_divisor_of_pow2(n, e);
                assert(false);
            }
            let eh = e / 2;
            lemma_fundamental_div_mod(e, 2);
            assert(e == 2 * eh);
            assert(n == 2 * (d * eh)) by (nonlinear_arith)
                requires
                    n == d * e,
                    e == 2 * eh,
            ;
            lemma_fundamental_div_mod(n, 2);
            assert(n % 2 == 0 && n >= 2);
            assert(n / 2 == d * eh);
            crate::field::lemma_pow_fr_pow(w, d as nat, eh as nat);
            assert(eh >= 0) by (nonlinear_arith)
                requires
                    e == 2 * eh,
                    e >= 2,
            ;
            assert(d * eh >= 0) by (nonlinear_arith)
                requires
                    d >= 1,
                    eh >= 0,
            ;
            assert(d as nat * eh as nat == (d * eh) as nat);
            crate::field::lemma_pow_fr_one_base(eh as nat);
            assert(pow_fr(w, (n / 2) as nat) == 1);
            assert(false);
        }
    }
}

/// The forward-transform values of the coefficient sequence `c` over
/// `dom`, in natural order.
pub open spec fn dft_seq(c: Seq<u64>, dom: Domain) -> Seq<u64> {
    Seq::new(c.len(), |t: int| crate::polynomial::dft_at(c, dom, t) as u64)
}

proof fn lemma_eval_indicator(n: int, i: int, x: int)
    requires
        0 <= i < n,
    ensures
        eval_poly(indicator_seq(n, i), x) == pow_fr(x, i as nat),
    decreases n,
{
    let e = indicator_seq(n, i);
    if i == 0 {
        assert(e[0] == 1u64);
        assert(e.subrange(1, n) =~= zero_seq(n - 1));
        lemma_eval_zeros(zero_seq(n - 1), x);
        assert(fmul(x, 0) == 0);
        assert(fadd(1, 0) == 1);
    } else {
        assert(e[0] == 0u64);
        assert(e.subrange(1, n) =~= indicator_seq(n - 1, i - 1));
        lemma_eval_indicator(n - 1, i - 1, x);
        let p = pow_fr(x, (i - 1) as nat);
        crate::field::lemma_pow_fr_bounds(x, i as nat);
        lemma_small_mod(pow_fr(x, i as nat) as nat, MODULUS as nat);
        assert(fadd(0, fmul(x, p)) == fmul(x, p));
    }
}

proof fn lemma_prefix_decompose(v: Seq<u64>, k: int)
    requires
        all_fr(v),
        1 <= k <= v.len(),
    ensures
        prefix_seq(v, k) =~= fadd_seqs(
            prefix_seq(v, k - 1),
            scale_seq(v[k - 1] as int, indicator_seq(v.len() as int, k - 1)),
        ),
{
    let n = v.len() as int;
    let c = v[k - 1] as int;
    let e = indicator_seq(n, k - 1);
    assert forall|i: int| 0 <= i < n implies prefix_seq(v, k)[i] == fadd_seqs(
        prefix_seq(v, k - 1),
        scale_seq(c, e),
    )[i] by {
        lemma_small_mod(v[i] as nat, MODULUS as nat);
        if i == k - 1 {
            assert(fmul(c, 1) == c) by {
                lemma_small_mod(c as nat, MODULUS as nat);
            }
            assert(fadd(0, c) == c) by {
                lemma_small_mod(c as nat, MODULUS as nat);
            }
        } else {
            assert(fmul(c, 0) == 0);
        }
    }
}

proof fn lemma_dft_additive(x: Seq<u64>, y: Seq<u64>, dom: Domain)
    requires
        x.len() == y.len(),
    ensures
        dft_seq(fadd_seqs(x, y), dom) =~= fadd_seqs(dft_seq(x, dom), dft_seq(y, dom)),
{
    assert forall|t: int| 0 <= t < x.len() implies dft_seq(fadd_seqs(x, y), dom)[t] == fadd_seqs(
        dft_seq(x, dom),
        dft_seq(y, dom),
    )[t] by {
        let p = pow_fr(dom.omega as int, t as nat);
        lemma_eval_additive(x, y, p);
        lemma_eval_poly_is_fr(x, p);
        lemma_eval_poly_is_fr(y, p);
        lemma_eval_poly_is_fr(fadd_seqs(x, y), p);
    }
}

proof fn lemma_dft_scale(c: int, x: Seq<u64>, dom: Domain)
    ensures
        dft_seq(scale_seq(c, x), dom) =~= scale_seq(c, dft_seq(x, dom)),
{
    assert forall|t: int| 0 <= t < x.len() implies dft_seq(scale_seq(c, x), dom)[t] == scale_seq(
        c,
        dft_seq(x, dom),
    )[t] by {
        let p = pow_fr(dom.omega as int, t as nat);
        lemma_eval_scale(c, x, p);
        lemma_eval_poly_is_fr(x, p);
        lemma_eval_poly_is_fr(scale_seq(c, x), p);
        let m = MODULUS as int;
        lemma_mul_mod_noop_right(c, eval_poly(x, p), m);
    }
}

proof fn lemma_idft_additive(x: Seq<u64>, y: Seq<u64>, dom: Domain)
    requires
        x.len() == y.len(),
    ensures
        idft_seq(fadd_seqs(x, y), dom) =~= fadd_seqs(idft_seq(x, dom), idft_seq(y, dom)),
{
    assert forall|j: int| 0 <= j < x.len() implies idft_seq(fadd_seqs(x, y), dom)[j] == fadd_seqs(
        idft_seq(x, dom),
        idft_seq(y, dom),
    )[j] by {
        let p = pow_fr(dom.omega_inv as int, j as nat);
        lemma_eval_additive(x, y, p);
        lemma_fmul_distrib(dom.size_inv as int, eval_poly(x, p), eval_poly(y, p));
    }
}

proof fn lemma_idft_scale(c: int, x: Seq<u64>, dom: Domain)
    ensures
        idft_seq(scale_seq(c, x), dom) =~= scale_seq(c, idft_seq(x, dom)),
{
    assert forall|j: int| 0 <= j < x.len() implies idft_seq(scale_seq(c, x), dom)[j] == scale_seq(
        c,
        idft_seq(x, dom),
    )[j] by {
        let p = pow_fr(dom.omega_inv as int, j as nat);
        let minv = dom.size_inv as int;
        lemma_eval_scale(c, x, p);
        let ev = eval_poly(x, p);
        crate::field::lemma_fmul_assoc(minv, c, ev);
        crate::field::lemma_fmul_comm(minv, c);
        crate::field::lemma_fmul_assoc(c, minv, ev);
        let m = MODULUS as int;
        lemma_mul_mod_noop_right(c, minv * ev, m);
    }
}

proof fn lemma_transforms_of_zero(n: int, dom: Domain)
    requires
        n >= 0,
    ensures
        dft_seq(zero_seq(n), dom) =~= zero_seq(n),
        idft_seq(zero_seq(n), dom) =~= zero_seq(n),
{
    assert forall|t: int| 0 <= t < n implies dft_seq(zero_seq(n), dom)[t] == zero_seq(n)[t] by {
        lemma_eval_zeros(zero_seq(n), pow_fr(dom.omega as int, t as nat));
    }
    assert forall|t: int| 0 <= t < n implies idft_seq(zero_seq(n), dom)[t] == zero_seq(n)[t] by {
        lemma_eval_zeros(zero_seq(n), pow_fr(dom.omega_inv as int, t as nat));
        assert(fmul(dom.size_inv as int, 0) == 0);
    }
}

proof fn lemma_pow_inverse_pair(dom: Domain, i: int)
    requires
        dom.wf(),
        i >= 0,
    ensures
        fmul(pow_fr(dom.omega as int, i as nat), pow_fr(dom.omega_inv as int, i as nat)) == 1,
{
    let w = dom.omega as int;
    let winv = dom.omega_inv as int;
    crate::field::lemma_pow_fr_mul_base(w, winv, i as nat);
    crate::field::lemma_pow_fr_one_base(i as nat);
}

proof fn lemma_distinct_powers(dom: Domain, i: int, j: int)
    requires
        dom.wf(),
        0 <= i < dom.size,
        0 <= j < dom.size,
        i != j,
    ensures
        fmul(pow_fr(dom.omega as int, i as nat), pow_fr(dom.omega_inv as int, j as nat)) != 1,
{
    let n = dom.size as int;
    let w = dom.omega as int;
    let winv = dom.omega_inv as int;
    let x = fmul(pow_fr(w, i as nat), pow_fr(winv, j as nat));
    if x == 1 {
        // multiply both sides by omega^j to cancel the inverse powers
        crate::field::lemma_fmul_assoc(pow_fr(w, i as nat), pow_fr(winv, j as nat), pow_fr(
            w,
            j as nat,
        ));
        crate::field::lemma_fmul_comm(pow_fr(winv, j as nat), pow_fr(w, j as nat));
        lemma_pow_inverse_pair(dom, j);
        crate::field::lemma_pow_fr_bounds(w, i as nat);
        crate::field::lemma_pow_fr_bounds(w, j as nat);
        lemma_small_mod(pow_fr(w, i as nat) as nat, MODULUS as nat);
        lemma_small_mod(pow_fr(w, j as nat) as nat, MODULUS as nat);
        // so omega^i == omega^j
        assert(fmul(x, pow_fr(w, j as nat)) == pow_fr(w, j as nat));
        assert(fmul(pow_fr(w, i as nat), fmul(pow_fr(winv, j as nat), pow_fr(w, j as nat)))
            == pow_fr(w, i as nat));
        assert(pow_fr(w, i as nat) == pow_fr(w, j as nat));
        let lo = if i < j {
            i
        } else {
            j
        };
        let hi = if i < j {
            j
        } else {
            i
        };
        crate::field::lemma_pow_fr_add(w, lo as nat, (hi - lo) as nat);
        // omega^hi == omega^lo * omega^(hi-lo) and omega^hi == omega^lo * 1
        lemma_pow_inverse_pair(dom, lo);
        assert(crate::field::has_inverse(pow_fr(w, lo as nat)));
        crate::field::lemma_pow_fr_bounds(w, (hi - lo) as nat);
        assert(fmul(pow_fr(w, lo as nat), 1) == pow_fr(w, lo as nat));
        crate::field::lemma_fmul_cancel(
            pow_fr(w, lo as nat),
            pow_fr(w, (hi - lo) as nat),
            1,
        );
        // a power with exponent strictly between zero and the domain size
        // cannot be one
        lemma_pow2_order(w, n, hi - lo);
        assert(false);
    }
}

proof fn lemma_mixed_power_vanishes(dom: Domain, i: int, j: int)
    requires
        dom.wf(),
        i >= 0,
        j >= 0,
    ensures
        pow_fr(
            fmul(pow_fr(dom.omega as int, i as nat), pow_fr(dom.omega_inv as int, j as nat)),
            dom.size as nat,
        ) == 1,
{
    let n = dom.size as int;
    let w = dom.omega as int;
    let winv = dom.omega_inv as int;
    // (omega^i * omegainv^j)^n == (omega^i)^n * (omegainv^j)^n
    crate::field::lemma_pow_fr_mul_base(pow_fr(w, i as nat), pow_fr(winv, j as nat), n as nat);
    // (omega^i)^n == (omega^n)^i == 1
    crate::field::lemma_pow_fr_pow(w, i as nat, n as nat);
    crate::field::lemma_pow_fr_pow(w, n as nat, i as nat);
    assert(i as nat * n as nat == n as nat * i as nat) by (nonlinear_arith);
    crate::field::lemma_pow_fr_one_base(i as nat);
    // omegainv^n == 1
    crate::field::lemma_pow_fr_mul_base(w, winv, n as nat);
    crate::field::lemma_pow_fr_one_base(n as nat);
    crate::field::lemma_pow_fr_bounds(winv, n as nat);
    lemma_small_mod(pow_fr(winv, n as nat) as nat, MODULUS as nat);
    assert(pow_fr(winv, n as nat) == 1);
    // (omegainv^j)^n == (omegainv^n)^j == 1
    crate::field::lemma_pow_fr_pow(winv, j as nat, n as nat);
    crate::field::lemma_pow_fr_pow(winv, n as nat, j as nat);
    assert(j as nat * n as nat == n as nat * j as nat) by (nonlinear_arith);
    crate::field::lemma_pow_fr_one_base(j as nat);
    assert(fmul(1, 1) == 1);
}

proof fn lemma_unit_round_trip_coeffs(dom: Domain, i: int, j: int)
    requires
        dom.wf(),
        0 <= i < dom.size,
        0 <= j < dom.size,
    ensures
        idft_at(dft_seq(indicator_seq(dom.size as int, i), dom), dom, j) == (
        if j == i {
            1int
        } else {
            0int
        }),
{
    let n = dom.size as int;
    let w = dom.omega as int;
    let winv = dom.omega_inv as int;
    let minv = dom.size_inv as int;
    let e = indicator_seq(n, i);
    // the transform of a unit vector is the power sequence of omega^i
    assert(dft_seq(e, dom) =~= powers_seq(pow_fr(w, i as nat), n)) by {
        assert forall|t: int| 0 <= t < n implies dft_seq(e, dom)[t] == powers_seq(
            pow_fr(w, i as nat),
            n,
        )[t] by {
            lemma_eval_indicator(n, i, pow_fr(w, t as nat));
            crate::field::lemma_pow_fr_pow(w, t as nat, i as nat);
            crate::field::lemma_pow_fr_pow(w, i as nat, t as nat);
            assert(t as nat * i as nat == i as nat * t as nat) by (nonlinear_arith);
            crate::field::lemma_pow_fr_bounds(pow_fr(w, t as nat), i as nat);
            crate::field::lemma_pow_fr_bounds(pow_fr(w, i as nat), t as nat);
            crate::field::lemma_pow_fr_bounds(w, (t * i) as nat);
        }
    }
    lemma_eval_powers(pow_fr(w, i as nat), n, pow_fr(winv, j as nat));
    let x = fmul(pow_fr(w, i as nat), pow_fr(winv, j as nat));
    if j == i {
        lemma_pow_inverse_pair(dom, i);
        lemma_geo_one(n);
        // minv * (n mod) == minv * n == 1
        let m = MODULUS as int;
        lemma_mul_mod_noop_right(minv, n, m);
        crate::field::lemma_fmul_comm(minv, n);
    } else {
        lemma_distinct_powers(dom, i, j);
        lemma_mixed_power_vanishes(dom, i, j);
        lemma_geo_zero(x, n);
        assert(fmul(minv, 0) == 0);
    }
}

proof fn lemma_round_trip_prefix(c: Seq<u64>, dom: Domain, k: int)
    requires
        all_fr(c),
        c.len() == dom.size,
        dom.wf(),
        0 <= k <= c.len(),
    ensures
        idft_seq(dft_seq(prefix_seq(c, k), dom), dom) =~= prefix_seq(c, k),
    decreases k,
{
    let n = c.len() as int;
    if k == 0 {
        assert(prefix_seq(c, 0) =~= zero_seq(n));
        lemma_transforms_of_zero(n, dom);
        assert(dft_seq(prefix_seq(c, 0), dom) =~= dft_seq(zero_seq(n), dom));
        assert(dft_seq(zero_seq(n), dom) == zero_seq(n));
    } else {
        lemma_round_trip_prefix(c, dom, k - 1);
        let wp = prefix_seq(c, k - 1);
        let cc = c[k - 1] as int;
        let e = indicator_seq(n, k - 1);
        lemma_prefix_decompose(c, k);
        lemma_dft_additive(wp, scale_seq(cc, e), dom);
        lemma_dft_scale(cc, e, dom);
        assert(dft_seq(fadd_seqs(wp, scale_seq(cc, e)), dom) =~= fadd_seqs(
            dft_seq(wp, dom),
            scale_seq(cc, dft_seq(e, dom)),
        ));
        lemma_idft_additive(dft_seq(wp, dom), scale_seq(cc, dft_seq(e, dom)), dom);
        lemma_idft_scale(cc, dft_seq(e, dom), dom);
        assert(idft_seq(dft_seq(e, dom), dom) =~= e) by {
            assert forall|j: int| 0 <= j < n implies idft_seq(dft_seq(e, dom), dom)[j] == e[
                j
            ] by {
                lemma_unit_round_trip_coeffs(dom, k - 1, j);
            }
        }
        assert(idft_seq(dft_seq(prefix_seq(c, k), dom), dom) =~= fadd_seqs(
            wp,
            scale_seq(cc, e),
        ));
        assert(fadd_seqs(wp, scale_seq(cc, e)) =~= prefix_seq(c, k));
    }
}

/// Interpolating the forward transform of a coefficient vector gives back
/// exactly that vector: the inverse transform inverts the forward
/// transform on every supported domain.
pub proof fn lemma_ifft_inverts_fft(c: Seq<u64>, dom: Domain)
    requires
        all_fr(c),
        c.len() == dom.size,
        dom.wf(),
    ensures
        idft_seq(dft_seq(c, dom), dom) == c,
{
    lemma_round_trip_prefix(c, dom, c.len() as int);
    assert(prefix_seq(c, c.len() as int) =~= c) by {
        assert forall|i: int| 0 <= i < c.len() implies prefix_seq(c, c.len() as int)[i] == c[
            i
        ] by {
        }
    }
    assert(idft_seq(dft_seq(c, dom), dom) =~= c);
}

proof fn lemma_unit_round_trip_values(dom: Domain, i: int, t: int)
    requires
        dom.wf(),
        0 <= i < dom.size,
        0 <= t < dom.size,
    ensures
        crate::polynomial::dft_at(idft_seq(indicator_seq(dom.size as int, i), dom), dom, t) == (
        if t == i {
            1int
        } else {
            0int
        }),
{
    let n = dom.size as int;
    let w = dom.omega as int;
    let winv = dom.omega_inv as int;
    let minv = dom.size_inv as int;
    let e = indicator_seq(n, i);
    // the interpolation of a unit vector is a scaled power sequence
    assert(idft_seq(e, dom) =~= scale_seq(minv, powers_seq(pow_fr(winv, i as nat), n))) by {
        assert forall|j: int| 0 <= j < n implies idft_seq(e, dom)[j] == scale_seq(
            minv,
            powers_seq(pow_fr(winv, i as nat), n),
        )[j] by {
            lemma_eval_indicator(n, i, pow_fr(winv, j as nat));
            crate::field::lemma_pow_fr_pow(winv, j as nat, i as nat);
            crate::field::lemma_pow_fr_pow(winv, i as nat, j as nat);
            assert(j as nat * i as nat == i as nat * j as nat) by (nonlinear_arith);
            crate::field::lemma_pow_fr_bounds(pow_fr(winv, j as nat), i as nat);
            crate::field::lemma_pow_fr_bounds(pow_fr(winv, i as nat), j as nat);
        }
    }
    let b = pow_fr(winv, i as nat);
    lemma_eval_scale(minv, powers_seq(b, n), pow_fr(w, t as nat));
    lemma_eval_powers(b, n, pow_fr(w, t as nat));
    let x = fmul(b, pow_fr(w, t as nat));
    crate::field::lemma_fmul_comm(b, pow_fr(w, t as nat));
    if t == i {
        lemma_pow_inverse_pair(dom, i);
        lemma_geo_one(n);
        let m = MODULUS as int;
        lemma_mul_mod_noop_right(minv, n, m);
        crate::field::lemma_fmul_comm(minv, n);
    } else {
        lemma_distinct_powers(dom, t, i);
        lemma_mixed_power_vanishes(dom, t, i);
        lemma_geo_zero(x, n);
        assert(fmul(minv, 0) == 0);
    }
}

proof fn lemma_round_trip_values_prefix(v: Seq<u64>, dom: Domain, k: int)
    requires
        all_fr(v),
        v.len() == dom.size,
        dom.wf(),
        0 <= k <= v.len(),
    ensures
        dft_seq(idft_seq(prefix_seq(v, k), dom), dom) =~= prefix_seq(v, k),
    decreases k,
{
    let n = v.len() as int;
    if k == 0 {
        assert(prefix_seq(v, 0) =~= zero_seq(n));
        lemma_transforms_of_zero(n, dom);
    } else {
        lemma_round_trip_values_prefix(v, dom, k - 1);
        let wp = prefix_seq(v, k - 1);
        let cc = v[k - 1] as int;
        let e = indicator_seq(n, k - 1);
        lemma_prefix_decompose(v, k);
        lemma_idft_additive(wp, scale_seq(cc, e), dom);
        lemma_idft_scale(cc, e, dom);
        lemma_dft_additive(idft_seq(wp, dom), scale_seq(cc, idft_seq(e, dom)), dom);
        lemma_dft_scale(cc, idft_seq(e, dom), dom);
        assert(dft_seq(idft_seq(e, dom), dom) =~= e) by {
            assert forall|t: int| 0 <= t < n implies dft_seq(idft_seq(e, dom), dom)[t] == e[
                t
            ] by {
                lemma_unit_round_trip_values(dom, k - 1, t);
            }
        }
        assert(dft_seq(idft_seq(prefix_seq(v, k), dom), dom) =~= fadd_seqs(
            wp,
            scale_seq(cc, e),
        ));
        assert(fadd_seqs(wp, scale_seq(cc, e)) =~= prefix_seq(v, k));
    }
}

/// Transforming the interpolation of a value vector gives back exactly
/// that vector: the forward transform inverts the inverse transform on
/// every supported domain.
pub proof fn lemma_fft_inverts_ifft(v: Seq<u64>, dom: Domain)
    requires
        all_fr(v),
        v.len() == dom.size,
        dom.wf(),
    ensures
        dft_seq(idft_seq(v, dom), dom) == v,
{
    lemma_round_trip_values_prefix(v, dom, v.len() as int);
    assert(prefix_seq(v, v.len() as int) =~= v);
    assert(dft_seq(idft_seq(v, dom), dom) =~= v);
}

proof fn lemma_eval_shifted(c: Seq<u64>, g: int, x: int)
    requires
        all_fr(c),
    ensures
        eval_poly(crate::prover::shifted_coeffs(c, g), x) == eval_poly(c, fmul(g, x)),
    decreases c.len(),
{
    let s = crate::prover::shifted_coeffs(c, g);
    if c.len() > 0 {
        let ct = c.subrange(1, c.len() as int);
        lemma_eval_shifted(ct, g, x);
        assert forall|t: int| 0 <= t < c.len() - 1 implies s.subrange(1, s.len() as int)[t]
            == scale_seq(g, crate::prover::shifted_coeffs(ct, g))[t] by {
            // c[t+1] * g^(t+1) == g * (c[t+1] * g^t)
            let p = pow_fr(g, t as nat);
            crate::field::lemma_pow_fr_bounds(g, (t + 1) as nat);
            crate::field::lemma_fmul_assoc(ct[t] as int, g, p);
            crate::field::lemma_fmul_comm(ct[t] as int, g);
            crate::field::lemma_fmul_assoc(g, ct[t] as int, p);
            let m = MODULUS as int;
            lemma_mul_mod_noop_right(g, (ct[t] as int) * p, m);
            assert(pow_fr(g, (t + 1) as nat) == fmul(g, p));
            lemma_mul_mod_noop_right(ct[t] as int, g * p, m);
        }
        assert(s.subrange(1, s.len() as int) =~= scale_seq(
            g,
            crate::prover::shifted_coeffs(ct, g),
        ));
        lemma_eval_scale(g, crate::prover::shifted_coeffs(ct, g), x);
        let et = eval_poly(ct, fmul(g, x));
        crate::field::lemma_fmul_assoc(x, g, et);
        crate::field::lemma_fmul_comm(x, g);
        crate::field::lemma_fmul_assoc(g, x, et);
        // the head coefficient is untouched: c0 * g^0 == c0
        assert(s[0] as int == fmul(c[0] as int, 1));
        lemma_small_mod(c[0] as nat, MODULUS as nat);
        let m = MODULUS as int;
        lemma_mul_mod_noop_right(fmul(g, x), et, m);
    }
}

/// Evaluating a coefficient polynomial on the generator coset of its
/// domain and then applying the inverse coset transform recovers every
/// coefficient exactly.
pub proof fn lemma_coset_lde_round_trip(c: Seq<u64>, dom: Domain)
    requires
        all_fr(c),
        c.len() == dom.size,
        dom.wf(),
    ensures
        forall|j: int|
            0 <= j < dom.size ==> crate::polynomial::icoset_idft_at(
                Seq::new(c.len(), |t: int| crate::polynomial::coset_eval_at(c, dom, t) as u64),
                dom,
                j,
            ) == c[j],
{
    let n = c.len() as int;
    let g = crate::field::MULTIPLICATIVE_GENERATOR as int;
    let ginv = crate::field::MULTIPLICATIVE_GENERATOR_INV as int;
    let shifted = crate::prover::shifted_coeffs(c, g);
    let ce = Seq::new(c.len(), |t: int| crate::polynomial::coset_eval_at(c, dom, t) as u64);
    assert(all_fr(shifted)) by {
        assert forall|t: int| 0 <= t < n implies crate::field::is_fr(#[trigger] shifted[t]) by {
            crate::field::lemma_pow_fr_bounds(g, t as nat);
        }
    }
    assert(ce =~= dft_seq(shifted, dom)) by {
        assert forall|t: int| 0 <= t < n implies ce[t] == dft_seq(shifted, dom)[t] by {
            lemma_eval_shifted(c, g, pow_fr(dom.omega as int, t as nat));
            lemma_eval_poly_is_fr(c, fmul(g, pow_fr(dom.omega as int, t as nat)));
        }
    }
    lemma_ifft_inverts_fft(shifted, dom);
    crate::field::lemma_generator_inverse();
    assert forall|j: int| 0 <= j < dom.size implies crate::polynomial::icoset_idft_at(
        ce,
        dom,
        j,
    ) == c[j] by {
        // the interpolation of the coset values is the shifted coefficient
        // vector, and the inverse generator powers undo the shift
        assert(idft_seq(ce, dom)[j] == shifted[j]);
        let iv = idft_at(ce, dom, j);
        assert(iv == shifted[j] as int);
        assert(shifted[j] as int == fmul(c[j] as int, pow_fr(g, j as nat)));
        let pj = pow_fr(g, j as nat);
        let qj = pow_fr(ginv, j as nat);
        crate::field::lemma_pow_fr_mul_base(ginv, g, j as nat);
        crate::field::lemma_fmul_comm(ginv, g);
        crate::field::lemma_pow_fr_one_base(j as nat);
        assert(fmul(qj, pj) == 1);
        crate::field::lemma_fmul_assoc(qj, c[j] as int, pj);
        crate::field::lemma_fmul_comm(qj, c[j] as int);
        crate::field::lemma_fmul_assoc(c[j] as int, qj, pj);
        lemma_small_mod(c[j] as nat, MODULUS as nat);
        assert(fmul(c[j] as int, 1) == c[j] as int);
    }
}

/// The quotient coefficients produced by synthetic division of `c` by
/// `(X - at)`.
pub open spec fn synth_div_seq(c: Seq<u64>, at: int) -> Seq<u64> {
    Seq::new((c.len() - 1) as nat, |i: int| crate::polynomial::synth_div_coeff(c, at, i) as u64)
}

proof fn lemma_synth_coeff_is_tail_eval(c: Seq<u64>, at: int, i: int)
    requires
        all_fr(c),
        c.len() >= 2,
        0 <= i <= c.len() - 2,
    ensures
        crate::polynomial::synth_div_coeff(c, at, i) == eval_poly(
            c.subrange(i + 1, c.len() as int),
            at,
        ),
    decreases c.len() - i,
{
    let n = c.len() as int;
    let tail = c.subrange(i + 1, n);
    if i >= n - 2 {
        assert(tail.len() == 1);
        assert(tail[0] == c[n - 1]);
        assert(eval_poly(tail.subrange(1, tail.len() as int), at) == 0) by {
            assert(tail.subrange(1, tail.len() as int).len() == 0);
        }
        assert(fmul(at, 0) == 0);
        lemma_small_mod(c[n - 1] as nat, MODULUS as nat);
        assert(eval_poly(tail, at) == fadd(c[n - 1] as int, fmul(at, 0)));
    } else {
        lemma_synth_coeff_is_tail_eval(c, at, i + 1);
        assert(tail[0] == c[i + 1]);
        assert(tail.subrange(1, tail.len() as int) =~= c.subrange(i + 2, n));
    }
}

/// Synthetic division is exact in the sense of the division identity: at
/// every point `x`, the dividend equals `(x - at)` times the quotient plus
/// the dividend's value at `at`. When the dividend vanishes at `at` — as
/// the opening aggregates are constructed to do — the discarded remainder
/// is zero and the quotient times `(X - at)` reproduces the dividend.
proof fn lemma_synth_div_algebra(c0: int, at: int, x: int, cat_t: int, eq_t: int)
    requires
        0 <= x < MODULUS,
        0 <= at < MODULUS,
        0 <= c0 < MODULUS,
        0 <= cat_t < MODULUS,
    ensures
        fadd(c0, fmul(x, fadd(fmul(fsub(x, at), eq_t), cat_t))) == fadd(
            fmul(fsub(x, at), fadd(cat_t, fmul(x, eq_t))),
            fadd(c0, fmul(at, cat_t)),
        ),
{
    let m = MODULUS as int;
    let d = fsub(x, at);
    vstd::arithmetic::div_mod::lemma_mod_bound(x - at, m);
    let xa = fmul(x, fmul(d, eq_t));
    let db = fmul(d, cat_t);
    let atb = fmul(at, cat_t);
    lemma_fmul_distrib(x, fmul(d, eq_t), cat_t);
    lemma_fmul_distrib(d, cat_t, fmul(x, eq_t));
    // d * (x * eq_t) == x * (d * eq_t)
    crate::field::lemma_fmul_assoc(d, x, eq_t);
    crate::field::lemma_fmul_comm(d, x);
    crate::field::lemma_fmul_assoc(x, d, eq_t);
    // x * cat_t splits along x == d + at
    assert(fadd(d, at) == x) by {
        lemma_add_mod_noop(x - at, at, m);
        lemma_small_mod(at as nat, MODULUS as nat);
        lemma_small_mod(x as nat, MODULUS as nat);
    }
    assert(fmul(x, cat_t) == fadd(db, atb)) by {
        crate::field::lemma_fmul_comm(fadd(d, at), cat_t);
        lemma_fmul_distrib(cat_t, d, at);
        crate::field::lemma_fmul_comm(cat_t, d);
        crate::field::lemma_fmul_comm(cat_t, at);
    }
    // both sides are the sum of the four terms c0, xa, db, atb
    lemma_fadd_assoc(c0, xa, fadd(db, atb));
    crate::field::lemma_fadd_rearrange(c0, xa, db, atb);
    crate::field::lemma_fadd_rearrange(db, xa, c0, atb);
    assert(fadd(c0, db) == fadd(db, c0));
}

/// Synthetic division is exact in the sense of the division identity: at
/// every point `x`, the dividend equals `(x - at)` times the quotient plus
/// the dividend's value at `at`. When the dividend vanishes at `at` — as
/// the opening aggregates are constructed to do — the discarded remainder
/// is zero and the quotient times `(X - at)` reproduces the dividend.
pub proof fn lemma_synth_division_identity(c: Seq<u64>, at: int, x: int)
    requires
        all_fr(c),
        c.len() >= 1,
        0 <= at < MODULUS,
        0 <= x < MODULUS,
    ensures
        eval_poly(c, x) == fadd(
            fmul(fsub(x, at), eval_poly(synth_div_seq(c, at), x)),
            eval_poly(c, at),
        ),
    decreases c.len(),
{
    let n = c.len() as int;
    let q = synth_div_seq(c, at);
    let d = fsub(x, at);
    let m = MODULUS as int;
    vstd::arithmetic::div_mod::lemma_mod_bound(x - at, m);
    if n == 1 {
        assert(q.len() == 0);
        assert(fmul(d, 0) == 0);
        lemma_small_mod(c[0] as nat, MODULUS as nat);
        assert(eval_poly(c.subrange(1, n), x) == 0) by {
            assert(c.subrange(1, n).len() == 0);
        }
        assert(eval_poly(c.subrange(1, n), at) == 0) by {
            assert(c.subrange(1, n).len() == 0);
        }
        assert(eval_poly(c, x) == fadd(c[0] as int, fmul(x, 0)));
        assert(eval_poly(c, at) == fadd(c[0] as int, fmul(at, 0)));
        assert(fadd(0, fadd(c[0] as int, 0)) == c[0] as int);
    } else {
        let ct = c.subrange(1, n);
        lemma_synth_division_identity(ct, at, x);
        let qt = synth_div_seq(ct, at);
        // the quotient's tail is the quotient of the dividend's tail
        assert forall|i: int| 0 <= i < n - 2 implies q.subrange(1, n - 1)[i] == qt[i] by {
            lemma_synth_coeff_is_tail_eval(c, at, i + 1);
            if ct.len() >= 2 {
                lemma_synth_coeff_is_tail_eval(ct, at, i);
            }
            assert(c.subrange(i + 2, n) =~= ct.subrange(i + 1, ct.len() as int));
        }
        assert(q.subrange(1, n - 1) =~= qt);
        // the quotient's head is the tail's value at the division point
        let cat_t = eval_poly(ct, at);
        assert(q[0] as int == cat_t) by {
            lemma_synth_coeff_is_tail_eval(c, at, 0);
            assert(c.subrange(1, n) =~= ct);
            lemma_eval_poly_is_fr(ct, at);
        }
        let eq_t = eval_poly(qt, x);
        assert(eval_poly(q, x) == fadd(cat_t, fmul(x, eq_t))) by {
            lemma_eval_poly_is_fr(ct, at);
            lemma_small_mod(cat_t as nat, MODULUS as nat);
        }
        assert(eval_poly(c, x) == fadd(c[0] as int, fmul(x, fadd(fmul(d, eq_t), cat_t))));
        assert(eval_poly(c, at) == fadd(c[0] as int, fmul(at, cat_t)));
        lemma_eval_poly_is_fr(ct, at);
        lemma_synth_div_algebra(c[0] as int, at, x, cat_t, eq_t);
    }
}

/// Commitments are deterministic: two commitments of the same scalar
/// vector against the same bases are identical.
pub proof fn lemma_commitment_deterministic(c1: u64, c2: u64, scalars: Seq<u64>, bases: Seq<u64>)
    requires
        c1 as int == inner_product(scalars, bases),
        c2 as int == inner_product(scalars, bases),
    ensures
        c1 == c2,
{
}

} // verus!
