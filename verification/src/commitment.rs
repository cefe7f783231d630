//! The commitment component: multi-scalar multiplication against a
//! structured reference string, with the group of the commitment scheme
//! modeled by the scalar field itself. A commitment is the inner product of
//! the polynomial's scalars with the CRS bases, in Lagrange form for value
//! vectors and monomial form for coefficient vectors.

use vstd::prelude::*;

verus! {

use crate::field::{add_fr, all_fr, fadd, fmul, is_fr, mul_fr};
use crate::polynomial::Polynomial;

/// Inner product of a scalar vector with (a prefix of) a basis vector.
pub open spec fn inner_product(s: Seq<u64>, b: Seq<u64>) -> int
    decreases s.len(),
{
    if s.len() == 0 {
        0
    } else {
        fadd(
            fmul(s[0] as int, b[0] as int),
            inner_product(s.subrange(1, s.len() as int), b.subrange(1, b.len() as int)),
        )
    }
}

/// A CRS over the Lagrange basis of the evaluation domain.
pub struct CrsForLagrangeForm {
    pub bases: Vec<u64>,
}

/// A CRS over the monomial basis.
pub struct CrsForMonomialForm {
    pub bases: Vec<u64>,
}

impl CrsForLagrangeForm {
    pub open spec fn wf(&self) -> bool {
        all_fr(self.bases@)
    }
}

impl CrsForMonomialForm {
    pub open spec fn wf(&self) -> bool {
        all_fr(self.bases@)
    }
}

/// Executable inner product against a basis at least as long as the
/// scalar vector.
fn msm(s: &Vec<u64>, b: &Vec<u64>) -> (r: u64)
    requires
        all_fr(s@),
        all_fr(b@),
        s@.len() <= b@.len(),
    ensures
        is_fr(r),
        r as int == inner_product(s@, b@),
{
    let n = s.len();
    let mut r: u64 = 0;
    let mut i: usize = n;
    proof {
        assert(s@.subrange(n as int, n as int).len() == 0);
    }
    while i > 0
        invariant
            all_fr(s@),
            all_fr(b@),
            is_fr(r),
            i <= n,
            n == s@.len(),
            n <= b@.len(),
            r as int == inner_product(
                s@.subrange(i as int, n as int),
                b@.subrange(i as int, b@.len() as int),
            ),
        decreases i,
    {
        i = i - 1;
        r = add_fr(mul_fr(s[i], b[i]), r);
        proof {
            let st = s@.subrange(i as int, n as int);
            let bt = b@.subrange(i as int, b@.len() as int);
            assert(st[0] == s@[i as int]);
            assert(bt[0] == b@[i as int]);
            assert(st.subrange(1, st.len() as int) =~= s@.subrange(i + 1, n as int));
            assert(bt.subrange(1, bt.len() as int) =~= b@.subrange(i + 1, b@.len() as int));
        }
    }
    proof {
        assert(s@.subrange(0, n as int) =~= s@);
        assert(b@.subrange(0, b@.len() as int) =~= b@);
    }
    r
}

/// Commit to an evaluation vector against a Lagrange-form CRS.
pub fn commit_using_raw_values(values: &Vec<u64>, crs: &CrsForLagrangeForm) -> (r: u64)
    requires
        all_fr(values@),
        crs.wf(),
        values@.len() <= crs.bases@.len(),
    ensures
        is_fr(r),
        r as int == inner_product(values@, crs.bases@),
{
    msm(values, &crs.bases)
}

/// Commit to a coefficient-form polynomial against a monomial-form CRS.
pub fn commit_using_monomials(poly: &Polynomial, crs: &CrsForMonomialForm) -> (r: u64)
    requires
        poly.wf(),
        poly.is_coeffs(),
        crs.wf(),
        poly.elems@.len() <= crs.bases@.len(),
    ensures
        is_fr(r),
        r as int == inner_product(poly.elems@, crs.bases@),
{
    msm(&poly.elems, &crs.bases)
}

} // verus!
