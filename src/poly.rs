use vstd::arithmetic::power::{lemma_pow0, lemma_pow1, lemma_pow_adds, pow};
use vstd::arithmetic::div_mod::{lemma_add_mod_noop, lemma_mul_mod_noop_left, lemma_mul_mod_noop_right};
use vstd::arithmetic::mul::{
    lemma_mul_is_associative, lemma_mul_is_commutative, lemma_mul_is_distributive_add,
    lemma_mul_is_distributive_sub_other_way,
};
use vstd::prelude::*;
use crate::error::StarkError;
use crate::field::{
    fadd, fmul, fsub, is_unit, lemma_fmul_comm, lemma_inverse_unique, lemma_pow_succ, lemma_unit_mul,
    lemma_view_range, FieldElement, P,
};

verus! {

/// The fixed number of coefficients of every polynomial.
pub const CAPACITY: usize = 256;

/// The integers that a sequence of field elements stands for.
pub open spec fn ints(s: Seq<FieldElement>) -> Seq<int> {
    s.map_values(|f: FieldElement| f@)
}

/// `sum_i c[i] * z^i` over the integers.
pub open spec fn poly_eval(c: Seq<int>, z: int) -> int
    decreases c.len(),
{
    if c.len() == 0 {
        0
    } else {
        poly_eval(c.drop_last(), z) + c.last() * pow(z, (c.len() - 1) as nat)
    }
}

/// The coefficient `k` of the product of `a` and `b`, over the first `n` terms:
/// `sum_{i < n} a[i] * b[k - i]` reduced modulo `P`.
pub open spec fn convolution(a: Seq<int>, b: Seq<int>, k: int, n: int) -> int
    decreases n,
{
    if n <= 0 {
        0
    } else {
        fadd(convolution(a, b, k, n - 1), fmul(a[n - 1], b[k - (n - 1)]))
    }
}

/// A dense polynomial `sum_i coeffs[i] X^i` with `CAPACITY` coefficients.
pub struct Poly {
    pub coeffs: Vec<FieldElement>,
}

/// `CAPACITY` zeros.
fn zero_coeffs() -> (r: Vec<FieldElement>)
    ensures
        r.len() == CAPACITY,
        forall|i: int| 0 <= i < CAPACITY ==> #[trigger] r[i]@ == 0,
{
    let mut r: Vec<FieldElement> = Vec::new();
    let mut i: usize = 0;
    while i < CAPACITY
        invariant
            i <= CAPACITY,
            r.len() == i,
            forall|k: int| 0 <= k < i ==> #[trigger] r[k]@ == 0,
        decreases CAPACITY - i,
    {
        r.push(FieldElement::new(0));
        i = i + 1;
    }
    r
}

impl Poly {
    /// The polynomial has exactly `CAPACITY` coefficients.
    pub open spec fn wf(&self) -> bool {
        self.coeffs.len() == CAPACITY
    }

    /// The coefficients as integers.
    pub open spec fn spec_coeffs(&self) -> Seq<int> {
        ints(self.coeffs@)
    }

    /// The polynomial with the given coefficients.
    pub fn new(coeffs: [FieldElement; 256]) -> (r: Poly)
        ensures
            r.wf(),
            r.coeffs@ == coeffs@,
    {
        let mut v: Vec<FieldElement> = Vec::new();
        let mut i: usize = 0;
        while i < CAPACITY
            invariant
                i <= CAPACITY,
                v@ == coeffs@.subrange(0, i as int),
            decreases CAPACITY - i,
        {
            v.push(coeffs[i]);
            i = i + 1;
            proof {
                assert(v@ =~= coeffs@.subrange(0, i as int));
            }
        }
        proof {
            assert(v@ =~= coeffs@);
        }
        Poly { coeffs: v }
    }

    /// The zero polynomial.
    pub fn zero() -> (r: Poly)
        ensures
            r.wf(),
            forall|i: int| 0 <= i < CAPACITY ==> #[trigger] r.coeffs[i]@ == 0,
    {
        Poly { coeffs: zero_coeffs() }
    }

    /// The coefficient-wise sum.
    pub fn add(&self, other: Poly) -> (r: Poly)
        requires
            self.wf(),
            other.wf(),
        ensures
            r.wf(),
            forall|i: int| 0 <= i < CAPACITY ==> #[trigger] r.coeffs[i]@ == fadd(self.coeffs[i]@, other.coeffs[i]@),
    {
        let mut v: Vec<FieldElement> = Vec::new();
        let mut i: usize = 0;
        while i < CAPACITY
            invariant
                i <= CAPACITY,
                self.wf(),
                other.wf(),
                v.len() == i,
                forall|k: int| 0 <= k < i ==> #[trigger] v[k]@ == fadd(self.coeffs[k]@, other.coeffs[k]@),
            decreases CAPACITY - i,
        {
            v.push(self.coeffs[i].add(other.coeffs[i]));
            i = i + 1;
        }
        Poly { coeffs: v }
    }

    /// The coefficient-wise difference.
    pub fn sub(&self, other: Poly) -> (r: Poly)
        requires
            self.wf(),
            other.wf(),
        ensures
            r.wf(),
            forall|i: int| 0 <= i < CAPACITY ==> #[trigger] r.coeffs[i]@ == fsub(self.coeffs[i]@, other.coeffs[i]@),
    {
        let mut v: Vec<FieldElement> = Vec::new();
        let mut i: usize = 0;
        while i < CAPACITY
            invariant
                i <= CAPACITY,
                self.wf(),
                other.wf(),
                v.len() == i,
                forall|k: int| 0 <= k < i ==> #[trigger] v[k]@ == fsub(self.coeffs[k]@, other.coeffs[k]@),
            decreases CAPACITY - i,
        {
            v.push(self.coeffs[i].sub(other.coeffs[i]));
            i = i + 1;
        }
        Poly { coeffs: v }
    }

    /// Every coefficient times the scalar `other`.
    pub fn mul(&self, other: FieldElement) -> (r: Poly)
        requires
            self.wf(),
        ensures
            r.wf(),
            forall|i: int| 0 <= i < CAPACITY ==> #[trigger] r.coeffs[i]@ == fmul(self.coeffs[i]@, other@),
    {
        let mut v: Vec<FieldElement> = Vec::new();
        let mut i: usize = 0;
        while i < CAPACITY
            invariant
                i <= CAPACITY,
                self.wf(),
                v.len() == i,
                forall|k: int| 0 <= k < i ==> #[trigger] v[k]@ == fmul(self.coeffs[k]@, other@),
            decreases CAPACITY - i,
        {
            v.push(self.coeffs[i].mul(other));
            i = i + 1;
        }
        Poly { coeffs: v }
    }

    /// The product of two polynomials by schoolbook convolution; terms of degree `CAPACITY` and
    /// above are dropped.
    pub fn mul_poly(&self, other: Poly) -> (r: Poly)
        requires
            self.wf(),
            other.wf(),
        ensures
            r.wf(),
            forall|k: int| 0 <= k < CAPACITY ==> #[trigger] r.coeffs[k]@ == convolution(
                self.spec_coeffs(), other.spec_coeffs(), k, k + 1),
    {
        let mut v: Vec<FieldElement> = Vec::new();
        let mut k: usize = 0;
        while k < CAPACITY
            invariant
                k <= CAPACITY,
                self.wf(),
                other.wf(),
                v.len() == k,
                forall|t: int| 0 <= t < k ==> #[trigger] v[t]@ == convolution(
                    self.spec_coeffs(), other.spec_coeffs(), t, t + 1),
            decreases CAPACITY - k,
        {
            let mut acc = FieldElement::new(0);
            let mut i: usize = 0;
            while i <= k
                invariant
                    i <= k + 1,
                    k < CAPACITY,
                    self.wf(),
                    other.wf(),
                    acc@ == convolution(self.spec_coeffs(), other.spec_coeffs(), k as int, i as int),
                decreases k + 1 - i,
            {
                acc = acc.add(self.coeffs[i].mul(other.coeffs[k - i]));
                i = i + 1;
            }
            v.push(acc);
            k = k + 1;
        }
        Poly { coeffs: v }
    }

    /// The value of the polynomial at `x`.
    pub fn eval(&self, x: FieldElement) -> (r: FieldElement)
        requires
            self.wf(),
        ensures
            r@ == poly_eval(self.spec_coeffs(), x@) % (P as int),
    {
        eval_at(self.coeffs.as_slice(), x)
    }

    /// The interpolating polynomial through the points `(x[i], y[i])`, by Lagrange's formula:
    /// the sum over `i` of `y[i]` times `prod_{j != i} (X - x[j]) / (x[i] - x[j])`.
    pub fn lagrange_interpolation(x: &[FieldElement], y: &[FieldElement]) -> (r: Result<Poly, StarkError>)
        ensures
            x.len() != y.len() ==> r == Err::<Poly, StarkError>(StarkError::InvalidInput),
            x.len() == y.len() && x.len() > CAPACITY ==> r == Err::<Poly, StarkError>(StarkError::CapacityExceeded),
            x.len() == y.len() && x.len() <= CAPACITY && has_duplicate(ints(x@)) ==> r == Err::<Poly, StarkError>(
                StarkError::DuplicateAbscissa),
            x.len() == y.len() && x.len() <= CAPACITY && !has_duplicate(ints(x@)) ==> r is Ok,
            r matches Ok(p) ==> {
                &&& p.wf()
                &&& forall|j: int| 0 <= j < x.len() ==> #[trigger] (poly_eval(p.spec_coeffs(), x[j]@) % (P as int)) == y[j]@
                &&& forall|t: int| x.len() <= t < CAPACITY ==> #[trigger] p.coeffs[t]@ == 0
            },
    {
        let k = x.len();
        if k != y.len() {
            return Err(StarkError::InvalidInput);
        }
        if k > CAPACITY {
            return Err(StarkError::CapacityExceeded);
        }
        let ghost xs = ints(x@);
        let mut a: usize = 0;
        while a < k
            invariant
                a <= k,
                k == x.len(),
                k == y.len(),
                k <= CAPACITY,
                xs == ints(x@),
                forall|p: int, q: int| 0 <= q < p < a ==> #[trigger] xs[p] != #[trigger] xs[q],
            decreases k - a,
        {
            let mut b: usize = 0;
            while b < a
                invariant
                    b <= a < k,
                    k == x.len(),
                    k == y.len(),
                    k <= CAPACITY,
                    xs == ints(x@),
                    forall|p: int, q: int| 0 <= q < p < a ==> #[trigger] xs[p] != #[trigger] xs[q],
                    forall|q: int| 0 <= q < b ==> xs[a as int] != #[trigger] xs[q],
                decreases a - b,
            {
                if x[a].eq(&x[b]) {
                    proof {
                        assert(xs[a as int] == xs[b as int]);
                        assert(fsub(xs[a as int], xs[b as int]) == 0);
                        assert forall|w: int| #[trigger] fmul(0, w) != 1 by {}
                        assert(!differences_invertible(xs));
                    }
                    return Err(StarkError::DuplicateAbscissa);
                }
                b = b + 1;
            }
            a = a + 1;
        }
        proof {
            assert(!has_duplicate(xs)) by {
                assert forall|p: int, q: int| 0 <= p < xs.len() && 0 <= q < xs.len() && p != q implies #[trigger] xs[p] != #[trigger] xs[q] by {
                    if p < q {
                        assert(xs[q] != xs[p]);
                    }
                }
            }
        }
        let mut result = Poly::zero();
        let mut i: usize = 0;
        proof {
            assert forall|j: int| 0 <= j < k implies #[trigger] (poly_eval(result.spec_coeffs(), x[j]@) % (P as int)) == 0 by {
                lemma_eval_zero(result.spec_coeffs(), x[j]@);
            }
        }
        while i < k
            invariant
                i <= k,
                k == x.len(),
                k == y.len(),
                k <= CAPACITY,
                xs == ints(x@),
                !has_duplicate(xs),
                result.wf(),
                forall|j: int| 0 <= j < k ==> #[trigger] (poly_eval(result.spec_coeffs(), x[j]@) % (P as int)) == (if j < i { y[j]@ } else { 0 }),
                forall|t: int| k <= t < CAPACITY ==> #[trigger] result.coeffs[t]@ == 0,
                forall|p: int, q: int| 0 <= p < i && 0 <= q < k && p != q ==> is_unit(#[trigger] fsub(xs[p], xs[q])),
            decreases k - i,
        {
            let mut num = Poly::zero();
            num.coeffs.set(0, FieldElement::new(1));
            let mut den = FieldElement::new(1);
            let ghost mut deg: int = 0;
            let mut m: usize = 0;
            proof {
                assert forall|j: int| 0 <= j < k implies #[trigger] (poly_eval(num.spec_coeffs(), x[j]@) % (P as int)) == prod_diff(xs, i as int, 0, x[j]@) % (P as int) by {
                    lemma_eval_constant(num.spec_coeffs(), x[j]@);
                }
                assert(fmul(1, 1) == 1);
            }
            while m < k
                invariant
                    m <= k,
                    i < k,
                    k == x.len(),
                    k == y.len(),
                    k <= CAPACITY,
                    xs == ints(x@),
                    !has_duplicate(xs),
                    num.wf(),
                    deg == m - (if i < m { 1int } else { 0int }),
                    forall|t: int| deg < t < CAPACITY ==> #[trigger] num.coeffs[t]@ == 0,
                    forall|j: int| 0 <= j < k ==> #[trigger] (poly_eval(num.spec_coeffs(), x[j]@) % (P as int)) == prod_diff(xs, i as int, m as int, x[j]@) % (P as int),
                    den@ == prod_diff(xs, i as int, m as int, x[i as int]@) % (P as int),
                    is_unit(den@) <==> forall|q: int| 0 <= q < m && q != i ==> is_unit(#[trigger] fsub(xs[i as int], xs[q])),
                decreases k - m,
            {
                if m != i {
                    let ghost old_num = num.spec_coeffs();
                    let ghost old_den = den@;
                    let nn = mul_linear(&num, x[m]);
                    let diff = x[i].sub(x[m]);
                    let nd = den.mul(diff);
                    proof {
                        assert forall|j: int| 0 <= j < k implies #[trigger] (poly_eval(nn.spec_coeffs(), x[j]@) % (P as int)) == prod_diff(xs, i as int, m + 1, x[j]@) % (P as int) by {
                            let z = x[j]@;
                            lemma_eval_congruent(nn.spec_coeffs(), linear_times(old_num, x[m as int]@), z);
                            lemma_eval_linear(old_num, x[m as int]@, z);
                            lemma_mul_congruent(z - x[m as int]@, poly_eval(old_num, z), prod_diff(xs, i as int, m as int, z));
                        }
                        lemma_fmul_congruent(old_den, prod_diff(xs, i as int, m as int, x[i as int]@), xs[i as int] - xs[m as int]);
                        lemma_unit_mul(old_den, diff@);
                        assert forall|q: int| 0 <= q < m + 1 && q != i && is_unit(old_den) && is_unit(diff@) implies is_unit(#[trigger] fsub(xs[i as int], xs[q])) by {
                            if q == m {
                                assert(diff@ == fsub(xs[i as int], xs[q]));
                            }
                        }
                        deg = deg + 1;
                    }
                    num = nn;
                    den = nd;
                }
                m = m + 1;
            }
            let inv = match den.inv() {
                Ok(v) => v,
                Err(_) => {
                    proof {
                        let q = choose|q: int| 0 <= q < k && q != i && !is_unit(#[trigger] fsub(xs[i as int], xs[q]));
                        assert(!differences_invertible(xs));
                        assert forall|t: int| 0 <= t < xs.len() implies 0 <= #[trigger] xs[t] < P by {
                            lemma_view_range(x[t]);
                        }
                        lemma_distinct_differences_invertible(xs);
                    }
                    return Err(StarkError::NonInvertible);
                },
            };
            let scaled = num.mul(y[i]);
            let term = scaled.mul(inv);
            let ghost old_result = result.spec_coeffs();
            let next = result.add(term);
            proof {
                let c = y[i as int]@ * inv@;
                let exact = Seq::new(CAPACITY as nat, |t: int| c * num.spec_coeffs()[t]);
                assert forall|t: int| 0 <= t < CAPACITY implies #[trigger] (term.spec_coeffs()[t] % (P as int)) == exact[t] % (P as int) by {
                    lemma_scale_congruent(num.coeffs[t]@, y[i as int]@, inv@);
                }
                let sum = Seq::new(CAPACITY as nat, |t: int| old_result[t] + term.spec_coeffs()[t]);
                assert forall|t: int| 0 <= t < CAPACITY implies #[trigger] (next.spec_coeffs()[t] % (P as int)) == sum[t] % (P as int) by {
                    vstd::arithmetic::div_mod::lemma_mod_twice(sum[t], P as int);
                }
                assert forall|j: int| 0 <= j < k implies #[trigger] (poly_eval(next.spec_coeffs(), x[j]@) % (P as int)) == (if j < i + 1 { y[j]@ } else { 0 }) by {
                    let z = x[j]@;
                    lemma_eval_congruent(term.spec_coeffs(), exact, z);
                    lemma_eval_scale(num.spec_coeffs(), exact, c, z);
                    lemma_eval_congruent(next.spec_coeffs(), sum, z);
                    lemma_eval_add(old_result, term.spec_coeffs(), sum, z);
                    lemma_add_mod_noop(poly_eval(old_result, z), poly_eval(term.spec_coeffs(), z), P as int);
                    if j == i {
                        lemma_view_range(y[i as int]);
                        lemma_term_value(y[i as int]@, inv@, poly_eval(num.spec_coeffs(), z), den@);
                    } else {
                        lemma_prod_diff_zero(xs, i as int, k as int, j);
                        lemma_term_vanishes(c, poly_eval(num.spec_coeffs(), z));
                    }
                    lemma_view_range(y[j]);
                }
                assert(deg == k - 1);
                assert forall|t: int| k <= t < CAPACITY implies #[trigger] next.coeffs[t]@ == 0 by {
                    assert(num.coeffs[t]@ == 0);
                    lemma_fmul_zero(y[i as int]@);
                    lemma_fmul_zero(inv@);
                    assert(fadd(0, 0) == 0);
                    assert(scaled.coeffs[t]@ == fmul(0, y[i as int]@));
                    assert(scaled.coeffs[t]@ == 0);
                    assert(term.coeffs[t]@ == fmul(0, inv@));
                    assert(result.coeffs[t]@ == 0);
                    assert(next.coeffs[t]@ == fadd(0, 0));
                }
                assert forall|p: int, q: int| 0 <= p < i + 1 && 0 <= q < k && p != q implies is_unit(#[trigger] fsub(xs[p], xs[q])) by {
                    if p == i {
                        assert(0 <= q < m && q != i);
                    }
                }
            }
            result = next;
            i = i + 1;
        }
        Ok(result)
    }

    /// The values of the polynomial with coefficients `vals` at the powers `1, w, w^2, ...,
    /// w^(n-1)` of the root `w` of order `n = vals.len()`, by the radix-2 recursion.
    pub fn fft(vals: &[FieldElement], root_of_unity: &FieldElement) -> (r: Vec<FieldElement>)
        requires
            is_pow2(vals.len() as nat),
            half_turn(root_of_unity@, vals.len() as nat),
        ensures
            r.len() == vals.len(),
            forall|i: int| 0 <= i < vals.len() ==> #[trigger] r[i]@ == poly_eval(ints(vals@), pow(root_of_unity@, i as nat))
                % (P as int),
        decreases vals.len(),
    {
        let n = vals.len();
        if n == 1 {
            let mut o: Vec<FieldElement> = Vec::new();
            o.push(vals[0]);
            proof {
                lemma_pow0(root_of_unity@);
                let c = ints(vals@);
                assert(c.drop_last() =~= Seq::<int>::empty());
                assert(poly_eval(c.drop_last(), 1) == 0);
                lemma_pow0(1);
                lemma_view_range(vals[0]);
                assert(c[0] * 1 == c[0]);
            }
            return o;
        }
        let h: usize = n / 2;
        proof {
            assert(n % 2 == 0 && is_pow2(h as nat));
            if h > 1 {
                assert(h % 2 == 0);
            }
        }
        let mut evens: Vec<FieldElement> = Vec::new();
        let mut odds: Vec<FieldElement> = Vec::new();
        let mut j: usize = 0;
        while j < h
            invariant
                j <= h,
                h == n / 2,
                n == vals.len(),
                n % 2 == 0,
                evens@ == even_part(vals@).subrange(0, j as int),
                odds@ == odd_part(vals@).subrange(0, j as int),
            decreases h - j,
        {
            evens.push(vals[2 * j]);
            odds.push(vals[2 * j + 1]);
            j = j + 1;
            proof {
                assert(evens@ =~= even_part(vals@).subrange(0, j as int));
                assert(odds@ =~= odd_part(vals@).subrange(0, j as int));
            }
        }
        proof {
            assert(evens@ =~= even_part(vals@));
            assert(odds@ =~= odd_part(vals@));
            assert(ints(evens@) =~= even_part(ints(vals@)));
            assert(ints(odds@) =~= odd_part(ints(vals@)));
        }
        let w2 = root_of_unity.mul(*root_of_unity);
        proof {
            if h > 1 {
                lemma_square_pow(root_of_unity@, (h / 2) as nat);
                assert(2 * (h / 2) == h);
            }
        }
        let l = Self::fft(evens.as_slice(), &w2);
        let r = Self::fft(odds.as_slice(), &w2);
        let mut o: Vec<FieldElement> = Vec::new();
        let mut k: usize = 0;
        while k < n
            invariant
                k <= n,
                o.len() == k,
            decreases n - k,
        {
            o.push(FieldElement::new(0));
            k = k + 1;
        }
        let mut power = FieldElement::new(1);
        let ghost w = root_of_unity@;
        let ghost c = ints(vals@);
        proof {
            lemma_pow0(w);
            lemma_full_turn(w, h as nat);
        }
        let mut i: usize = 0;
        while i < h
            invariant
                i <= h,
                h == n / 2,
                n == vals.len(),
                n == 2 * h,
                o.len() == n,
                l.len() == h,
                r.len() == h,
                w == root_of_unity@,
                c == ints(vals@),
                w2@ == fmul(w, w),
                pow(w, h as nat) % (P as int) == P - 1,
                pow(w, n as nat) % (P as int) == 1,
                power@ == pow(w, i as nat) % (P as int),
                forall|t: int| 0 <= t < h ==> #[trigger] l[t]@ == poly_eval(ints(evens@), pow(w2@, t as nat)) % (P as int),
                forall|t: int| 0 <= t < h ==> #[trigger] r[t]@ == poly_eval(ints(odds@), pow(w2@, t as nat)) % (P as int),
                ints(evens@) == even_part(c),
                ints(odds@) == odd_part(c),
                forall|t: int| (0 <= t < i || h <= t < h + i) ==> #[trigger] o[t]@ == poly_eval(c, pow(w, t as nat)) % (P as int),
            decreases h - i,
        {
            let y_times_root = r[i].mul(power);
            let lo = l[i].add(y_times_root);
            let hi = l[i].sub(y_times_root);
            proof {
                lemma_butterfly(c, w, i as nat, h as nat, l[i as int]@, r[i as int]@, power@, w2@);
            }
            o.set(i, lo);
            o.set(i + h, hi);
            proof {
                lemma_pow_succ(w, i as nat);
            }
            power = power.mul(*root_of_unity);
            i = i + 1;
        }
        o
    }

    /// The same values as `fft`, each computed directly as a sum over all coefficients.
    pub fn naive_fft(vals: &[FieldElement], root_of_unity: &FieldElement) -> (r: Vec<FieldElement>)
        ensures
            r.len() == vals.len(),
            forall|i: int| 0 <= i < vals.len() ==> #[trigger] r[i]@ == poly_eval(ints(vals@), pow(root_of_unity@, i as nat))
                % (P as int),
    {
        let n = vals.len();
        let mut o: Vec<FieldElement> = Vec::new();
        let mut x = FieldElement::new(1);
        let mut i: usize = 0;
        proof {
            lemma_pow0(root_of_unity@);
        }
        while i < n
            invariant
                i <= n,
                n == vals.len(),
                o.len() == i,
                x@ == pow(root_of_unity@, i as nat) % (P as int),
                forall|t: int| 0 <= t < i ==> #[trigger] o[t]@ == poly_eval(ints(vals@), pow(root_of_unity@, t as nat)) % (P as int),
            decreases n - i,
        {
            let v = eval_at(vals, x);
            proof {
                lemma_view_range(x);
                lemma_eval_point_congruent(ints(vals@), x@, pow(root_of_unity@, i as nat));
                lemma_pow_succ(root_of_unity@, i as nat);
            }
            o.push(v);
            x = x.mul(*root_of_unity);
            i = i + 1;
        }
        o
    }

    /// The inverse transform: `fft` with the inverse root, every value divided by `n`. It turns
    /// the values at the powers of `w` back into coefficients.
    pub fn inv_fft(vals: &[FieldElement], root_of_unity: &FieldElement) -> (r: Vec<FieldElement>)
        requires
            is_pow2(vals.len() as nat),
            half_turn(root_of_unity@, vals.len() as nat),
        ensures
            r.len() == vals.len(),
            vals.len() == 1 ==> r[0]@ == vals[0]@,
            forall|w_inv: int, n_inv: int, i: int|
                0 <= w_inv < P && 0 <= n_inv < P && fmul(root_of_unity@, w_inv) == 1 && fmul(vals.len() as int, n_inv) == 1
                    && 0 <= i < vals.len() ==> #[trigger] fmul(n_inv, poly_eval(ints(vals@), pow(w_inv, i as nat)) % (P as int))
                    == r[i]@,
    {
        let n = vals.len();
        let inv_root = match root_of_unity.inv() {
            Ok(v) => v,
            Err(_) => {
                // only a single value can come with a root that has no inverse
                let mut o: Vec<FieldElement> = Vec::new();
                let mut i: usize = 0;
                while i < n
                    invariant
                        i <= n,
                        n == vals.len(),
                        o.len() == i,
                        forall|t: int| 0 <= t < i ==> #[trigger] o[t]@ == vals[t]@,
                    decreases n - i,
                {
                    o.push(vals[i]);
                    i = i + 1;
                }
                return o;
            },
        };
        proof {
            lemma_pow2_below(n as nat);
            lemma_pow2_unit(n as nat);
            if n > 1 {
                lemma_inverse_half_turn(root_of_unity@, inv_root@, (n / 2) as nat);
            }
            lemma_view_range(inv_root);
        }
        let inv_len = match FieldElement::new(n as u64).inv() {
            Ok(v) => v,
            Err(_) => {
                proof {
                    assert(false);
                }
                return Vec::new();
            },
        };
        let f = Self::fft(vals, &inv_root);
        let mut o: Vec<FieldElement> = Vec::new();
        let mut i: usize = 0;
        while i < n
            invariant
                i <= n,
                n == vals.len(),
                f.len() == n,
                o.len() == i,
                forall|t: int| 0 <= t < n ==> #[trigger] f[t]@ == poly_eval(ints(vals@), pow(inv_root@, t as nat)) % (P as int),
                forall|t: int| 0 <= t < i ==> #[trigger] o[t]@ == fmul(f[t]@, inv_len@),
            decreases n - i,
        {
            o.push(f[i].mul(inv_len));
            i = i + 1;
        }
        proof {
            assert forall|w_inv: int, n_inv: int, t: int|
                0 <= w_inv < P && 0 <= n_inv < P && fmul(root_of_unity@, w_inv) == 1 && fmul(n as int, n_inv) == 1
                    && 0 <= t < n implies #[trigger] fmul(n_inv, poly_eval(ints(vals@), pow(w_inv, t as nat)) % (P as int))
                    == o[t]@ by {
                lemma_view_range(inv_len);
                lemma_inverse_unique(root_of_unity@, w_inv, inv_root@);
                assert((n as int) % (P as int) == n as int);
                lemma_inverse_unique(n as int, n_inv, inv_len@);
                lemma_fmul_comm(n_inv, f[t]@);
            }
            if n == 1 {
                let c = ints(vals@);
                assert(c.drop_last() =~= Seq::<int>::empty());
                assert(poly_eval(c.drop_last(), pow(inv_root@, 0)) == 0);
                lemma_pow0(inv_root@);
                lemma_pow0(1);
                lemma_view_range(vals[0]);
                lemma_view_range(inv_len);
                assert(c[0] * 1 == c[0]);
                assert(fmul(1, inv_len@) == 1);
                crate::field::lemma_one_times(inv_len@);
                assert(inv_len@ == 1);
                assert(vals[0]@ * 1 == vals[0]@);
            }
        }
        o
    }
}

/// The value at `x` of the polynomial with coefficients `c`, term by term with a running power.
fn eval_at(c: &[FieldElement], x: FieldElement) -> (r: FieldElement)
    ensures
        r@ == poly_eval(ints(c@), x@) % (P as int),
{
    let mut result = FieldElement::new(0);
    let mut xp = FieldElement::new(1);
    let mut i: usize = 0;
    proof {
        lemma_pow0(x@);
        assert(ints(c@).subrange(0, 0) =~= Seq::<int>::empty());
    }
    while i < c.len()
        invariant
            i <= c.len(),
            xp@ == pow(x@, i as nat) % (P as int),
            result@ == poly_eval(ints(c@).subrange(0, i as int), x@) % (P as int),
        decreases c.len() - i,
    {
        let term = c[i].mul(xp);
        proof {
            let cs = ints(c@);
            let pre = cs.subrange(0, i + 1);
            assert(pre.drop_last() =~= cs.subrange(0, i as int));
            lemma_eval_step(poly_eval(cs.subrange(0, i as int), x@), cs[i as int], pow(x@, i as nat));
            lemma_pow_succ(x@, i as nat);
        }
        result = result.add(term);
        xp = xp.mul(x);
        i = i + 1;
    }
    proof {
        assert(ints(c@).subrange(0, c.len() as int) =~= ints(c@));
    }
    result
}

/// `n` is a power of two.
pub open spec fn is_pow2(n: nat) -> bool
    decreases n,
{
    if n == 1 {
        true
    } else if n < 2 || n % 2 == 1 {
        false
    } else {
        is_pow2(n / 2)
    }
}

/// `w` raised to half of `n` is `-1`, so that `w` has order exactly `n` when `n` is a power of
/// two; a length of one asks nothing.
pub open spec fn half_turn(w: int, n: nat) -> bool {
    n == 1 || pow(w, n / 2) % (P as int) == P - 1
}

/// The entries of `s` at even positions.
pub open spec fn even_part<T>(s: Seq<T>) -> Seq<T> {
    Seq::new(((s.len() + 1) / 2) as nat, |i: int| s[2 * i])
}

/// The entries of `s` at odd positions.
pub open spec fn odd_part<T>(s: Seq<T>) -> Seq<T> {
    Seq::new((s.len() / 2) as nat, |i: int| s[2 * i + 1])
}

/// `((w * w) mod P)^i` and `w^(2i)` agree modulo `P`.
proof fn lemma_square_pow(w: int, i: nat)
    ensures
        pow(fmul(w, w), i) % (P as int) == pow(w, 2 * i) % (P as int),
{
    vstd::arithmetic::power::lemma_pow_mod_noop(w * w, i, P as int);
    lemma_pow_adds(w, 1, 1);
    lemma_pow1(w);
    vstd::arithmetic::power::lemma_pow_multiplies(w, 2, i);
}

/// From `w^h == -1` follows `w^(2h) == 1`.
proof fn lemma_full_turn(w: int, h: nat)
    requires
        pow(w, h) % (P as int) == P - 1,
    ensures
        pow(w, 2 * h) % (P as int) == 1,
{
    let m = P as int;
    lemma_pow_adds(w, h, h);
    vstd::arithmetic::div_mod::lemma_mul_mod_noop(pow(w, h), pow(w, h), m);
    assert((P - 1) as int * (P - 1) as int == (P - 2) as int * m + 1) by (nonlinear_arith)
        requires
            m == P as int,
    ;
    vstd::arithmetic::div_mod::lemma_fundamental_div_mod_converse_mod(
        (P - 1) as int * (P - 1) as int,
        m,
        (P - 2) as int,
        1,
    );
}

/// Values at congruent points are congruent.
pub proof fn lemma_eval_point_congruent(c: Seq<int>, z1: int, z2: int)
    requires
        z1 % (P as int) == z2 % (P as int),
    ensures
        poly_eval(c, z1) % (P as int) == poly_eval(c, z2) % (P as int),
    decreases c.len(),
{
    if c.len() > 0 {
        let m = P as int;
        let k = (c.len() - 1) as nat;
        lemma_eval_point_congruent(c.drop_last(), z1, z2);
        vstd::arithmetic::power::lemma_pow_mod_noop(z1, k, m);
        vstd::arithmetic::power::lemma_pow_mod_noop(z2, k, m);
        lemma_mul_mod_noop_right(c.last(), pow(z1, k), m);
        lemma_mul_mod_noop_right(c.last(), pow(z2, k), m);
        lemma_add_mod_noop(poly_eval(c.drop_last(), z1), c.last() * pow(z1, k), m);
        lemma_add_mod_noop(poly_eval(c.drop_last(), z2), c.last() * pow(z2, k), m);
    }
}

/// A polynomial splits into its even and odd coefficients:
/// `c(z) == even(c)(z^2) + z * odd(c)(z^2)`.
pub proof fn lemma_eval_split(c: Seq<int>, z: int)
    ensures
        poly_eval(c, z) == poly_eval(even_part(c), z * z) + z * poly_eval(odd_part(c), z * z),
    decreases c.len(),
{
    if c.len() == 0 {
        assert(even_part(c).len() == 0);
        assert(odd_part(c).len() == 0);
        assert(z * 0 == 0);
    } else {
        let cd = c.drop_last();
        let l = (c.len() - 1) as int;
        lemma_eval_split(cd, z);
        let t = l / 2;
        let zz = z * z;
        let ev = poly_eval(even_part(cd), zz);
        let od = poly_eval(odd_part(cd), zz);
        lemma_pow_adds(z, 1, 1);
        lemma_pow1(z);
        vstd::arithmetic::power::lemma_pow_multiplies(z, 2, t as nat);
        assert(pow(zz, t as nat) == pow(z, (2 * t) as nat));
        if l % 2 == 0 {
            assert(even_part(c).drop_last() =~= even_part(cd));
            assert(odd_part(c) =~= odd_part(cd));
            assert(even_part(c).len() == t + 1);
            assert(poly_eval(even_part(c), zz) == ev + c[l] * pow(zz, t as nat));
            assert(2 * t == l);
        } else {
            assert(even_part(c) =~= even_part(cd));
            assert(odd_part(c).drop_last() =~= odd_part(cd));
            assert(odd_part(c).len() == t + 1);
            assert(poly_eval(odd_part(c), zz) == od + c[l] * pow(zz, t as nat));
            lemma_pow_adds(z, 1, (2 * t) as nat);
            assert(2 * t + 1 == l);
            assert(z * (od + c[l] * pow(z, (2 * t) as nat)) == z * od + c[l] * (z * pow(z, (2 * t) as nat)))
                by (nonlinear_arith);
        }
    }
}

/// The two outputs of one butterfly are the values at `w^i` and `w^(i+h)`.
proof fn lemma_butterfly(c: Seq<int>, w: int, i: nat, h: nat, lv: int, rv: int, pv: int, w2: int)
    requires
        c.len() == 2 * h,
        i < h,
        w2 == fmul(w, w),
        pow(w, h) % (P as int) == P - 1,
        pow(w, 2 * h) % (P as int) == 1,
        pv == pow(w, i) % (P as int),
        lv == poly_eval(even_part(c), pow(w2, i)) % (P as int),
        rv == poly_eval(odd_part(c), pow(w2, i)) % (P as int),
    ensures
        fadd(lv, fmul(rv, pv)) == poly_eval(c, pow(w, i)) % (P as int),
        fsub(lv, fmul(rv, pv)) == poly_eval(c, pow(w, i + h)) % (P as int),
{
    let m = P as int;
    let e = even_part(c);
    let o = odd_part(c);
    let z = pow(w, i);
    let z2 = pow(w, i + h);
    // both squares agree with w^(2i) modulo P
    lemma_square_pow(w, i);
    lemma_pow_adds(w, i, i);
    assert(z * z == pow(w, 2 * i));
    lemma_pow_adds(w, i + h, i + h);
    lemma_pow_adds(w, 2 * i, 2 * h);
    assert(z2 * z2 == pow(w, 2 * i) * pow(w, 2 * h));
    lemma_mul_mod_noop_right(pow(w, 2 * i), pow(w, 2 * h), m);
    assert((z2 * z2) % m == pow(w, 2 * i) % m);
    let ei = poly_eval(e, z * z);
    let oi = poly_eval(o, z * z);
    lemma_eval_point_congruent(e, pow(w2, i), z * z);
    lemma_eval_point_congruent(o, pow(w2, i), z * z);
    lemma_eval_point_congruent(e, z2 * z2, z * z);
    lemma_eval_point_congruent(o, z2 * z2, z * z);
    lemma_eval_split(c, z);
    lemma_eval_split(c, z2);
    // z2 == -z modulo P
    lemma_pow_adds(w, i, h);
    lemma_mul_mod_noop_right(z, pow(w, h), m);
    assert((z * (P - 1) as int) % m == (-z) % m) by {
        assert(z * (P - 1) as int == -z + z * (P as int)) by (nonlinear_arith);
        vstd::arithmetic::div_mod::lemma_mod_multiples_vanish(z, -z, m);
    }
    lemma_butterfly_algebra(lv, rv, pv, ei, oi, z, z2, poly_eval(o, z2 * z2), poly_eval(e, z2 * z2));
}

proof fn lemma_butterfly_algebra(lv: int, rv: int, pv: int, ei: int, oi: int, z: int, z2: int, oi2: int, ei2: int)
    requires
        lv == ei % (P as int),
        rv == oi % (P as int),
        pv == z % (P as int),
        z2 % (P as int) == (-z) % (P as int),
        oi2 % (P as int) == oi % (P as int),
        ei2 % (P as int) == ei % (P as int),
    ensures
        fadd(lv, fmul(rv, pv)) == (ei + z * oi) % (P as int),
        fsub(lv, fmul(rv, pv)) == (ei2 + z2 * oi2) % (P as int),
{
    let m = P as int;
    vstd::arithmetic::div_mod::lemma_mul_mod_noop(oi, z, m);
    lemma_mul_is_commutative(oi, z);
    lemma_add_mod_noop(ei, z * oi, m);
    // the second output
    vstd::arithmetic::div_mod::lemma_mul_mod_noop(z2, oi2, m);
    vstd::arithmetic::div_mod::lemma_mul_mod_noop(-z, oi, m);
    assert((-z) * oi == -(z * oi)) by (nonlinear_arith);
    lemma_add_mod_noop(ei2, z2 * oi2, m);
    vstd::arithmetic::div_mod::lemma_sub_mod_noop(ei, z * oi, m);
    lemma_add_mod_noop(ei, -(z * oi), m);
}

proof fn lemma_fmul_zero(x: int)
    ensures
        fmul(0, x) == 0,
{
    assert(0 * x == 0) by (nonlinear_arith);
}

proof fn lemma_pow2_below(n: nat)
    requires
        is_pow2(n),
        n <= usize::MAX,
    ensures
        1 <= n < P,
{
    lemma_pow2_positive(n);
    assert(is_pow2(0x8000_0000_0000_0000)) by {
        reveal_with_fuel(is_pow2, 65);
    }
    lemma_pow2_at_most(n, 0x8000_0000_0000_0000);
}

/// A power of two below twice the power of two `b` is at most `b`.
proof fn lemma_pow2_at_most(n: nat, b: nat)
    requires
        is_pow2(n),
        is_pow2(b),
        n < 2 * b,
    ensures
        n <= b,
    decreases n,
{
    lemma_pow2_positive(b);
    if n > 1 && b > 1 {
        lemma_pow2_at_most(n / 2, b / 2);
    }
}

proof fn lemma_pow2_positive(n: nat)
    requires
        is_pow2(n),
    ensures
        n >= 1,
{
}

/// A power of two below `P` is invertible: `2` has the inverse `(P + 1) / 2`.
proof fn lemma_pow2_unit(n: nat)
    requires
        is_pow2(n),
        n < P,
    ensures
        is_unit(n as int),
    decreases n,
{
    if n == 1 {
        assert(fmul(1, 1) == 1);
    } else {
        let h = n / 2;
        lemma_pow2_positive(h);
        lemma_pow2_unit(h);
        assert(fmul(2, ((P as int) + 1) / 2) == 1);
        lemma_unit_mul(2, h as int);
        assert(fmul(2, h as int) == n as int);
    }
}

/// The inverse of a root that turns half-way also turns half-way: from `w^h == -1` and
/// `w * v == 1` follows `v^h == -1`.
proof fn lemma_inverse_half_turn(w: int, v: int, h: nat)
    requires
        pow(w, h) % (P as int) == P - 1,
        fmul(w, v) == 1,
    ensures
        pow(v, h) % (P as int) == P - 1,
{
    let m = P as int;
    vstd::arithmetic::power::lemma_pow_distributes(w, v, h);
    vstd::arithmetic::power::lemma_pow_mod_noop(w * v, h, m);
    vstd::arithmetic::power::lemma1_pow(h);
    vstd::arithmetic::div_mod::lemma_mul_mod_noop(pow(w, h), pow(v, h), m);
    let b = pow(v, h) % m;
    assert(0 <= b < m);
    assert(((P - 1) as int * b) % m == 1);
    assert((P - 1) as int * b == -b + b * m) by (nonlinear_arith)
        requires
            m == P as int,
    ;
    vstd::arithmetic::div_mod::lemma_mod_multiples_vanish(b, -b, m);
    if b == 0 {
        assert((-b) % m == 0);
    } else {
        vstd::arithmetic::div_mod::lemma_fundamental_div_mod_converse_mod(-b, m, -1, m - b);
    }
}

/// The inverse of `a` modulo `P`.
pub open spec fn inverse(a: int) -> int {
    choose|b: int| 0 <= b < P && fmul(a, b) == 1
}

/// The first `m` terms of Lagrange's formula for the value at `z` of the polynomial through the
/// points `(xs[i], ys[i])`: `sum_i ys[i] * prod_{j != i} (z - xs[j]) / (xs[i] - xs[j])`.
pub open spec fn lagrange_partial(xs: Seq<int>, ys: Seq<int>, z: int, m: int) -> int
    decreases m,
{
    if m <= 0 {
        0
    } else {
        let i = m - 1;
        let k = xs.len() as int;
        fadd(
            lagrange_partial(xs, ys, z, m - 1),
            fmul(fmul(ys[i], prod_diff(xs, i, k, z) % (P as int)), inverse(prod_diff(xs, i, k, xs[i]) % (P as int))),
        )
    }
}

/// The value at `z` of the polynomial of degree below `xs.len()` through the points
/// `(xs[i], ys[i])`, by Lagrange's formula.
pub open spec fn lagrange_value(xs: Seq<int>, ys: Seq<int>, z: int) -> int {
    lagrange_partial(xs, ys, z, xs.len() as int)
}

/// The value at `z` of the interpolating polynomial through `(x[i], y[i])`, by Lagrange's
/// formula; `None` when two abscissae coincide.
pub fn lagrange_at(x: &[FieldElement], y: &[FieldElement], z: FieldElement) -> (r: Option<FieldElement>)
    requires
        x.len() == y.len(),
    ensures
        r is Some <==> !has_duplicate(ints(x@)),
        r matches Some(v) ==> v@ == lagrange_value(ints(x@), ints(y@), z@),
{
    let k = x.len();
    let ghost xs = ints(x@);
    let mut a: usize = 0;
    while a < k
        invariant
            a <= k,
            k == x.len(),
            xs == ints(x@),
            forall|p: int, q: int| 0 <= q < p < a ==> #[trigger] xs[p] != #[trigger] xs[q],
        decreases k - a,
    {
        let mut b: usize = 0;
        while b < a
            invariant
                b <= a < k,
                k == x.len(),
                xs == ints(x@),
                forall|p: int, q: int| 0 <= q < p < a ==> #[trigger] xs[p] != #[trigger] xs[q],
                forall|q: int| 0 <= q < b ==> xs[a as int] != #[trigger] xs[q],
            decreases a - b,
        {
            if x[a].eq(&x[b]) {
                proof {
                    assert(xs[a as int] == xs[b as int]);
                }
                return None;
            }
            b = b + 1;
        }
        a = a + 1;
    }
    proof {
        assert forall|p: int, q: int| 0 <= p < xs.len() && 0 <= q < xs.len() && p != q implies #[trigger] xs[p] != #[trigger] xs[q] by {
            if p < q {
                assert(xs[q] != xs[p]);
            }
        }
        assert forall|t: int| 0 <= t < xs.len() implies 0 <= #[trigger] xs[t] < P by {
            lemma_view_range(x[t]);
        }
        lemma_distinct_differences_invertible(xs);
    }
    let mut acc = FieldElement::new(0);
    let mut i: usize = 0;
    while i < k
        invariant
            i <= k,
            k == x.len(),
            k == y.len(),
            xs == ints(x@),
            differences_invertible(xs),
            acc@ == lagrange_partial(xs, ints(y@), z@, i as int),
        decreases k - i,
    {
        let mut num = FieldElement::new(1);
        let mut den = FieldElement::new(1);
        let mut m: usize = 0;
        proof {
            assert(fmul(1, 1) == 1);
        }
        while m < k
            invariant
                m <= k,
                i < k,
                k == x.len(),
                xs == ints(x@),
                num@ == prod_diff(xs, i as int, m as int, z@) % (P as int),
                den@ == prod_diff(xs, i as int, m as int, xs[i as int]) % (P as int),
                is_unit(den@) <==> forall|q: int| 0 <= q < m && q != i ==> is_unit(#[trigger] fsub(xs[i as int], xs[q])),
            decreases k - m,
        {
            if m != i {
                let ghost old_num = num@;
                let ghost old_den = den@;
                let fz = z.sub(x[m]);
                let diff = x[i].sub(x[m]);
                num = num.mul(fz);
                den = den.mul(diff);
                proof {
                    lemma_fmul_congruent(old_num, prod_diff(xs, i as int, m as int, z@), z@ - xs[m as int]);
                    lemma_fmul_congruent(old_den, prod_diff(xs, i as int, m as int, xs[i as int]), xs[i as int] - xs[m as int]);
                    lemma_unit_mul(old_den, diff@);
                    assert forall|q: int| 0 <= q < m + 1 && q != i && is_unit(old_den) && is_unit(diff@) implies is_unit(#[trigger] fsub(xs[i as int], xs[q])) by {
                        if q == m {
                            assert(diff@ == fsub(xs[i as int], xs[q]));
                        }
                    }
                }
            }
            m = m + 1;
        }
        let inv = match den.inv() {
            Ok(v) => v,
            Err(_) => {
                proof {
                    assert(false);
                }
                return None;
            },
        };
        let term = y[i].mul(num).mul(inv);
        proof {
            lemma_view_range(inv);
            let d = den@;
            assert(0 <= inv@ < P && fmul(d, inv@) == 1);
            let b = inverse(d);
            assert(0 <= b < P && fmul(d, b) == 1);
            lemma_inverse_unique(d, b, inv@);
            assert(ints(y@)[i as int] == y[i as int]@);
        }
        acc = acc.add(term);
        i = i + 1;
    }
    Some(acc)
}

/// `p * (X - c)`, computed in place of the product with a linear polynomial; the top
/// coefficient of `p` must be zero so that nothing is dropped.
fn mul_linear(p: &Poly, c: FieldElement) -> (r: Poly)
    requires
        p.wf(),
    ensures
        r.wf(),
        forall|t: int| 0 <= t < CAPACITY ==> #[trigger] r.coeffs[t]@ == linear_times(p.spec_coeffs(), c@)[t] % (P as int),
{
    let mut v: Vec<FieldElement> = Vec::new();
    let mut t: usize = 0;
    while t < CAPACITY
        invariant
            t <= CAPACITY,
            p.wf(),
            v.len() == t,
            forall|s: int| 0 <= s < t ==> #[trigger] v[s]@ == linear_times(p.spec_coeffs(), c@)[s] % (P as int),
        decreases CAPACITY - t,
    {
        let prev = if t == 0 {
            FieldElement::new(0)
        } else {
            p.coeffs[t - 1]
        };
        let e = prev.sub(c.mul(p.coeffs[t]));
        proof {
            vstd::arithmetic::div_mod::lemma_sub_mod_noop_right(prev@, c@ * p.coeffs[t as int]@, P as int);
        }
        v.push(e);
        t = t + 1;
    }
    Poly { coeffs: v }
}

/// Two entries of `xs` are equal.
pub open spec fn has_duplicate(xs: Seq<int>) -> bool {
    exists|p: int, q: int| 0 <= p < xs.len() && 0 <= q < xs.len() && p != q && #[trigger] xs[p] == #[trigger] xs[q]
}

/// Distinct field elements have invertible differences.
proof fn lemma_distinct_differences_invertible(xs: Seq<int>)
    requires
        forall|i: int| 0 <= i < xs.len() ==> 0 <= #[trigger] xs[i] < P,
        !has_duplicate(xs),
    ensures
        differences_invertible(xs),
{
    assert forall|p: int, q: int| 0 <= p < xs.len() && 0 <= q < xs.len() && p != q implies is_unit(#[trigger] fsub(xs[p], xs[q])) by {
        assert(xs[p] != xs[q]);
        let d = fsub(xs[p], xs[q]);
        if d == 0 {
            vstd::arithmetic::div_mod::lemma_fundamental_div_mod(xs[p] - xs[q], P as int);
            let t = (xs[p] - xs[q]) / (P as int);
            assert(xs[p] - xs[q] == (P as int) * t);
            assert(t == 0) by (nonlinear_arith)
                requires
                    xs[p] - xs[q] == (P as int) * t,
                    -(P as int) < xs[p] - xs[q] < P as int,
            ;
        }
        crate::field::lemma_unit_iff_nonzero(d);
    }
}

/// Every difference of two distinct entries of `xs` is invertible.
pub open spec fn differences_invertible(xs: Seq<int>) -> bool {
    forall|p: int, q: int| 0 <= p < xs.len() && 0 <= q < xs.len() && p != q ==> is_unit(#[trigger] fsub(xs[p], xs[q]))
}

/// `prod_{q < m, q != i} (z - xs[q])` over the integers.
pub open spec fn prod_diff(xs: Seq<int>, i: int, m: int, z: int) -> int
    decreases m,
{
    if m <= 0 {
        1
    } else if m - 1 == i {
        prod_diff(xs, i, m - 1, z)
    } else {
        (z - xs[m - 1]) * prod_diff(xs, i, m - 1, z)
    }
}

proof fn lemma_prod_diff_zero(xs: Seq<int>, i: int, m: int, j: int)
    requires
        0 <= j < m,
        j != i,
    ensures
        prod_diff(xs, i, m, xs[j]) == 0,
    decreases m,
{
    if m - 1 == j {
        assert((xs[j] - xs[j]) * prod_diff(xs, i, m - 1, xs[j]) == 0);
    } else {
        lemma_prod_diff_zero(xs, i, m - 1, j);
        if m - 1 != i {
            let z = xs[j];
            assert((z - xs[m - 1]) * 0 == 0) by (nonlinear_arith);
        }
    }
}

proof fn lemma_eval_zero(c: Seq<int>, z: int)
    requires
        forall|t: int| 0 <= t < c.len() ==> #[trigger] c[t] == 0,
    ensures
        poly_eval(c, z) == 0,
    decreases c.len(),
{
    if c.len() > 0 {
        assert forall|t: int| 0 <= t < c.drop_last().len() implies #[trigger] c.drop_last()[t] == 0 by {
            assert(c.drop_last()[t] == c[t]);
        }
        lemma_eval_zero(c.drop_last(), z);
        assert(c.last() == 0);
        assert(0 * pow(z, (c.len() - 1) as nat) == 0);
    }
}

proof fn lemma_eval_constant(c: Seq<int>, z: int)
    requires
        c.len() >= 1,
        c[0] == 1,
        forall|t: int| 1 <= t < c.len() ==> #[trigger] c[t] == 0,
    ensures
        poly_eval(c, z) == 1,
    decreases c.len(),
{
    if c.len() == 1 {
        assert(c.drop_last() =~= Seq::<int>::empty());
        assert(poly_eval(c.drop_last(), z) == 0);
        lemma_pow0(z);
    } else {
        assert forall|t: int| 1 <= t < c.drop_last().len() implies #[trigger] c.drop_last()[t] == 0 by {
            assert(c.drop_last()[t] == c[t]);
        }
        lemma_eval_constant(c.drop_last(), z);
        assert(c.last() == 0);
        assert(0 * pow(z, (c.len() - 1) as nat) == 0);
    }
}

proof fn lemma_mul_congruent(a: int, e: int, q: int)
    requires
        e % (P as int) == q % (P as int),
    ensures
        (a * e) % (P as int) == (a * q) % (P as int),
{
    lemma_mul_mod_noop_right(a, e, P as int);
    lemma_mul_mod_noop_right(a, q, P as int);
}

proof fn lemma_fmul_congruent(d: int, q: int, a: int)
    requires
        d == q % (P as int),
    ensures
        fmul(d, a % (P as int)) == (a * q) % (P as int),
{
    let m = P as int;
    lemma_mul_mod_noop_left(q, a % m, m);
    lemma_mul_mod_noop_right(q, a, m);
    lemma_mul_is_commutative(q, a);
}

proof fn lemma_scale_congruent(n: int, yv: int, iv: int)
    ensures
        fmul(fmul(n, yv), iv) == ((yv * iv) * n) % (P as int),
{
    let m = P as int;
    lemma_mul_mod_noop_left(n * yv, iv, m);
    assert((n * yv) * iv == (yv * iv) * n) by (nonlinear_arith);
}

proof fn lemma_term_value(yv: int, iv: int, e: int, d: int)
    requires
        0 <= yv < P,
        e % (P as int) == d,
        fmul(d, iv) == 1,
    ensures
        ((yv * iv) * e) % (P as int) == yv,
{
    let m = P as int;
    assert((yv * iv) * e == yv * (iv * e)) by (nonlinear_arith);
    lemma_mul_mod_noop_right(yv, iv * e, m);
    lemma_mul_mod_noop_right(iv, e, m);
    lemma_mul_is_commutative(iv, d);
    assert((iv * e) % m == 1);
    assert(yv * 1 == yv);
    vstd::arithmetic::div_mod::lemma_small_mod(yv as nat, m as nat);
    assert((yv * ((iv * e) % m)) % m == yv);
}

proof fn lemma_term_vanishes(c: int, e: int)
    requires
        e % (P as int) == 0,
    ensures
        (c * e) % (P as int) == 0,
{
    lemma_mul_mod_noop_right(c, e, P as int);
}

/// Adding one term modulo `P` agrees with adding it over the integers.
proof fn lemma_eval_step(acc: int, c: int, pw: int)
    ensures
        fadd(acc % (P as int), fmul(c, pw % (P as int))) == (acc + c * pw) % (P as int),
{
    let m = P as int;
    lemma_mul_mod_noop_right(c, pw, m);
    lemma_add_mod_noop(acc, c * pw, m);
    vstd::arithmetic::div_mod::lemma_mod_twice(c * pw, m);
    vstd::arithmetic::div_mod::lemma_mod_twice(acc, m);
}

/// Coefficients that agree modulo `P` give values that agree modulo `P`.
pub proof fn lemma_eval_congruent(a: Seq<int>, b: Seq<int>, z: int)
    requires
        a.len() == b.len(),
        forall|i: int| 0 <= i < a.len() ==> #[trigger] (a[i] % (P as int)) == b[i] % (P as int),
    ensures
        poly_eval(a, z) % (P as int) == poly_eval(b, z) % (P as int),
    decreases a.len(),
{
    if a.len() > 0 {
        let m = P as int;
        let n = a.len() - 1;
        assert forall|i: int| 0 <= i < a.drop_last().len() implies #[trigger] (a.drop_last()[i] % m) == b.drop_last()[i] % m by {
            assert(a.drop_last()[i] == a[i]);
            assert(b.drop_last()[i] == b[i]);
        }
        lemma_eval_congruent(a.drop_last(), b.drop_last(), z);
        let w = pow(z, n as nat);
        lemma_mul_mod_noop_left(a[n], w, m);
        lemma_mul_mod_noop_left(b[n], w, m);
        assert(a[n] % m == b[n] % m);
        lemma_add_mod_noop(poly_eval(a.drop_last(), z), a[n] * w, m);
        lemma_add_mod_noop(poly_eval(b.drop_last(), z), b[n] * w, m);
    }
}

/// The value of a coefficient-wise sum is the sum of the values.
pub proof fn lemma_eval_add(a: Seq<int>, b: Seq<int>, s: Seq<int>, z: int)
    requires
        a.len() == b.len(),
        s.len() == a.len(),
        forall|i: int| 0 <= i < a.len() ==> #[trigger] s[i] == a[i] + b[i],
    ensures
        poly_eval(s, z) == poly_eval(a, z) + poly_eval(b, z),
    decreases a.len(),
{
    if a.len() > 0 {
        let n = a.len() - 1;
        assert forall|i: int| 0 <= i < n implies #[trigger] s.drop_last()[i] == a.drop_last()[i] + b.drop_last()[i] by {
            assert(s.drop_last()[i] == s[i]);
            assert(a.drop_last()[i] == a[i]);
            assert(b.drop_last()[i] == b[i]);
        }
        lemma_eval_add(a.drop_last(), b.drop_last(), s.drop_last(), z);
        let w = pow(z, n as nat);
        vstd::arithmetic::mul::lemma_mul_is_distributive_add_other_way(w, a[n], b[n]);
    }
}

/// The value of a scaled polynomial is the scaled value.
pub proof fn lemma_eval_scale(a: Seq<int>, s: Seq<int>, c: int, z: int)
    requires
        s.len() == a.len(),
        forall|i: int| 0 <= i < a.len() ==> #[trigger] s[i] == c * a[i],
    ensures
        poly_eval(s, z) == c * poly_eval(a, z),
    decreases a.len(),
{
    if a.len() > 0 {
        let n = a.len() - 1;
        assert forall|i: int| 0 <= i < n implies #[trigger] s.drop_last()[i] == c * a.drop_last()[i] by {
            assert(s.drop_last()[i] == s[i]);
            assert(a.drop_last()[i] == a[i]);
        }
        lemma_eval_scale(a.drop_last(), s.drop_last(), c, z);
        let w = pow(z, n as nat);
        let pa = poly_eval(a.drop_last(), z);
        assert(c * pa + (c * a[n]) * w == c * (pa + a[n] * w)) by (nonlinear_arith);
    }
}

/// The coefficients of `p * (X - c)` over the integers, within the same number of slots.
pub open spec fn linear_times(p: Seq<int>, c: int) -> Seq<int> {
    Seq::new(p.len(), |t: int| (if t == 0 { 0 } else { p[t - 1] }) - c * p[t])
}

proof fn lemma_linear_step_algebra(z: int, c: int, pk1: int, pk: int, a: int, b: int, w: int, w1: int)
    requires
        w == z * w1,
        pk == pk1 + a * w1,
    ensures
        z * pk1 - c * pk + (a - c * b) * w == z * pk - c * (pk + b * w),
{
    lemma_mul_is_distributive_add(z, pk1, a * w1);
    lemma_mul_is_associative(z, a, w1);
    lemma_mul_is_commutative(z, a);
    lemma_mul_is_associative(a, z, w1);
    lemma_mul_is_distributive_sub_other_way(w, a, c * b);
    lemma_mul_is_distributive_add(c, pk, b * w);
    lemma_mul_is_associative(c, b, w);
}

proof fn lemma_eval_linear_prefix(p: Seq<int>, c: int, z: int, m: int)
    requires
        1 <= m <= p.len(),
    ensures
        poly_eval(linear_times(p, c).subrange(0, m), z) == z * poly_eval(p.subrange(0, m - 1), z) - c
            * poly_eval(p.subrange(0, m), z),
    decreases m,
{
    let e = linear_times(p, c);
    if m == 1 {
        assert(e.subrange(0, 1).drop_last() =~= Seq::<int>::empty());
        assert(p.subrange(0, 1).drop_last() =~= Seq::<int>::empty());
        assert(p.subrange(0, 0) =~= Seq::<int>::empty());
        lemma_pow0(z);
        assert(poly_eval(p.subrange(0, 1).drop_last(), z) == 0);
        assert(poly_eval(e.subrange(0, 1).drop_last(), z) == 0);
        assert(p.subrange(0, 1).last() == p[0]);
        assert(p[0] * 1 == p[0]);
        assert(poly_eval(p.subrange(0, 1), z) == p[0]);
        assert(e.subrange(0, 1).last() == e[0]);
        assert(e[0] * 1 == e[0]);
        assert(poly_eval(e.subrange(0, 1), z) == e[0]);
        assert(z * 0 == 0) by (nonlinear_arith);
    } else {
        lemma_eval_linear_prefix(p, c, z, m - 1);
        let k = m - 1;
        assert(e.subrange(0, m).drop_last() =~= e.subrange(0, k));
        assert(p.subrange(0, m).drop_last() =~= p.subrange(0, k));
        assert(p.subrange(0, k).drop_last() =~= p.subrange(0, k - 1));
        let pk1 = poly_eval(p.subrange(0, k - 1), z);
        let pk = poly_eval(p.subrange(0, k), z);
        let w1 = pow(z, (k - 1) as nat);
        let w = pow(z, k as nat);
        lemma_pow_adds(z, 1, (k - 1) as nat);
        lemma_pow1(z);
        assert(w == z * w1);
        assert(pk == pk1 + p[k - 1] * w1);
        assert(poly_eval(p.subrange(0, m), z) == pk + p[k] * w);
        assert(e[k] == p[k - 1] - c * p[k]);
        assert(poly_eval(e.subrange(0, m), z) == poly_eval(e.subrange(0, k), z) + e[k] * w);
        lemma_linear_step_algebra(z, c, pk1, pk, p[k - 1], p[k], w, w1);
    }
}

/// Multiplying by the linear factor `X - c` multiplies every value by `z - c`, as long as the
/// top slot was free.
pub proof fn lemma_eval_linear(p: Seq<int>, c: int, z: int)
    requires
        p.len() >= 1,
        p.last() == 0,
    ensures
        poly_eval(linear_times(p, c), z) == (z - c) * poly_eval(p, z),
{
    let n = p.len() as int;
    lemma_eval_linear_prefix(p, c, z, n);
    assert(linear_times(p, c).subrange(0, n) =~= linear_times(p, c));
    assert(p.subrange(0, n) =~= p);
    assert(p.drop_last() =~= p.subrange(0, n - 1));
    let pe = poly_eval(p, z);
    assert(pe == poly_eval(p.subrange(0, n - 1), z) + 0 * pow(z, (n - 1) as nat));
    assert(z * pe - c * pe == (z - c) * pe) by (nonlinear_arith);
}

/// `n` ones: the coefficients of `1 + X + ... + X^(n-1)`.
pub open spec fn ones(n: nat) -> Seq<int> {
    Seq::new(n, |i: int| 1int)
}

/// The values at `w^0, ..., w^(n-1)` of the polynomial with coefficients `v`, over the integers.
pub open spec fn dft_column(v: Seq<int>, w: int, n: nat) -> Seq<int> {
    Seq::new(n, |i: int| poly_eval(v, pow(w, i as nat)))
}

/// `sum_j v[j] * (1 + y_j + ... + y_j^(n-1))` with `y_j = w^j z`.
pub open spec fn weighted_sums(v: Seq<int>, w: int, z: int, n: nat) -> int
    decreases v.len(),
{
    if v.len() == 0 {
        0
    } else {
        weighted_sums(v.drop_last(), w, z, n) + v.last() * poly_eval(ones(n), pow(w, (v.len() - 1) as nat) * z)
    }
}

proof fn lemma_eval_termwise(s: Seq<int>, t: Seq<int>, z: int, y: int)
    requires
        s.len() == t.len(),
        forall|i: int| 0 <= i < s.len() ==> #[trigger] (s[i] * pow(z, i as nat)) == t[i] * pow(y, i as nat),
    ensures
        poly_eval(s, z) == poly_eval(t, y),
    decreases s.len(),
{
    if s.len() > 0 {
        assert forall|i: int| 0 <= i < s.drop_last().len() implies #[trigger] (s.drop_last()[i] * pow(z, i as nat)) == t.drop_last()[i] * pow(y, i as nat) by {
            assert(s.drop_last()[i] == s[i]);
            assert(t.drop_last()[i] == t[i]);
        }
        lemma_eval_termwise(s.drop_last(), t.drop_last(), z, y);
        assert(s.last() * pow(z, (s.len() - 1) as nat) == t.last() * pow(y, (s.len() - 1) as nat));
    }
}

proof fn lemma_ones_split(x: int, a: nat, b: nat)
    ensures
        poly_eval(ones(a + b), x) == poly_eval(ones(a), x) + pow(x, a) * poly_eval(ones(b), x),
    decreases b,
{
    if b == 0 {
        assert(ones(a + b) =~= ones(a));
        assert(poly_eval(ones(0), x) == 0);
        assert(pow(x, a) * 0 == 0) by (nonlinear_arith);
    } else {
        let b1 = (b - 1) as nat;
        lemma_ones_split(x, a, b1);
        assert(ones(a + b).drop_last() =~= ones(a + b1));
        assert(ones(b).drop_last() =~= ones(b1));
        lemma_pow_adds(x, a, b1);
        let pa = pow(x, a);
        let pb = poly_eval(ones(b1), x);
        assert(poly_eval(ones(a + b), x) == poly_eval(ones(a + b1), x) + 1 * pow(x, a + b1));
        assert(poly_eval(ones(b), x) == pb + 1 * pow(x, b1));
        assert(pa * pb + pa * pow(x, b1) == pa * (pb + 1 * pow(x, b1))) by (nonlinear_arith);
    }
}

proof fn lemma_ones_at_one(n: nat)
    ensures
        poly_eval(ones(n), 1) == n,
    decreases n,
{
    if n > 0 {
        lemma_ones_at_one((n - 1) as nat);
        assert(ones(n).drop_last() =~= ones((n - 1) as nat));
        vstd::arithmetic::power::lemma1_pow((n - 1) as nat);
    }
}

/// `(P - 1)^m` is `1` for even `m` and `-1` for odd `m`, modulo `P`.
proof fn lemma_minus_one_pow(m: nat)
    ensures
        pow((P - 1) as int, m) % (P as int) == (if m % 2 == 0 { 1 } else { P - 1 }),
    decreases m,
{
    let q = (P - 1) as int;
    let md = P as int;
    if m == 0 {
        lemma_pow0(q);
    } else {
        let m1 = (m - 1) as nat;
        lemma_minus_one_pow(m1);
        lemma_pow_adds(q, 1, m1);
        lemma_pow1(q);
        lemma_mul_mod_noop_right(q, pow(q, m1), md);
        if m1 % 2 == 0 {
            assert((q * 1) % md == P - 1);
        } else {
            assert(q * q == (P - 2) as int * md + 1) by (nonlinear_arith)
                requires q == P - 1, md == P as int;
            vstd::arithmetic::div_mod::lemma_fundamental_div_mod_converse_mod(q * q, md, (P - 2) as int, 1);
        }
    }
}

/// Over a root `r` that turns half-way at `n / 2`, the sum `1 + x + ... + x^(n-1)` vanishes for
/// every `x = r^m` with `0 < m < n`.
proof fn lemma_geometric_vanishes(r: int, n: nat, m: nat)
    requires
        is_pow2(n),
        n >= 2,
        pow(r, n / 2) % (P as int) == P - 1,
        0 < m < n,
    ensures
        poly_eval(ones(n), pow(r, m)) % (P as int) == 0,
    decreases n,
{
    let md = P as int;
    let h = n / 2;
    let x = pow(r, m);
    assert(n == h + h);
    lemma_ones_split(x, h, h);
    let g = poly_eval(ones(h), x);
    // x^h == r^(m h)
    vstd::arithmetic::power::lemma_pow_multiplies(r, m, h);
    vstd::arithmetic::power::lemma_pow_multiplies(r, h, m);
    lemma_mul_is_commutative(m as int, h as int);
    vstd::arithmetic::power::lemma_pow_mod_noop(pow(r, h), m, md);
    assert(poly_eval(ones(n), x) == g + pow(x, h) * g);
    assert(g + pow(x, h) * g == (1 + pow(x, h)) * g) by (nonlinear_arith);
    if m % 2 == 1 {
        lemma_minus_one_pow(m);
        assert(pow(x, h) % md == P - 1);
        vstd::arithmetic::div_mod::lemma_add_mod_noop(1, pow(x, h), md);
        assert((1 + pow(x, h)) % md == 0);
        lemma_mul_mod_noop_left(1 + pow(x, h), g, md);
        assert(0 * g == 0);
    } else {
        let m2 = m / 2;
        assert(n % 2 == 0 && is_pow2(h));
        assert(m >= 2);
        assert(h >= 2);
        assert(h % 2 == 0);
        // x == (r r)^(m / 2), and r r turns half-way at h / 2
        lemma_pow_adds(r, 1, 1);
        lemma_pow1(r);
        vstd::arithmetic::power::lemma_pow_multiplies(r, 2, m2);
        vstd::arithmetic::power::lemma_pow_multiplies(r, 2, h / 2);
        assert(2 * m2 == m);
        assert(2 * (h / 2) == h);
        lemma_geometric_vanishes(r * r, h, m2);
        lemma_mul_mod_noop_right(1 + pow(x, h), g, md);
        assert((1 + pow(x, h)) * 0 == 0) by (nonlinear_arith);
    }
}

/// Evaluating the column of values at `z` weighs each coefficient with a geometric sum.
proof fn lemma_column_eval(v: Seq<int>, w: int, z: int, n: nat)
    ensures
        poly_eval(dft_column(v, w, n), z) == weighted_sums(v, w, z, n),
    decreases v.len(),
{
    if v.len() == 0 {
        assert forall|i: int| 0 <= i < n implies #[trigger] dft_column(v, w, n)[i] == 0 by {
            assert(poly_eval(v, pow(w, i as nat)) == 0);
        }
        lemma_eval_zero(dft_column(v, w, n), z);
    } else {
        let vd = v.drop_last();
        let l = (v.len() - 1) as nat;
        let c = v.last();
        lemma_column_eval(vd, w, z, n);
        let e = Seq::new(n, |i: int| pow(pow(w, i as nat), l));
        let ce = Seq::new(n, |i: int| c * e[i]);
        assert forall|i: int| 0 <= i < n implies #[trigger] dft_column(v, w, n)[i] == dft_column(vd, w, n)[i] + ce[i] by {
            assert(poly_eval(v, pow(w, i as nat)) == poly_eval(vd, pow(w, i as nat)) + c * pow(pow(w, i as nat), l));
        }
        lemma_eval_add(dft_column(vd, w, n), ce, dft_column(v, w, n), z);
        lemma_eval_scale(e, ce, c, z);
        let y = pow(w, l) * z;
        assert forall|i: int| 0 <= i < n implies #[trigger] (e[i] * pow(z, i as nat)) == ones(n)[i] * pow(y, i as nat) by {
            vstd::arithmetic::power::lemma_pow_multiplies(w, i as nat, l);
            vstd::arithmetic::power::lemma_pow_multiplies(w, l, i as nat);
            lemma_mul_is_commutative(i as int, l as int);
            vstd::arithmetic::power::lemma_pow_distributes(pow(w, l), z, i as nat);
        }
        lemma_eval_termwise(e, ones(n), z, y);
    }
}

/// `w^j (w^-1)^k` is a power of `w` or of `w^-1` with the exponent `j - k` or `k - j`.
proof fn lemma_shifted_power(w: int, wi: int, j: nat, k: nat)
    requires
        fmul(w, wi) == 1,
    ensures
        j >= k ==> (pow(w, j) * pow(wi, k)) % (P as int) == pow(w, (j - k) as nat) % (P as int),
        j < k ==> (pow(w, j) * pow(wi, k)) % (P as int) == pow(wi, (k - j) as nat) % (P as int),
{
    let md = P as int;
    let t = if j >= k { k } else { j };
    // w^t (w^-1)^t == 1 modulo P
    vstd::arithmetic::power::lemma_pow_distributes(w, wi, t);
    vstd::arithmetic::power::lemma_pow_mod_noop(w * wi, t, md);
    vstd::arithmetic::power::lemma1_pow(t);
    let one_t = pow(w, t) * pow(wi, t);
    assert(one_t % md == 1);
    if j >= k {
        let d = (j - k) as nat;
        lemma_pow_adds(w, d, k);
        assert(pow(w, j) * pow(wi, k) == pow(w, d) * one_t) by (nonlinear_arith)
            requires pow(w, j) == pow(w, d) * pow(w, k), one_t == pow(w, k) * pow(wi, k), t == k;
        lemma_mul_mod_noop_right(pow(w, d), one_t, md);
    } else {
        let d = (k - j) as nat;
        lemma_pow_adds(wi, d, j);
        assert(pow(w, j) * pow(wi, k) == pow(wi, d) * one_t) by (nonlinear_arith)
            requires pow(wi, k) == pow(wi, d) * pow(wi, j), one_t == pow(w, j) * pow(wi, j), t == j;
        lemma_mul_mod_noop_right(pow(wi, d), one_t, md);
    }
}

proof fn lemma_weighted_sums_pick(v: Seq<int>, w: int, wi: int, n: nat, k: nat)
    requires
        is_pow2(n),
        half_turn(w, n),
        fmul(w, wi) == 1,
        v.len() <= n,
        k < n,
    ensures
        weighted_sums(v, w, pow(wi, k), n) % (P as int) == (if k < v.len() { v[k as int] * n } else { 0 }) % (P as int),
    decreases v.len(),
{
    let md = P as int;
    if v.len() > 0 {
        let l = (v.len() - 1) as nat;
        let vd = v.drop_last();
        lemma_weighted_sums_pick(vd, w, wi, n, k);
        let y = pow(w, l) * pow(wi, k);
        let g = poly_eval(ones(n), y);
        lemma_shifted_power(w, wi, l, k);
        if l == k {
            lemma_pow0(w);
            lemma_eval_point_congruent(ones(n), y, 1);
            lemma_ones_at_one(n);
        } else {
            if n >= 2 {
                if l > k {
                    lemma_eval_point_congruent(ones(n), y, pow(w, (l - k) as nat));
                    lemma_geometric_vanishes(w, n, (l - k) as nat);
                } else {
                    lemma_inverse_half_turn(w, wi, n / 2);
                    lemma_eval_point_congruent(ones(n), y, pow(wi, (k - l) as nat));
                    lemma_geometric_vanishes(wi, n, (k - l) as nat);
                }
            }
            lemma_term_vanishes(v.last(), g);
        }
        lemma_add_mod_noop(weighted_sums(vd, w, pow(wi, k), n), v.last() * g, md);
        if k < l {
            assert(vd[k as int] == v[k as int]);
        }
        if l == k {
            lemma_mul_congruent(v.last(), g, n as int);
            lemma_add_mod_noop(0, v.last() * n, md);
        }
    }
}

/// The inverse transform undoes the transform: for a root `w` of order `n`, the values that
/// `fft` gives for `vals` and that `inv_fft` turns back are `vals` again.
pub proof fn lemma_fft_round_trip(vals: Seq<FieldElement>, w: int, out: Seq<FieldElement>, back: Seq<FieldElement>)
    requires
        is_pow2(vals.len() as nat),
        vals.len() <= usize::MAX,
        half_turn(w, vals.len() as nat),
        0 <= w < P,
        out.len() == vals.len(),
        forall|i: int| 0 <= i < vals.len() ==> #[trigger] out[i]@ == poly_eval(ints(vals), pow(w, i as nat)) % (P as int),
        back.len() == vals.len(),
        vals.len() == 1 ==> back[0]@ == out[0]@,
        forall|w_inv: int, n_inv: int, i: int|
            0 <= w_inv < P && 0 <= n_inv < P && fmul(w, w_inv) == 1 && fmul(vals.len() as int, n_inv) == 1 && 0 <= i
                < vals.len() ==> #[trigger] fmul(n_inv, poly_eval(ints(out), pow(w_inv, i as nat)) % (P as int)) == back[i]@,
    ensures
        forall|k: int| 0 <= k < vals.len() ==> #[trigger] back[k]@ == vals[k]@,
{
    let n = vals.len() as nat;
    let md = P as int;
    let v = ints(vals);
    lemma_pow2_below(n);
    lemma_pow2_unit(n);
    if n == 1 {
        assert(back[0]@ == out[0]@);
        assert(v.drop_last() =~= Seq::<int>::empty());
        assert(poly_eval(v.drop_last(), pow(w, 0)) == 0);
        lemma_pow0(w);
        lemma_pow0(1);
        lemma_view_range(vals[0]);
        assert(v[0] * 1 == v[0]);
        return;
    }
    // the inverse of w is w^(n-1)
    let wi = pow(w, (n - 1) as nat) % md;
    assert(fmul(w, wi) == 1) by {
        lemma_mul_mod_noop_right(w, pow(w, (n - 1) as nat), md);
        lemma_pow_adds(w, 1, (n - 1) as nat);
        lemma_pow1(w);
        assert(n % 2 == 0);
        lemma_full_turn(w, n / 2);
        assert(2 * (n / 2) == n);
    }
    let ni = choose|b: int| #[trigger] fmul(n as int, b) == 1;
    let ni0 = ni % md;
    assert(fmul(n as int, ni0) == 1) by {
        lemma_mul_mod_noop_right(n as int, ni, md);
    }
    assert forall|k: int| 0 <= k < vals.len() implies #[trigger] back[k]@ == vals[k]@ by {
        let z = pow(wi, k as nat);
        assert(fmul(ni0, poly_eval(ints(out), z) % md) == back[k]@);
        let col = dft_column(v, w, n);
        assert forall|i: int| 0 <= i < n implies #[trigger] (ints(out)[i] % md) == col[i] % md by {
            vstd::arithmetic::div_mod::lemma_mod_twice(col[i], md);
        }
        lemma_eval_congruent(ints(out), col, z);
        lemma_column_eval(v, w, z, n);
        lemma_weighted_sums_pick(v, w, wi, n, k as nat);
        // back[k] == ni * (v[k] n) == v[k]
        let s = poly_eval(ints(out), z);
        assert(s % md == (v[k] * n) % md);
        lemma_mul_mod_noop_right(ni0, s, md);
        lemma_mul_mod_noop_right(ni0, v[k] * n, md);
        assert(ni0 * (v[k] * n) == v[k] * (n * ni0)) by (nonlinear_arith);
        lemma_mul_mod_noop_right(v[k], n * ni0, md);
        lemma_view_range(vals[k]);
        assert(v[k] == vals[k]@);
    }
}

} // verus!
