use vstd::arithmetic::div_mod::{
    lemma_add_mod_noop, lemma_mul_mod_noop, lemma_mul_mod_noop_general, lemma_mul_mod_noop_left,
    lemma_mul_mod_noop_right, lemma_sub_mod_noop,
};
use vstd::arithmetic::mul::{lemma_mul_is_associative, lemma_mul_is_commutative, lemma_mul_is_distributive_add};
use vstd::arithmetic::power::{lemma_pow_adds, lemma_pow_multiplies, lemma_pow0, lemma_pow1, pow};
use vstd::prelude::*;
use crate::bytes::{be_u64, read_be_u64, u64_be_bytes, write_be_u64};
use crate::error::StarkError;

verus! {

/// The Goldilocks prime `2^64 - 2^32 + 1`.
pub const P: u64 = 0xffff_ffff_0000_0001;

/// A multiplicative generator of the field.
pub const GENERATOR: u64 = 7;

/// Addition modulo `P` on the canonical representatives.
pub open spec fn fadd(a: int, b: int) -> int {
    (a + b) % (P as int)
}

/// Subtraction modulo `P`.
pub open spec fn fsub(a: int, b: int) -> int {
    (a - b) % (P as int)
}

/// Multiplication modulo `P`.
pub open spec fn fmul(a: int, b: int) -> int {
    (a * b) % (P as int)
}

/// An element of the prime field `F_P`, held as its canonical representative in `[0, P)`.
#[derive(Copy, Clone, Debug)]
pub struct FieldElement {
    value: u64,
}

/// `a` has a multiplicative inverse modulo `P`.
pub open spec fn is_unit(a: int) -> bool {
    exists|b: int| #[trigger] fmul(a, b) == 1
}

impl View for FieldElement {
    type V = int;

    closed spec fn view(&self) -> int {
        self.value as int % (P as int)
    }
}

pub broadcast proof fn lemma_view_range(x: FieldElement)
    ensures
        0 <= #[trigger] x@ < P,
{
}

impl FieldElement {
    #[verifier::type_invariant]
    spec fn canonical(&self) -> bool {
        self.value < P
    }

    /// Reduces `value` modulo `P`.
    pub fn new(value: u64) -> (r: FieldElement)
        ensures
            r@ == value as int % (P as int),
    {
        FieldElement { value: value % P }
    }

    /// The canonical representative.
    pub fn value(&self) -> (r: u64)
        ensures
            r as int == self@,
            r < P,
    {
        proof { use_type_invariant(self); }
        self.value
    }

    /// `self + other` in the field.
    pub fn add(&self, other: FieldElement) -> (r: FieldElement)
        ensures
            r@ == fadd(self@, other@),
    {
        proof {
            use_type_invariant(self);
            use_type_invariant(&other);
        }
        let s: u128 = self.value as u128 + other.value as u128;
        FieldElement { value: (s % (P as u128)) as u64 }
    }

    /// `self - other` in the field.
    pub fn sub(&self, other: FieldElement) -> (r: FieldElement)
        ensures
            r@ == fsub(self@, other@),
    {
        proof {
            use_type_invariant(self);
            use_type_invariant(&other);
            assert((self@ + P - other@) % (P as int) == (self@ - other@) % (P as int)) by {
                vstd::arithmetic::div_mod::lemma_mod_add_multiples_vanish(self@ - other@, P as int);
            }
        }
        let s: u128 = self.value as u128 + P as u128 - other.value as u128;
        FieldElement { value: (s % (P as u128)) as u64 }
    }

    /// `-self` in the field.
    pub fn neg(&self) -> (r: FieldElement)
        ensures
            r@ == fsub(0, self@),
    {
        FieldElement::new(0).sub(*self)
    }

    /// `self * other` in the field, through a 128-bit product.
    pub fn mul(&self, other: FieldElement) -> (r: FieldElement)
        ensures
            r@ == fmul(self@, other@),
    {
        proof {
            use_type_invariant(self);
            use_type_invariant(&other);
            let a = self.value as int;
            let b = other.value as int;
            assert(a * b <= (P as int) * (P as int)) by (nonlinear_arith)
                requires
                    0 <= a <= P,
                    0 <= b <= P,
            ;
        }
        let prod: u128 = self.value as u128 * other.value as u128;
        FieldElement { value: (prod % (P as u128)) as u64 }
    }

    /// `self` raised to `exp` by square-and-multiply; `exp == 0` gives one.
    pub fn pow(&self, exp: u64) -> (r: FieldElement)
        ensures
            r@ == pow(self@, exp as nat) % (P as int),
    {
        let mut result = FieldElement::new(1);
        let mut base = *self;
        let mut e: u64 = exp;
        proof {
            lemma_view_range(*self);
            assert(result@ == 1);
            lemma_one_times(pow(self@, exp as nat));
        }
        while e > 0
            invariant
                fmul(result@, pow(base@, e as nat)) == pow(self@, exp as nat) % (P as int),
            decreases e,
        {
            let ghost e0 = e as nat;
            let ghost b0 = base@;
            let ghost r0 = result@;
            if e % 2 == 1 {
                result = result.mul(base);
            }
            base = base.mul(base);
            e = e / 2;
            proof {
                lemma_pow_step(r0, b0, e0);
                if e0 % 2 == 1 {
                    assert(result@ == fmul(r0, b0));
                } else {
                    assert(result@ == r0 % (P as int));
                }
            }
        }
        proof {
            lemma_pow0(base@);
        }
        result
    }

    /// The multiplicative inverse, by the extended Euclidean algorithm on `(self, P)`.
    /// The Bezout coefficient of `self` is carried as a field element, so it never overflows.
    pub fn inv(&self) -> (r: Result<FieldElement, StarkError>)
        ensures
            r is Ok <==> self@ != 0,
            r is Ok <==> is_unit(self@),
            r matches Ok(x) ==> fmul(self@, x@) == 1,
            r matches Err(e) ==> e == StarkError::NonInvertible,
    {
        proof {
            use_type_invariant(self);
        }
        let ghost a = self@;
        let mut r0: u64 = self.value;
        let mut r1: u64 = P;
        let mut s0 = FieldElement::new(1);
        let mut s1 = FieldElement::new(0);
        proof {
            assert(fmul(a, s0@) == r0 as int) by {
                assert(a * 1 == a);
            }
            assert(fmul(a, s1@) == 0);
            assert forall|d: int| d > 0 && #[trigger] ((r0 as int) % d) == 0 && (r1 as int) % d == 0 implies a % d == 0 && (P as int) % d == 0 by {}
        }
        while r0 > 1
            invariant
                r0 < r1 <= P,
                r1 > 1,
                a == self@,
                0 <= a < P,
                fmul(a, s0@) == r0 as int,
                fmul(a, s1@) == r1 as int % (P as int),
                forall|d: int| d > 0 && #[trigger] ((r0 as int) % d) == 0 && (r1 as int) % d == 0 ==> a % d == 0 && (P as int) % d == 0,
            decreases r0,
        {
            let q: u64 = r1 / r0;
            let t: u64 = r1 % r0;
            let qs = FieldElement::new(q).mul(s0);
            let ns = s1.sub(qs);
            proof {
                vstd::arithmetic::div_mod::lemma_fundamental_div_mod(r1 as int, r0 as int);
                lemma_mul_is_commutative(q as int, r0 as int);
                lemma_euclid_coefficient(a, s0@, s1@, q as int, r0 as int, r1 as int);
                assert forall|d: int| d > 0 && #[trigger] ((t as int) % d) == 0 && (r0 as int) % d == 0 implies a % d == 0 && (P as int) % d == 0 by {
                    lemma_divides_combination(t as int, r0 as int, q as int, d);
                    vstd::arithmetic::div_mod::lemma_fundamental_div_mod(r1 as int, r0 as int);
                    lemma_mul_is_commutative(q as int, r0 as int);
                    assert((r1 as int) % d == 0);
                }
            }
            r1 = r0;
            r0 = t;
            s1 = s0;
            s0 = ns;
        }
        if r0 == 1 {
            proof {
                if a == 0 {
                    assert(fmul(0, s0@) == 0);
                }
            }
            Ok(s0)
        } else {
            proof {
                assert(r1 as int % r1 as int == 0) by {
                    vstd::arithmetic::div_mod::lemma_mod_self_0(r1 as int);
                }
                assert(r0 == 0);
                vstd::arithmetic::div_mod::lemma_small_mod(0, r1 as nat);
                assert((r0 as int) % (r1 as int) == 0);
                lemma_no_inverse(a, r1 as int);
                if a != 0 {
                    crate::group::lemma_nonzero_is_unit(a);
                }
            }
            Err(StarkError::NonInvertible)
        }
    }

    /// `self / other`, that is `self` times the inverse of `other`.
    pub fn div(&self, other: FieldElement) -> (r: Result<FieldElement, StarkError>)
        ensures
            r is Ok <==> other@ != 0,
            r matches Ok(x) ==> fmul(x@, other@) == self@,
            r matches Err(e) ==> e == StarkError::NonInvertible,
    {
        match other.inv() {
            Ok(i) => {
                let x = self.mul(i);
                proof {
                    lemma_fmul_assoc(self@, i@, other@);
                    lemma_fmul_comm(i@, other@);
                    assert(fmul(self@, 1) == self@);
                }
                Ok(x)
            },
            Err(e) => Err(e),
        }
    }

    /// Montgomery batch inversion: one inversion of the product of all `values`, then a walk
    /// back through the prefix products. The inverses come back in the order of `values`.
    pub fn multi_inv(values: &Vec<FieldElement>) -> (r: Result<Vec<FieldElement>, StarkError>)
        ensures
            r is Ok <==> forall|i: int| 0 <= i < values.len() ==> #[trigger] values[i]@ != 0,
            r matches Ok(out) ==> out.len() == values.len() && forall|i: int|
                0 <= i < values.len() ==> fmul(#[trigger] values[i]@, out[i]@) == 1,
            r matches Err(e) ==> e == StarkError::NonInvertible,
    {
        let n = values.len();
        if n == 0 {
            return Ok(Vec::new());
        }
        let mut partials: Vec<FieldElement> = Vec::new();
        partials.push(values[0]);
        proof {
            lemma_product_single(values@);
        }
        let mut i: usize = 1;
        while i < n
            invariant
                1 <= i <= n,
                n == values.len(),
                partials.len() == i,
                forall|k: int| 0 <= k < i ==> #[trigger] partials[k]@ == product(values@.subrange(0, k + 1)),
            decreases n - i,
        {
            let p = partials[i - 1].mul(values[i]);
            proof {
                assert(values@.subrange(0, i + 1).drop_last() =~= values@.subrange(0, i as int));
            }
            partials.push(p);
            i = i + 1;
        }
        proof {
            assert(values@.subrange(0, n as int) =~= values@);
        }
        let total = partials[n - 1];
        let mut running = match total.inv() {
            Ok(x) => x,
            Err(e) => {
                proof {
                    lemma_product_unit(values@);
                    let k = choose|k: int| 0 <= k < values.len() && !is_unit(#[trigger] values[k]@);
                    lemma_view_range(values[k]);
                    lemma_unit_iff_nonzero(values[k]@);
                }
                return Err(e);
            },
        };
        proof {
            lemma_product_unit(values@);
            lemma_fmul_comm(running@, total@);
            assert forall|k: int| 0 <= k < values.len() implies #[trigger] values[k]@ != 0 by {
                lemma_view_range(values[k]);
                lemma_unit_iff_nonzero(values[k]@);
            }
        }
        let mut outputs: Vec<FieldElement> = Vec::new();
        let mut j: usize = 0;
        while j < n
            invariant
                j <= n,
                outputs.len() == j,
            decreases n - j,
        {
            outputs.push(running);
            j = j + 1;
        }
        let mut i: usize = n - 1;
        while i > 0
            invariant
                i < n,
                n == values.len(),
                partials.len() == n,
                outputs.len() == n,
                fmul(running@, partials[i as int]@) == 1,
                forall|k: int| 0 <= k < n ==> #[trigger] partials[k]@ == product(values@.subrange(0, k + 1)),
                forall|k: int| i < k < n ==> fmul(#[trigger] values[k]@, outputs[k]@) == 1,
            decreases i,
        {
            let out = running.mul(partials[i - 1]);
            let next = running.mul(values[i]);
            proof {
                let pi = partials[i as int]@;
                let pp = partials[i - 1]@;
                let v = values[i as int]@;
                assert(values@.subrange(0, i + 1).drop_last() =~= values@.subrange(0, i as int));
                assert(pi == fmul(pp, v));
                lemma_fmul_assoc(v, running@, pp);
                lemma_fmul_comm(v, running@);
                lemma_fmul_assoc(running@, v, pp);
                lemma_fmul_comm(v, pp);
                lemma_fmul_assoc(running@, pp, v);
            }
            outputs.set(i, out);
            running = next;
            i = i - 1;
        }
        proof {
            lemma_product_single(values@);
            lemma_fmul_comm(running@, values[0]@);
        }
        outputs.set(0, running);
        Ok(outputs)
    }

    /// The primitive `n`-th root of unity `GENERATOR^((P - 1) / n)`, for `n` dividing `P - 1`.
    pub fn nth_root_of_unity(n: u64) -> (r: FieldElement)
        requires
            n > 0,
        ensures
            r@ == root_of_unity_value(n as int),
    {
        nth_root_of_unity(n)
    }

    /// The 8-byte big-endian encoding of the canonical representative.
    pub fn to_bytes(&self) -> (r: Vec<u8>)
        ensures
            r@ == encode(self@),
    {
        proof {
            use_type_invariant(self);
        }
        write_be_u64(self.value)
    }

    /// The element whose representative, reduced modulo `P`, is the big-endian integer in
    /// `bytes[0..8]`.
    pub fn from_bytes(bytes: &Vec<u8>) -> (r: FieldElement)
        requires
            bytes.len() >= 8,
        ensures
            r@ == be_u64(bytes@, 0) % (P as int),
    {
        FieldElement::new(read_be_u64(bytes, 0))
    }

    /// The powers `[1, r, r^2, ..., r^(k-1)]` of `r`, where `k` is the multiplicative order of
    /// `r`; `None` when that order exceeds `limit`.
    pub fn get_power_cycle(r: FieldElement, limit: usize) -> (res: Option<Vec<FieldElement>>)
        ensures
            res matches Some(v) ==> {
                &&& 1 <= v.len() <= limit
                &&& forall|i: int| 0 <= i < v.len() ==> #[trigger] v[i]@ == pow(r@, i as nat) % (P as int)
                &&& pow(r@, v.len() as nat) % (P as int) == 1
                &&& forall|i: int| 0 < i < v.len() ==> #[trigger] pow(r@, i as nat) % (P as int) != 1
            },
            res is None ==> forall|k: int| 1 <= k <= limit ==> #[trigger] pow(r@, k as nat) % (P as int) != 1,
    {
        if limit == 0 {
            return None;
        }
        let one = FieldElement::new(1);
        let mut v: Vec<FieldElement> = Vec::new();
        v.push(one);
        let mut cur = r;
        proof {
            lemma_pow0(r@);
            lemma_pow1(r@);
            lemma_view_range(r);
        }
        while !cur.eq(&one)
            invariant
                1 <= v.len() <= limit,
                one@ == 1,
                cur@ == pow(r@, v.len() as nat) % (P as int),
                forall|i: int| 0 <= i < v.len() ==> #[trigger] v[i]@ == pow(r@, i as nat) % (P as int),
                forall|i: int| 0 < i < v.len() ==> #[trigger] pow(r@, i as nat) % (P as int) != 1,
            decreases limit - v.len(),
        {
            if v.len() == limit {
                proof {
                    assert forall|k: int| 1 <= k <= limit implies #[trigger] pow(r@, k as nat) % (P as int) != 1 by {
                        if k < v.len() {
                            assert(pow(r@, k as nat) % (P as int) != 1);
                        }
                    }
                }
                return None;
            }
            let next = cur.mul(r);
            proof {
                lemma_pow_succ(r@, v.len() as nat);
            }
            v.push(cur);
            cur = next;
        }
        Some(v)
    }
}

/// The primitive `n`-th root of unity `GENERATOR^((P - 1) / n)`, for `n` dividing `P - 1`.
pub fn nth_root_of_unity(n: u64) -> (r: FieldElement)
    requires
        n > 0,
    ensures
        r@ == root_of_unity_value(n as int),
{
    FieldElement::new(GENERATOR).pow((P - 1) / n)
}

/// `GENERATOR^((P - 1) / n)` reduced modulo `P`.
pub open spec fn root_of_unity_value(n: int) -> int {
    pow(GENERATOR as int, ((P - 1) as int / n) as nat) % (P as int)
}

/// The 8-byte big-endian encoding of a field element.
pub open spec fn encode(v: int) -> Seq<u8> {
    u64_be_bytes(v as u64)
}

impl PartialEq for FieldElement {
    fn eq(&self, other: &FieldElement) -> (r: bool) {
        proof {
            use_type_invariant(self);
            use_type_invariant(other);
        }
        self.value == other.value
    }
}

impl vstd::std_specs::cmp::PartialEqSpecImpl for FieldElement {
    open spec fn obeys_eq_spec() -> bool {
        true
    }

    open spec fn eq_spec(&self, other: &FieldElement) -> bool {
        self@ == other@
    }
}

/// `r^(k+1) mod P` is `r^k mod P` times `r`.
pub proof fn lemma_pow_succ(r: int, k: nat)
    ensures
        pow(r, k + 1) % (P as int) == fmul(pow(r, k) % (P as int), r),
{
    lemma_pow_adds(r, k, 1);
    lemma_pow1(r);
    lemma_mul_mod_noop_left(pow(r, k), r, P as int);
}

/// One step of square-and-multiply preserves the value that is being computed.
proof fn lemma_pow_step(r: int, b: int, e: nat)
    requires
        0 <= r < P,
        0 <= b < P,
        e > 0,
    ensures
        fmul(if e % 2 == 1 { fmul(r, b) } else { r }, pow(fmul(b, b), e / 2)) == fmul(r, pow(b, e)),
{
    let m = P as int;
    let h = e / 2;
    lemma_pow_multiplies(b, 2, h);
    assert(pow(b, 2) == b * b) by {
        lemma_pow1(b);
        lemma_pow_adds(b, 1, 1);
    }
    // pow(b * b, h) and pow(b * b % m, h) agree modulo m
    vstd::arithmetic::power::lemma_pow_mod_noop(b * b, h, m);
    lemma_mul_is_commutative(2, h as int);
    if e % 2 == 1 {
        lemma_pow_adds(b, 1, 2 * h);
        lemma_pow1(b);
        // r * b * pow(b, 2h) == r * pow(b, e)
        lemma_mul_is_associative(r, b, pow(b, 2 * h));
        lemma_mul_mod_noop_general(r * b, pow(fmul(b, b), h), m);
        lemma_mul_mod_noop_general(r * b, pow(b * b, h), m);
        lemma_mul_mod_noop_general(r, b * pow(b, 2 * h), m);
        assert(fmul(fmul(r, b), pow(fmul(b, b), h)) == (r * b * pow(b, 2 * h)) % m);
    } else {
        lemma_mul_mod_noop_general(r, pow(fmul(b, b), h), m);
        lemma_mul_mod_noop_general(r, pow(b * b, h), m);
        assert((r % m) == r);
    }
}

/// The step of the extended Euclidean algorithm keeps `a * s == r (mod P)`.
proof fn lemma_euclid_coefficient(a: int, s0: int, s1: int, q: int, r0: int, r1: int)
    requires
        0 < r0,
        0 <= q,
        0 <= s0 < P,
        0 <= s1 < P,
        0 <= r1,
        fmul(a, s0) == r0 % (P as int),
        fmul(a, s1) == r1 % (P as int),
    ensures
        fmul(a, fsub(s1, fmul(q % (P as int), s0))) == (r1 - q * r0) % (P as int),
{
    let m = P as int;
    let qs = fmul(q % m, s0);
    // a * (s1 - qs) == a * s1 - a * qs (mod m)
    lemma_mul_mod_noop_right(a, s1 - qs, m);
    assert(a * (s1 - qs) == a * s1 - a * qs) by (nonlinear_arith);
    lemma_sub_mod_noop(a * s1, a * qs, m);
    // a * qs == q * r0 (mod m)
    lemma_mul_mod_noop_right(a, (q % m) * s0, m);
    assert(a * ((q % m) * s0) == (q % m) * (a * s0)) by (nonlinear_arith);
    lemma_mul_mod_noop_general(q, a * s0, m);
    lemma_mul_mod_noop_general(q, r0, m);
    lemma_mul_mod_noop_general(q % m, a * s0, m);
    assert((a * qs) % m == (q * r0) % m);
    lemma_sub_mod_noop(r1, q * r0, m);
}

/// A common divisor of `t` and `r0` divides `q * r0 + t`.
proof fn lemma_divides_combination(t: int, r0: int, q: int, d: int)
    requires
        d > 0,
        t % d == 0,
        r0 % d == 0,
    ensures
        (q * r0 + t) % d == 0,
{
    vstd::arithmetic::div_mod::lemma_fundamental_div_mod(t, d);
    vstd::arithmetic::div_mod::lemma_fundamental_div_mod(r0, d);
    let k = q * (r0 / d) + t / d;
    assert(q * r0 + t == d * k) by (nonlinear_arith)
        requires
            t == d * (t / d),
            r0 == d * (r0 / d),
            k == q * (r0 / d) + t / d,
    ;
    vstd::arithmetic::div_mod::lemma_mod_multiples_basic(k, d);
    lemma_mul_is_commutative(d, k);
}

/// An element that shares a divisor `g > 1` with `P` has no inverse.
proof fn lemma_no_inverse(a: int, g: int)
    requires
        g > 1,
        a % g == 0,
        (P as int) % g == 0,
    ensures
        !is_unit(a),
{
    let m = P as int;
    assert forall|b: int| #[trigger] fmul(a, b) != 1 by {
        if fmul(a, b) == 1 {
            vstd::arithmetic::div_mod::lemma_fundamental_div_mod(a * b, m);
            vstd::arithmetic::div_mod::lemma_fundamental_div_mod(a, g);
            vstd::arithmetic::div_mod::lemma_fundamental_div_mod(m, g);
            let j = (a * b) / m;
            let k = a / g;
            let l = m / g;
            assert(g * (k * b - l * j) == 1) by (nonlinear_arith)
                requires
                    a * b == m * j + 1,
                    a == g * k,
                    m == g * l,
            ;
            assert(false) by (nonlinear_arith)
                requires
                    g > 1,
                    g * (k * b - l * j) == 1,
            ;
        }
    }
}

/// One times `x` is `x` reduced.
pub proof fn lemma_one_times(x: int)
    ensures
        fmul(1, x) == x % (P as int),
{
}

/// An inverse is unique: any two inverses of `a` are the same element.
pub proof fn lemma_inverse_unique(a: int, x: int, y: int)
    requires
        0 <= x < P,
        0 <= y < P,
        fmul(a, x) == 1,
        fmul(a, y) == 1,
    ensures
        x == y,
{
    // x == x (a y) == (x a) y == y
    lemma_fmul_assoc(x, a, y);
    lemma_fmul_comm(x, a);
    lemma_mul_mod_noop_right(x, a * y, P as int);
    lemma_mul_mod_noop_left(x * a, y, P as int);
}

/// Batch inversion agrees with single inversion: an entry that `multi_inv` returns for `a` and
/// the element that `inv` returns for `a` are the same element.
pub proof fn lemma_multi_inv_agrees_with_inv(a: FieldElement, batch_entry: FieldElement, single: FieldElement)
    requires
        fmul(a@, batch_entry@) == 1,
        fmul(a@, single@) == 1,
    ensures
        batch_entry@ == single@,
{
    lemma_view_range(batch_entry);
    lemma_view_range(single);
    lemma_inverse_unique(a@, batch_entry@, single@);
}

/// An element of the field is invertible exactly when it is not zero.
pub proof fn lemma_unit_iff_nonzero(a: int)
    requires
        0 <= a < P,
    ensures
        is_unit(a) <==> a != 0,
{
    if a != 0 {
        crate::group::lemma_nonzero_is_unit(a);
    } else {
        assert forall|b: int| #[trigger] fmul(0, b) != 1 by {}
    }
}

/// The product of a sequence of field elements.
pub open spec fn product(s: Seq<FieldElement>) -> int
    decreases s.len(),
{
    if s.len() == 0 {
        1
    } else {
        fmul(product(s.drop_last()), s.last()@)
    }
}

proof fn lemma_product_single(s: Seq<FieldElement>)
    requires
        s.len() >= 1,
    ensures
        product(s.subrange(0, 1)) == s[0]@,
{
    let s1 = s.subrange(0, 1);
    assert(s1.drop_last() =~= Seq::<FieldElement>::empty());
    assert(product(s1.drop_last()) == 1);
    lemma_one_times(s[0]@);
    lemma_view_range(s[0]);
}

/// A product is a unit exactly when both factors are.
pub proof fn lemma_unit_mul(a: int, b: int)
    ensures
        is_unit(fmul(a, b)) <==> is_unit(a) && is_unit(b),
{
    if is_unit(a) && is_unit(b) {
        let ia = choose|x: int| #[trigger] fmul(a, x) == 1;
        let ib = choose|x: int| #[trigger] fmul(b, x) == 1;
        // (a b)(ia ib) == (a ia)(b ib)
        lemma_fmul_assoc(fmul(a, b), ia, ib);
        lemma_fmul_assoc(a, b, ia);
        lemma_fmul_comm(b, ia);
        lemma_fmul_assoc(a, ia, b);
        assert(fmul(fmul(a, b), ia) == fmul(fmul(a, ia), b));
        assert(fmul(1, b) == b % (P as int));
        lemma_mul_mod_noop_left(b, ib, P as int);
        assert(fmul(fmul(a, b), fmul(ia, ib)) == 1);
    }
    if is_unit(fmul(a, b)) {
        let w = choose|x: int| #[trigger] fmul(fmul(a, b), x) == 1;
        lemma_fmul_assoc(a, b, w);
        assert(fmul(a, fmul(b, w)) == 1);
        lemma_fmul_comm(a, b);
        lemma_fmul_assoc(b, a, w);
        assert(fmul(b, fmul(a, w)) == 1);
    }
}

/// The product of a sequence is a unit exactly when each of its elements is.
pub proof fn lemma_product_unit(s: Seq<FieldElement>)
    ensures
        is_unit(product(s)) <==> forall|i: int| 0 <= i < s.len() ==> is_unit(#[trigger] s[i]@),
    decreases s.len(),
{
    if s.len() == 0 {
        assert(fmul(1, 1) == 1);
    } else {
        lemma_product_unit(s.drop_last());
        lemma_unit_mul(product(s.drop_last()), s.last()@);
        if forall|i: int| 0 <= i < s.len() ==> is_unit(#[trigger] s[i]@) {
            assert forall|i: int| 0 <= i < s.drop_last().len() implies is_unit(#[trigger] s.drop_last()[i]@) by {
                assert(s.drop_last()[i] == s[i]);
            }
            assert(is_unit(s[s.len() - 1]@));
        }
        if is_unit(product(s)) {
            assert forall|i: int| 0 <= i < s.len() implies is_unit(#[trigger] s[i]@) by {
                if i < s.len() - 1 {
                    assert(s.drop_last()[i] == s[i]);
                }
            }
        }
    }
}

/// Multiplication in the field is associative.
pub proof fn lemma_fmul_assoc(a: int, b: int, c: int)
    ensures
        fmul(fmul(a, b), c) == fmul(a, fmul(b, c)),
{
    let m = P as int;
    lemma_mul_mod_noop_left(a * b, c, m);
    lemma_mul_mod_noop_right(a, b * c, m);
    lemma_mul_is_associative(a, b, c);
}

/// Multiplication in the field is commutative.
pub proof fn lemma_fmul_comm(a: int, b: int)
    ensures
        fmul(a, b) == fmul(b, a),
{
    lemma_mul_is_commutative(a, b);
}

/// Field addition is associative: `(a + b) + c == a + (b + c)`.
pub proof fn lemma_add_associative(a: FieldElement, b: FieldElement, c: FieldElement)
    ensures
        fadd(fadd(a@, b@), c@) == fadd(a@, fadd(b@, c@)),
{
    let m = P as int;
    vstd::arithmetic::div_mod::lemma_add_mod_noop(a@ + b@, c@, m);
    vstd::arithmetic::div_mod::lemma_add_mod_noop(a@, b@ + c@, m);
    lemma_view_range(a);
    lemma_view_range(c);
    assert(c@ % m == c@);
    assert(a@ % m == a@);
    vstd::arithmetic::div_mod::lemma_add_mod_noop_right(a@ + b@, c@, m);
    assert((a@ + b@) % m + c@ == (a@ + b@) % m + c@ % m);
}

/// Field multiplication is commutative: `a * b == b * a`.
pub proof fn lemma_mul_commutative(a: FieldElement, b: FieldElement)
    ensures
        fmul(a@, b@) == fmul(b@, a@),
{
    lemma_fmul_comm(a@, b@);
}

/// Field multiplication distributes over addition: `a * (b + c) == a * b + a * c`.
pub proof fn lemma_mul_distributes(a: FieldElement, b: FieldElement, c: FieldElement)
    ensures
        fmul(a@, fadd(b@, c@)) == fadd(fmul(a@, b@), fmul(a@, c@)),
{
    let m = P as int;
    lemma_mul_mod_noop_right(a@, b@ + c@, m);
    lemma_mul_is_distributive_add(a@, b@, c@);
    lemma_add_mod_noop(a@ * b@, a@ * c@, m);
}

} // verus!
