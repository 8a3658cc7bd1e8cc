use vstd::prelude::*;
use crate::error::StarkError;
use crate::field::{fmul, FieldElement};
use crate::poly::is_pow2;

verus! {

/// `x` is a power of two.
pub fn is_a_power_of_2(x: u64) -> (r: bool)
    ensures
        r == is_pow2(x as nat),
{
    if x == 0 {
        return false;
    }
    let mut v: u64 = x;
    while v > 1
        invariant
            v >= 1,
            is_pow2(v as nat) == is_pow2(x as nat),
        decreases v,
    {
        if v % 2 == 1 {
            return false;
        }
        v = v / 2;
    }
    true
}

/// The trace of the running quotient `t[0] = 1`, `t[i + 1] = t[i] * a[i] / b[i]` over `steps`
/// steps; it fails where some `b[i]` has no inverse.
pub fn generate_computational_trace(a: &[FieldElement], b: &[FieldElement], steps: u64) -> (r: Result<
    Vec<FieldElement>,
    StarkError,
>)
    requires
        steps <= a.len(),
        steps <= b.len(),
    ensures
        r is Ok <==> forall|i: int| 0 <= i < steps ==> #[trigger] b[i]@ != 0,
        r matches Err(e) ==> e == StarkError::NonInvertible,
        r matches Ok(t) ==> {
            &&& t.len() == steps + 1
            &&& t[0]@ == 1
            &&& forall|i: int| 0 <= i < steps ==> #[trigger] fmul(t[i + 1]@, b[i]@) == fmul(t[i]@, a[i]@)
        },
{
    let n = steps as usize;
    let mut trace: Vec<FieldElement> = Vec::new();
    trace.push(FieldElement::new(1));
    let mut i: usize = 0;
    while i < n
        invariant
            i <= n,
            n == steps,
            n <= a.len(),
            n <= b.len(),
            trace.len() == i + 1,
            trace[0]@ == 1,
            forall|k: int| 0 <= k < i ==> #[trigger] b[k]@ != 0,
            forall|k: int| 0 <= k < i ==> #[trigger] fmul(trace[k + 1]@, b[k]@) == fmul(trace[k]@, a[k]@),
        decreases n - i,
    {
        let next = match trace[i].mul(a[i]).div(b[i]) {
            Ok(v) => v,
            Err(e) => {
                return Err(e);
            },
        };
        trace.push(next);
        i = i + 1;
    }
    Ok(trace)
}

} // verus!
