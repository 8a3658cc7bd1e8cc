use goldilocks_fri::error::StarkError;
use goldilocks_fri::field::{nth_root_of_unity, FieldElement, P};

#[test]
fn test_generator() {
    let g = FieldElement::new(7);
    assert_eq!(g.pow(P - 1), FieldElement::new(1));
}

#[test]
fn field_test_add() {
    let a = FieldElement::new(1);
    let b = FieldElement::new(2);
    assert_eq!(a.add(b), FieldElement::new(3));
}

#[test]
fn test_add_overflow() {
    let a = FieldElement::new(P - 1);
    let b = FieldElement::new(2);
    assert_eq!(a.add(b), FieldElement::new(1));
}

#[test]
fn field_test_sub() {
    let a = FieldElement::new(3);
    let b = FieldElement::new(2);
    assert_eq!(a.sub(b), FieldElement::new(1));
}

#[test]
fn test_sub_overflow() {
    let a = FieldElement::new(1);
    let b = FieldElement::new(2);
    assert_eq!(a.sub(b), FieldElement::new(P - 1));
}

#[test]
fn test_inv() {
    let a = FieldElement::new(42);
    let inv = a.inv().unwrap();
    assert_eq!(a.mul(inv), FieldElement::new(1));
}

#[test]
fn test_inv_2() {
    let a = FieldElement::new(P - 2);
    let inv = a.inv().unwrap();
    assert_eq!(a.mul(inv), FieldElement::new(1));
}

#[test]
fn test_pow() {
    let a = FieldElement::new(2);
    let b = 3 as u64;
    assert_eq!(a.pow(b), FieldElement::new(8));
}

#[test]
fn test_pow_2() {
    let a = FieldElement::new(P - 3);
    let b = 3 as u64;
    assert_eq!(a.pow(b), a.mul(a).mul(a));
}

#[test]
fn test_multi_inv() {
    let a = FieldElement::new(42);
    let b = FieldElement::new(17);
    let c = FieldElement::new(13);
    let invs = FieldElement::multi_inv(&vec![a, b, c]).unwrap();
    assert_eq!(a.mul(invs[0]), FieldElement::new(1));
    assert_eq!(b.mul(invs[1]), FieldElement::new(1));
    assert_eq!(c.mul(invs[2]), FieldElement::new(1));
}

#[test]
fn test_nth_root_of_unity() {
    let base: u64 = 2;
    let nth = base.pow(32);
    let a = nth_root_of_unity(nth);
    assert_eq!(a.value(), 0x185629dcda58878c);
}

#[test]
fn test_sub_zero() {
    let a = FieldElement::new(P - 5);
    let b = FieldElement::new(0);
    assert_eq!(a.sub(b), FieldElement::new(P - 5));
}

#[test]
fn test_mul_overflow() {
    let a = FieldElement::new(P - 1);
    let b = FieldElement::new(P - 2);
    assert_eq!(a.mul(b), FieldElement::new(2));
}

#[test]
fn new_reduces_modulo_p() {
    assert_eq!(FieldElement::new(P).value(), 0);
    assert_eq!(FieldElement::new(P + 5).value(), 5);
    assert_eq!(FieldElement::new(u64::MAX).value(), u64::MAX - P);
}

#[test]
fn inverse_of_zero_is_refused() {
    assert_eq!(FieldElement::new(0).inv(), Err(StarkError::NonInvertible));
    assert_eq!(FieldElement::new(5).div(FieldElement::new(0)), Err(StarkError::NonInvertible));
}

#[test]
fn inverse_of_one_and_minus_one() {
    assert_eq!(FieldElement::new(1).inv().unwrap(), FieldElement::new(1));
    assert_eq!(FieldElement::new(P - 1).inv().unwrap(), FieldElement::new(P - 1));
}

#[test]
fn division_undoes_multiplication() {
    let a = FieldElement::new(123456789);
    let b = FieldElement::new(987654321);
    assert_eq!(a.mul(b).div(b).unwrap(), a);
}

#[test]
fn negation_adds_to_zero() {
    let a = FieldElement::new(77);
    assert_eq!(a.add(a.neg()), FieldElement::new(0));
    assert_eq!(FieldElement::new(0).neg(), FieldElement::new(0));
}

#[test]
fn multi_inv_of_empty_and_with_zero() {
    assert_eq!(FieldElement::multi_inv(&vec![]).unwrap().len(), 0);
    let v = vec![FieldElement::new(3), FieldElement::new(0), FieldElement::new(5)];
    assert_eq!(FieldElement::multi_inv(&v), Err(StarkError::NonInvertible));
}

#[test]
fn multi_inv_matches_single_inverses() {
    let v = vec![FieldElement::new(2), FieldElement::new(P - 1), FieldElement::new(99991)];
    let invs = FieldElement::multi_inv(&v).unwrap();
    for i in 0..v.len() {
        assert_eq!(invs[i], v[i].inv().unwrap());
    }
}

#[test]
fn field_laws_on_values() {
    let a = FieldElement::new(P - 7);
    let b = FieldElement::new(1 << 40);
    let c = FieldElement::new(P / 3);
    assert_eq!(a.add(b).add(c), a.add(b.add(c)));
    assert_eq!(a.mul(b), b.mul(a));
    assert_eq!(a.mul(b.add(c)), a.mul(b).add(a.mul(c)));
}

#[test]
fn fermat_on_values() {
    for v in [2u64, 3, 42, P - 1, 0x1234_5678_9abc] {
        assert_eq!(FieldElement::new(v).pow(P - 1), FieldElement::new(1));
    }
}

#[test]
fn pow_of_zero_exponent_is_one() {
    assert_eq!(FieldElement::new(0).pow(0), FieldElement::new(1));
    assert_eq!(FieldElement::new(12345).pow(0), FieldElement::new(1));
}

#[test]
fn root_of_unity_has_its_order() {
    let w = FieldElement::nth_root_of_unity(8);
    assert_eq!(w.pow(8), FieldElement::new(1));
    assert_eq!(w.pow(4), FieldElement::new(P - 1));
}

#[test]
fn power_cycle_lists_the_powers() {
    let w = nth_root_of_unity(4);
    let cycle = FieldElement::get_power_cycle(w, 10).unwrap();
    assert_eq!(cycle.len(), 4);
    assert_eq!(cycle[0], FieldElement::new(1));
    assert_eq!(cycle[1], w);
    assert_eq!(cycle[3], w.pow(3));
    assert!(FieldElement::get_power_cycle(w, 3).is_none());
    assert!(FieldElement::get_power_cycle(FieldElement::new(7), 100).is_none());
}

#[test]
fn bytes_are_big_endian() {
    let a = FieldElement::new(0x0102_0304_0506_0708);
    assert_eq!(a.to_bytes(), vec![1, 2, 3, 4, 5, 6, 7, 8]);
    assert_eq!(FieldElement::from_bytes(&a.to_bytes()), a);
    let big = vec![0xff; 8];
    assert_eq!(FieldElement::from_bytes(&big).value(), u64::MAX - P);
}
