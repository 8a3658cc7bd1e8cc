use goldilocks_fri::error::StarkError;
use goldilocks_fri::field::{FieldElement, P};
use goldilocks_fri::poly::Poly;

#[test]
fn poly_test_add() {
    let a = Poly::new([FieldElement::new(1); 256]);
    let b = Poly::new([FieldElement::new(2); 256]);
    let c = a.add(b);
    assert_eq!(c.coeffs[0], FieldElement::new(3));
}

#[test]
fn poly_test_sub() {
    let a = Poly::new([FieldElement::new(1); 256]);
    let b = Poly::new([FieldElement::new(2); 256]);
    let c = a.sub(b);
    assert_eq!(c.coeffs[0], FieldElement::new(0xffffffff00000000));
}

#[test]
fn test_eval() {
    let mut a = Poly::new([FieldElement::new(0); 256]);
    a.coeffs[0] = FieldElement::new(2);
    a.coeffs[1] = FieldElement::new(1);
    assert_eq!(a.eval(FieldElement::new(1)), FieldElement::new(3));
}

#[test]
fn test_mul() {
    let a = Poly::new([FieldElement::new(1); 256]);
    let b = a.mul(FieldElement::new(2));
    assert_eq!(b.coeffs[0], FieldElement::new(2));
}

#[test]
fn test_mul_poly() {
    let mut coeffs = [FieldElement::new(0); 256];
    coeffs[2] = FieldElement::new(1);
    let a = Poly::new(coeffs);
    let b = Poly::new([FieldElement::new(2); 256]);
    let c = a.mul_poly(b);
    assert_eq!(c.coeffs[0], FieldElement::new(0));
    assert_eq!(c.coeffs[2], FieldElement::new(2));
}

#[test]
fn test_lagrange_interpolation() {
    let x = [FieldElement::new(0), FieldElement::new(1), FieldElement::new(2)];
    let y = [FieldElement::new(2), FieldElement::new(3), FieldElement::new(6)];
    let mut expected_coeffs = [FieldElement::new(0); 256];
    expected_coeffs[0] = FieldElement::new(2);
    expected_coeffs[1] = FieldElement::new(0);
    expected_coeffs[2] = FieldElement::new(1);
    let p = Poly::lagrange_interpolation(&x, &y).unwrap();
    assert_eq!(p.coeffs, expected_coeffs);
}

#[test]
fn test_fft() {
    let mut coeffs = [FieldElement::new(0); 8];
    coeffs[1] = FieldElement::new(1);
    let n = FieldElement::nth_root_of_unity(8);
    let fft = Poly::fft(&coeffs, &n);
    let mut arr = [FieldElement::new(0); 256];
    let len = fft.len();
    arr[..len].copy_from_slice(&fft);
    let expected_coeffs = [FieldElement::new(1), n, n.pow(2), n.pow(3), n.pow(4), n.pow(5), n.pow(6), n.pow(7)];
    assert_eq!(arr[..len], expected_coeffs);
}

#[test]
fn test_naive_fft() {
    let mut coeffs = [FieldElement::new(0); 8];
    coeffs[1] = FieldElement::new(1);
    let n = FieldElement::nth_root_of_unity(8);
    let fft = Poly::naive_fft(&coeffs, &n);
    let mut arr = [FieldElement::new(0); 256];
    let len = fft.len();
    arr[..len].copy_from_slice(&fft);
    let expected_coeffs = [FieldElement::new(1), n, n.pow(2), n.pow(3), n.pow(4), n.pow(5), n.pow(6), n.pow(7)];
    assert_eq!(arr[..len], expected_coeffs);
}

#[test]
fn test_fft_2() {
    let mut coeffs = [FieldElement::new(0); 8];
    coeffs[1] = FieldElement::new(1);
    coeffs[0] = FieldElement::new(P - 1);
    let n = FieldElement::nth_root_of_unity(8);
    let fft = Poly::fft(&coeffs, &n);
    let mut arr = [FieldElement::new(0); 256];
    let len = fft.len();
    arr[..len].copy_from_slice(&fft);
    let one = FieldElement::new(1);
    let expected_coeffs = [
        FieldElement::new(0),
        n.sub(one),
        n.pow(2).sub(one),
        n.pow(3).sub(one),
        n.pow(4).sub(one),
        n.pow(5).sub(one),
        n.pow(6).sub(one),
        n.pow(7).sub(one),
    ];
    assert_eq!(arr[..len], expected_coeffs);
}

#[test]
fn test_naive_and_fft() {
    let mut coeffs = [FieldElement::new(0); 4];
    coeffs[2] = FieldElement::new(5);
    let n = FieldElement::nth_root_of_unity(4);
    let fft = Poly::fft(&coeffs, &n);
    let mut arr = [FieldElement::new(0); 256];
    let len = fft.len();
    arr[..len].copy_from_slice(&fft);
    let fft2 = Poly::naive_fft(&coeffs, &n);
    let mut arr2 = [FieldElement::new(0); 256];
    let len2 = fft2.len();
    arr2[..len2].copy_from_slice(&fft2);
    assert_eq!(arr[..len], arr2[..len2]);
}

#[test]
fn test_inv_fft() {
    let n = FieldElement::nth_root_of_unity(8);
    let coeffs = [FieldElement::new(1), n, n.pow(2), n.pow(3), n.pow(4), n.pow(5), n.pow(6), n.pow(7)];
    let inv_fft = Poly::inv_fft(&coeffs, &n);
    let mut arr = [FieldElement::new(0); 256];
    let len = inv_fft.len();
    arr[..len].copy_from_slice(&inv_fft);
    let expected_coeffs = [
        FieldElement::new(0),
        FieldElement::new(1),
        FieldElement::new(0),
        FieldElement::new(0),
        FieldElement::new(0),
        FieldElement::new(0),
        FieldElement::new(0),
        FieldElement::new(0),
    ];
    assert_eq!(arr[..len], expected_coeffs);
}

#[test]
fn fft_round_trip_on_values() {
    let w = FieldElement::nth_root_of_unity(16);
    let v: Vec<FieldElement> = (0..16u64).map(|i| FieldElement::new(i * i + 3)).collect();
    let back = Poly::inv_fft(&Poly::fft(&v, &w), &w);
    assert_eq!(back, v);
}

#[test]
fn fft_of_length_one_and_two() {
    let one = [FieldElement::new(9)];
    assert_eq!(Poly::fft(&one, &FieldElement::new(1)), vec![FieldElement::new(9)]);
    let w = FieldElement::new(P - 1);
    let two = [FieldElement::new(3), FieldElement::new(5)];
    assert_eq!(Poly::fft(&two, &w), vec![FieldElement::new(8), FieldElement::new(P - 2)]);
}

#[test]
fn lagrange_round_trip_on_values() {
    let x = [FieldElement::new(5), FieldElement::new(11), FieldElement::new(P - 3), FieldElement::new(1 << 33)];
    let y = [FieldElement::new(1), FieldElement::new(0), FieldElement::new(77), FieldElement::new(P - 1)];
    let p = Poly::lagrange_interpolation(&x, &y).unwrap();
    for i in 0..4 {
        assert_eq!(p.eval(x[i]), y[i]);
    }
    for t in 4..256 {
        assert_eq!(p.coeffs[t], FieldElement::new(0));
    }
}

#[test]
fn lagrange_refusals() {
    let x = [FieldElement::new(1), FieldElement::new(2)];
    let y = [FieldElement::new(1)];
    assert_eq!(Poly::lagrange_interpolation(&x, &y).err(), Some(StarkError::InvalidInput));
    let x = [FieldElement::new(4), FieldElement::new(4)];
    let y = [FieldElement::new(1), FieldElement::new(2)];
    assert_eq!(Poly::lagrange_interpolation(&x, &y).err(), Some(StarkError::DuplicateAbscissa));
    let x: Vec<FieldElement> = (0..257u64).map(FieldElement::new).collect();
    let y = x.clone();
    assert_eq!(Poly::lagrange_interpolation(&x, &y).err(), Some(StarkError::CapacityExceeded));
    let empty: [FieldElement; 0] = [];
    let p = Poly::lagrange_interpolation(&empty, &empty).unwrap();
    assert_eq!(p.coeffs, vec![FieldElement::new(0); 256]);
}

#[test]
fn mul_poly_convolution() {
    let mut a = [FieldElement::new(0); 256];
    a[0] = FieldElement::new(1);
    a[1] = FieldElement::new(1);
    let mut b = [FieldElement::new(0); 256];
    b[0] = FieldElement::new(P - 1);
    b[1] = FieldElement::new(1);
    let c = Poly::new(a).mul_poly(Poly::new(b));
    assert_eq!(c.coeffs[0], FieldElement::new(P - 1));
    assert_eq!(c.coeffs[1], FieldElement::new(0));
    assert_eq!(c.coeffs[2], FieldElement::new(1));
    let mut top = [FieldElement::new(0); 256];
    top[255] = FieldElement::new(1);
    let d = Poly::new(top).mul_poly(Poly::new(top));
    assert_eq!(d.coeffs, vec![FieldElement::new(0); 256]);
}

#[test]
fn eval_sums_all_terms() {
    let p = Poly::new([FieldElement::new(1); 256]);
    assert_eq!(p.eval(FieldElement::new(1)), FieldElement::new(256));
    assert_eq!(p.eval(FieldElement::new(0)), FieldElement::new(1));
    assert_eq!(Poly::zero().eval(FieldElement::new(12345)), FieldElement::new(0));
}
