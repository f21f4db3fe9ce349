use wsts_compute::compute::{id, lambda};
use wsts_compute::scalar::Scalar;

fn be32(v: u64) -> [u8; 32] {
    let mut out = [0u8; 32];
    out[24..].copy_from_slice(&v.to_be_bytes());
    out
}

fn unhex32(text: &str) -> [u8; 32] {
    let mut out = [0u8; 32];
    for (i, byte) in out.iter_mut().enumerate() {
        *byte = u8::from_str_radix(&text[2 * i..2 * i + 2], 16).unwrap();
    }
    out
}

fn small(v: u32) -> Scalar {
    Scalar::from_u32(v)
}

#[test]
fn id_is_one_based() {
    assert_eq!(id(0).to_bytes(), be32(1));
    assert_eq!(id(41).to_bytes(), be32(42));
}

#[test]
fn id_of_largest_index_does_not_wrap() {
    assert_eq!(id(u32::MAX).to_bytes(), be32(1u64 << 32));
}

#[test]
fn id_is_never_zero() {
    for i in [0u32, 1, 1000, u32::MAX] {
        assert_ne!(id(i), small(0));
    }
}

#[test]
fn id_is_injective_on_samples() {
    let ids = [0u32, 1, 2, 255, 256, 65535, u32::MAX - 1, u32::MAX];
    for a in ids {
        for b in ids {
            if a != b {
                assert_ne!(id(a), id(b));
            }
        }
    }
}

#[test]
fn id_is_deterministic() {
    assert_eq!(id(17), id(17));
    assert_eq!(id(17).to_bytes(), id(17).to_bytes());
}

#[test]
fn id_agrees_with_the_curve_library() {
    for i in [0u32, 9, 1 << 20] {
        assert_eq!(id(i).to_bytes(), p256k1::scalar::Scalar::from(i + 1).to_bytes());
    }
}

#[test]
fn scalar_from_bytes_reduces() {
    let all_ones = [0xffu8; 32];
    assert_eq!(
        Scalar::from_bytes(&all_ones).to_bytes(),
        unhex32("000000000000000000000000000000014551231950b75fc4402da1732fc9bebe")
    );
    assert_eq!(Scalar::from_bytes(&be32(77)).to_bytes(), be32(77));
}

#[test]
fn scalar_from_bytes_of_the_order_is_zero() {
    let order = unhex32("fffffffffffffffffffffffffffffffebaaedce6af48a03bbfd25e8cd0364141");
    assert_eq!(Scalar::from_bytes(&order), small(0));
}

#[test]
fn scalar_arithmetic_on_small_numbers() {
    assert_eq!(small(20).add(&small(22)), small(42));
    assert_eq!(small(50).sub(&small(8)), small(42));
    assert_eq!(small(6).mul(&small(7)), small(42));
    assert_eq!(small(84).div(&small(2)), small(42));
    assert_eq!(Scalar::one(), small(1));
}

#[test]
fn scalar_subtraction_wraps_below_zero() {
    assert_eq!(
        small(0).sub(&small(3)).to_bytes(),
        unhex32("fffffffffffffffffffffffffffffffebaaedce6af48a03bbfd25e8cd036413e")
    );
}

#[test]
fn scalar_addition_wraps_at_the_order() {
    let minus_three = small(0).sub(&small(3));
    assert_eq!(minus_three.add(&small(5)), small(2));
}

#[test]
fn scalar_division_is_multiplication_by_the_inverse() {
    assert_eq!(
        small(1).div(&small(2)).to_bytes(),
        unhex32("7fffffffffffffffffffffffffffffff5d576e7357a4501ddfe92f46681b20a1")
    );
    assert_eq!(small(1).div(&small(2)).mul(&small(2)), small(1));
}

#[test]
fn scalar_division_by_zero_is_zero() {
    assert_eq!(small(5).div(&small(0)), small(0));
}

#[test]
fn lambda_of_singleton_is_one() {
    assert_eq!(lambda(0, &[0]), Scalar::one());
    assert_eq!(lambda(7, &[7]), Scalar::one());
}

#[test]
fn lambda_of_no_keys_is_one() {
    assert_eq!(lambda(3, &[]), Scalar::one());
}

#[test]
fn lambda_of_two_parties() {
    // The ids 0 and 1 map to the points 1 and 2: 2 / (2 - 1) = 2 and 1 / (1 - 2) = -1.
    assert_eq!(lambda(0, &[0, 1]).to_bytes(), be32(2));
    assert_eq!(lambda(1, &[0, 1]), small(0).sub(&small(1)));
}

#[test]
fn lambda_of_three_parties() {
    assert_eq!(lambda(0, &[0, 1, 2]), small(3));
    assert_eq!(lambda(1, &[0, 1, 2]), small(0).sub(&small(3)));
    assert_eq!(lambda(2, &[0, 1, 2]), small(1));
}

#[test]
fn lambda_reference_values() {
    let keys = [0u32, 2, 5];
    assert_eq!(
        lambda(0, &keys).to_bytes(),
        unhex32("99999999999999999999999999999998d668eaf0cf91f9bd7317d2547ced5a5c")
    );
    assert_eq!(
        lambda(2, &keys).to_bytes(),
        unhex32("fffffffffffffffffffffffffffffffebaaedce6af48a03bbfd25e8cd0364140")
    );
    assert_eq!(
        lambda(5, &keys).to_bytes(),
        unhex32("66666666666666666666666666666665e445f1f5dfb6a67e4cba8c385348e6e7")
    );
}

#[test]
fn lambda_skips_every_occurrence_of_its_own_id() {
    assert_eq!(lambda(4, &[4, 9, 4]), lambda(4, &[9]));
}

#[test]
fn lambda_counts_a_repeated_foreign_id_twice() {
    // For the id 0 among 1, 1, 2: (2 / 1) * (2 / 1) * (3 / 2) = 6.
    assert_eq!(lambda(0, &[1, 1, 2]), small(6));
}

#[test]
fn lambda_of_an_id_outside_the_keys() {
    // For the id 0 among 1 and 2: (2 / 1) * (3 / 2) = 3.
    assert_eq!(lambda(0, &[1, 2]), small(3));
}

#[test]
fn lambda_coefficients_sum_to_one() {
    let keys = [3u32, 8, 20, 21, 1000];
    let mut sum = small(0);
    for k in keys {
        sum = sum.add(&lambda(k, &keys));
    }
    assert_eq!(sum, small(1));
}

fn evaluate(coeffs: &[u32], x: &Scalar) -> Scalar {
    let mut value = small(0);
    for c in coeffs.iter().rev() {
        value = value.mul(x).add(&small(*c));
    }
    value
}

#[test]
fn lagrange_reconstructs_the_constant_term() {
    // f(x) = 7 + 5 x + 3 x^2 over the ids 0, 1, 2: 3 * 15 - 3 * 29 + 49 = 7.
    let coeffs = [7u32, 5, 3];
    let keys = [0u32, 1, 2];
    assert_eq!(evaluate(&coeffs, &id(0)), small(15));
    let mut sum = small(0);
    for k in keys {
        sum = sum.add(&lambda(k, &keys).mul(&evaluate(&coeffs, &id(k))));
    }
    assert_eq!(sum, small(7));
}

#[test]
fn lagrange_reconstructs_with_scattered_ids() {
    let coeffs = [123456u32, 7, 0, 99, 4000000000];
    let keys = [17u32, 4, 4000000000, 0, 255, 31];
    let mut sum = small(0);
    for k in keys {
        sum = sum.add(&lambda(k, &keys).mul(&evaluate(&coeffs, &id(k))));
    }
    assert_eq!(sum, small(123456));
}
