use wsts_compute::compute::{binding, id, intermediate, poly, power_ladder};
use wsts_compute::point::{Point, PointError, PublicNonce};
use wsts_compute::scalar::Scalar;

fn unhex<const N: usize>(text: &str) -> [u8; N] {
    let mut out = [0u8; N];
    for (i, byte) in out.iter_mut().enumerate() {
        *byte = u8::from_str_radix(&text[2 * i..2 * i + 2], 16).unwrap();
    }
    out
}

fn point(text: &str) -> Point {
    Point::from_compressed(&unhex::<33>(text)).unwrap()
}

const G: &str = "0279be667ef9dcbbac55a06295ce870b07029bfcdb2dce28d959f2815b16f81798";
const G2: &str = "02c6047f9441ed7d6d3045406e95c07cd85c778e4b8cef3ca7abac09b95c709ee5";
const G3: &str = "02f9308a019258c31049344f85f89d5229b531c845836f99b08601f113bce036f9";
const G5: &str = "022f8bde4d1a07209355b4a7250a5c5128e88b84bddc619ab7cba8d569b240efe4";
const G7: &str = "025cbdf0646e5db4eaa398f365f2ea7a0e3d419b7e0330e39ce92bddedcac4f9bc";

fn nonces() -> Vec<PublicNonce> {
    vec![
        PublicNonce {
            D: point("03774ae7f858a9411e5ef4246b70c65aac5649980be5c17891bbec17895da008cb"),
            E: point("025d045857332d5b9e541514731622af8d60c180165d971a61e06b70a9b3834765"),
        },
        PublicNonce {
            D: point("03421f5fc9a21065445c96fdb91c0c1e2f2431741c72713b4b99ddcb316f31e9fc"),
            E: point("02caf754272dc84563b0352b7a14311af55d245315ace27c65369e15f7151d41d1"),
        },
        PublicNonce {
            D: point("021697ffa6fd9de627c077e3d2fe541084ce13300b0bec1146f95ae57f0d0bd6a5"),
            E: point("03079264c4b4bfcd7fe3a7b7b92b6c439f3a5b3abcd29189bf7b54d781ff03d722"),
        },
    ]
}

fn outside(p: &Point) -> p256k1::point::Point {
    let compressed = p256k1::point::Compressed::from(p.compress());
    p256k1::point::Point::try_from(&compressed).unwrap()
}

fn outside_scalar(s: &Scalar) -> p256k1::scalar::Scalar {
    p256k1::scalar::Scalar::from(s.to_bytes())
}

#[test]
fn point_round_trips_through_its_encoding() {
    assert_eq!(point(G).compress(), unhex::<33>(G));
    assert_eq!(point(G5).compress(), unhex::<33>(G5));
}

#[test]
fn point_generator_agrees_with_the_curve_library() {
    assert_eq!(point(G).compress(), p256k1::point::Point::G().compress().data);
}

#[test]
fn point_refuses_a_coordinate_off_the_curve() {
    let mut bytes = [0u8; 33];
    bytes[0] = 2;
    bytes[32] = 5;
    assert_eq!(Point::from_compressed(&bytes), None);
}

#[test]
fn point_refuses_an_unreduced_coordinate() {
    let mut bytes = [0xffu8; 33];
    bytes[0] = 2;
    assert_eq!(Point::from_compressed(&bytes), None);
}

#[test]
fn point_refuses_an_unknown_tag() {
    let mut bytes = unhex::<33>(G);
    bytes[0] = 4;
    assert_eq!(Point::from_compressed(&bytes), None);
    bytes[0] = 0;
    assert_eq!(Point::from_compressed(&bytes), None);
}

#[test]
fn point_identity_has_no_curve_encoding() {
    let neutral = Point::identity().compress();
    let mut expected = [0u8; 33];
    expected[0] = 2;
    assert_eq!(neutral, expected);
    assert_eq!(Point::from_compressed(&neutral), None);
}

#[test]
fn point_first_coordinate() {
    assert_eq!(point(G).x_bytes(), &unhex::<33>(G)[1..]);
    assert_eq!(Point::identity().x_bytes(), &[0u8; 32][..]);
}

#[test]
fn point_addition() {
    assert_eq!(point(G).add(&point(G2)), point(G3));
    assert_eq!(point(G).add(&point(G)), point(G2));
    assert_eq!(point(G2).add(&point(G5)), point(G7));
}

#[test]
fn point_addition_with_the_identity() {
    assert_eq!(Point::identity().add(&point(G)), point(G));
    assert_eq!(point(G).add(&Point::identity()), point(G));
    assert_eq!(Point::identity().add(&Point::identity()), Point::identity());
}

#[test]
fn point_added_to_its_negation_is_the_identity() {
    let mut negated = unhex::<33>(G);
    negated[0] = 3;
    let minus_g = Point::from_compressed(&negated).unwrap();
    assert_eq!(point(G).add(&minus_g), Point::identity());
}

#[test]
fn point_multiples() {
    assert_eq!(point(G).mul(&Scalar::from_u32(5)), point(G5));
    assert_eq!(point(G).mul(&Scalar::from_u32(1)), point(G));
    assert_eq!(point(G).mul(&Scalar::from_u32(0)), Point::identity());
    assert_eq!(Point::identity().mul(&Scalar::from_u32(9)), Point::identity());
    assert_eq!(point(G2).mul(&Scalar::from_u32(1)), point(G2));
}

#[test]
fn point_multiple_by_the_order_is_the_identity() {
    let order_minus_one = Scalar::from_u32(0).sub(&Scalar::one());
    let g = point(G);
    assert_eq!(g.mul(&order_minus_one).add(&g), Point::identity());
}

#[test]
fn intermediate_reference_values() {
    let b = nonces();
    let (r_vec, r) = intermediate(b"test", &[0, 1, 2], &b);
    assert_eq!(
        r_vec,
        vec![
            point("0332ca4f0a74e56f34d061921a96faced0119c4102329da634150c299e56aa90ca"),
            point("022cc7abf79a797835270a2d202a44ceb97911b70606a383eeb649ba2974f5e376"),
            point("0254e523522e929f82b13ed5bdd5488cfdf54bd1e1a91d23c9779c8a1ad6733f3e"),
        ]
    );
    assert_eq!(r, point("024f17cb3261587c4772d1f52f91df54844cc481ed63b88de600cd7e99e81f22b6"));
}

#[test]
fn intermediate_end_to_end() {
    let b = nonces();
    let ids = [0u32, 1, 2];
    let rhos = [
        unhex::<32>("dfd63be133133b6ac9a9d8023e04bb6605910811a2f3d007de8b2358c64f0c58"),
        unhex::<32>("f4f095e97981b0238454d46db10c4fa7410b53aa5364aa32ee6336a2ec35b8a7"),
        unhex::<32>("afb715fde18101e2e893d60e13e2a8f9dd49a03ae9402b0fb171be5e9043bfa5"),
    ];
    let (r_vec, r) = intermediate(b"test", &ids, &b);
    assert_eq!(r_vec.len(), 3);
    let mut sum = p256k1::point::Point::identity();
    for k in 0..3 {
        let rho = binding(&id(ids[k]), &b, b"test");
        assert_eq!(rho.to_bytes(), rhos[k]);
        let r_k = outside(&b[k].D) + outside_scalar(&rho) * outside(&b[k].E);
        assert_eq!(r_vec[k].compress(), r_k.compress().data);
        sum = sum + r_k;
    }
    assert_eq!(r.compress(), sum.compress().data);
}

#[test]
fn intermediate_aggregate_is_the_sum_of_the_parts() {
    let b = nonces();
    let (r_vec, r) = intermediate(b"another message", &[7, 3, 11], &b);
    let mut sum = Point::identity();
    for r_k in &r_vec {
        sum = sum.add(r_k);
    }
    assert_eq!(r, sum);
}

#[test]
fn intermediate_is_deterministic() {
    let b = nonces();
    assert_eq!(intermediate(b"test", &[0, 1, 2], &b), intermediate(b"test", &[0, 1, 2], &b));
}

#[test]
fn intermediate_of_nothing() {
    let (r_vec, r) = intermediate(b"test", &[], &[]);
    assert!(r_vec.is_empty());
    assert_eq!(r, Point::identity());
}

#[test]
fn intermediate_goes_as_far_as_both_lists() {
    let b = nonces();
    let (r_vec, _) = intermediate(b"test", &[0, 1], &b);
    assert_eq!(r_vec.len(), 2);
    let (all, _) = intermediate(b"test", &[0, 1, 2], &b);
    assert_eq!(r_vec[..], all[..2]);
    let (short, _) = intermediate(b"test", &[0, 1, 2, 3, 4], &b);
    assert_eq!(short, all);
}

#[test]
fn poly_of_one_coefficient_is_the_coefficient() {
    for x in [0u32, 1, 5, 77] {
        assert_eq!(poly(&Scalar::from_u32(x), &vec![point(G)]), Ok(point(G)));
        assert_eq!(poly(&Scalar::from_u32(x), &vec![point(G7)]), Ok(point(G7)));
    }
}

#[test]
fn poly_of_the_linear_term_scales() {
    let f = vec![Point::identity(), point(G)];
    assert_eq!(poly(&Scalar::from_u32(5), &f), Ok(point(G5)));
}

#[test]
fn poly_sums_the_powers() {
    // G + 2 G + 4 G = 7 G.
    let f = vec![point(G), point(G), point(G)];
    assert_eq!(poly(&Scalar::from_u32(2), &f), Ok(point(G7)));
    // G + 1 * 2 G = 3 G.
    assert_eq!(poly(&Scalar::from_u32(1), &vec![point(G), point(G2)]), Ok(point(G3)));
}

#[test]
fn poly_at_zero_is_the_constant_coefficient() {
    let f = vec![point(G3), point(G), point(G5)];
    assert_eq!(poly(&Scalar::from_u32(0), &f), Ok(point(G3)));
}

#[test]
fn poly_of_no_coefficients_is_the_identity() {
    assert_eq!(poly(&Scalar::from_u32(3), &vec![]), Ok(Point::identity()));
}

#[test]
fn poly_agrees_with_single_multiplications() {
    let b = nonces();
    let f: Vec<Point> = vec![b[0].D, b[1].E, b[2].D, b[0].E, b[1].D];
    let x = binding(&id(3), &b, b"seed");
    let mut expected = Point::identity();
    let mut power = Scalar::one();
    for c in &f {
        expected = expected.add(&c.mul(&power));
        power = power.mul(&x);
    }
    assert_eq!(poly(&x, &f), Ok(expected));
}

#[test]
fn poly_is_deterministic() {
    let f = vec![point(G), point(G2)];
    assert_eq!(poly(&Scalar::from_u32(9), &f), poly(&Scalar::from_u32(9), &f));
}

#[test]
fn poly_succeeds_across_batch_sizes() {
    let g = point(G);
    let x = Scalar::from_u32(3);
    for n in [2usize, 3, 50, 87, 88, 89, 200, 600] {
        let f = vec![g; n];
        // (3^n - 1) / 2 times G.
        let mut sum = Scalar::from_u32(0);
        let mut power = Scalar::one();
        for _ in 0..n {
            sum = sum.add(&power);
            power = power.mul(&x);
        }
        assert_eq!(poly(&x, &f), Ok(g.mul(&sum)));
    }
}

#[test]
fn poly_error_kinds_differ() {
    assert_ne!(PointError::MultiMultFailed, PointError::LiftFailed);
    assert_ne!(
        PointError::MultiMultFailed,
        PointError::Conversion(p256k1::errors::ConversionError::BadGroupElement)
    );
}

#[test]
fn power_ladder_of_two() {
    let ladder = power_ladder(&Scalar::from_u32(2), 5);
    let expected: Vec<Scalar> = [1u32, 2, 4, 8, 16].iter().map(|v| Scalar::from_u32(*v)).collect();
    assert_eq!(ladder, expected);
}

#[test]
fn power_ladder_of_zero_starts_with_one() {
    let ladder = power_ladder(&Scalar::from_u32(0), 3);
    assert_eq!(ladder, vec![Scalar::one(), Scalar::from_u32(0), Scalar::from_u32(0)]);
}

#[test]
fn power_ladder_of_no_length_is_empty() {
    assert!(power_ladder(&Scalar::from_u32(7), 0).is_empty());
}

#[test]
fn power_ladder_wraps_at_the_order() {
    // (-1)^k alternates between 1 and -1.
    let minus_one = Scalar::from_u32(0).sub(&Scalar::one());
    let ladder = power_ladder(&minus_one, 4);
    assert_eq!(ladder, vec![Scalar::one(), minus_one, Scalar::one(), minus_one]);
}
