//! Elements of the secp256k1 group, held as their 33-byte compressed
//! encoding. The group law is computed by `p256k1`; its results are named
//! here, and the contracts of the library speak of those names.
use crate::field::be_nat;
use crate::field::group_order;
use crate::scalar::Scalar;
use p256k1::errors::ConversionError as OutsideConversion;
use p256k1::point::Error as OutsideError;
use vstd::prelude::*;
use vstd::slice::slice_subrange;

verus! {

/// The prime of the field over which the curve is defined.
pub open spec fn field_prime() -> nat {
    0xFFFFFFFFFFFFFFFFFFFFFFFFFFFFFFFFFFFFFFFFFFFFFFFFFFFFFFFEFFFFFC2Fnat
}

/// Whether `(x, y)` are reduced coordinates of a point of the curve
/// `y^2 = x^3 + 7`.
pub open spec fn on_curve(x: nat, y: nat) -> bool {
    &&& x < field_prime()
    &&& y < field_prime()
    &&& (y * y) % field_prime() == (x * x * x + 7) % field_prime()
}

/// Whether `x` is the first coordinate of some point of the curve.
pub open spec fn is_abscissa(x: nat) -> bool {
    exists|y: nat| on_curve(x, y)
}

/// The encoding of the neutral element: the tag of an even point before an
/// all-zero coordinate, which no point of the curve has.
pub open spec fn identity_encoding() -> Seq<u8> {
    Seq::new(33, |i: int| if i == 0 { 2u8 } else { 0u8 })
}

/// Whether `b` is the compressed encoding of a point of the curve: the tag
/// `2` or `3` for the parity of the second coordinate, then the first
/// coordinate in 32 big-endian bytes.
pub open spec fn is_curve_encoding(b: Seq<u8>) -> bool {
    &&& b.len() == 33
    &&& (b[0] == 2 || b[0] == 3)
    &&& is_abscissa(be_nat(b.subrange(1, 33)))
}

/// Whether `b` encodes an element of the group.
pub open spec fn is_point_encoding(b: Seq<u8>) -> bool {
    b == identity_encoding() || is_curve_encoding(b)
}

/// The encoding of the sum of two points of the curve.
pub uninterp spec fn curve_add(a: Seq<u8>, b: Seq<u8>) -> Seq<u8>;

/// The encoding of the `k`-fold multiple of a point of the curve.
pub uninterp spec fn curve_mul(k: nat, p: Seq<u8>) -> Seq<u8>;

/// The sum of two elements of the group, by their encodings. The neutral
/// element leaves the other operand as it is.
pub open spec fn group_add(a: Seq<u8>, b: Seq<u8>) -> Seq<u8> {
    if a == identity_encoding() {
        b
    } else if b == identity_encoding() {
        a
    } else {
        curve_add(a, b)
    }
}

/// The `k`-fold multiple of an element of the group, by its encoding. The
/// zero-fold multiple and every multiple of the neutral element are neutral,
/// and the one-fold multiple is the element itself.
pub open spec fn group_mul(k: nat, p: Seq<u8>) -> Seq<u8> {
    if k == 0 || p == identity_encoding() {
        identity_encoding()
    } else if k == 1 {
        p
    } else {
        curve_mul(k, p)
    }
}

/// The sum of a sequence of elements, added from the left onto the neutral
/// element.
pub open spec fn group_sum(points: Seq<Seq<u8>>) -> Seq<u8>
    decreases points.len(),
{
    if points.len() == 0 {
        identity_encoding()
    } else {
        group_add(group_sum(points.drop_last()), points.last())
    }
}

/// The sum of the multiples `scalars[i] * points[i]`.
pub open spec fn multi_mul(scalars: Seq<nat>, points: Seq<Seq<u8>>) -> Seq<u8>
    recommends
        scalars.len() == points.len(),
    decreases points.len(),
{
    if points.len() == 0 {
        identity_encoding()
    } else {
        group_add(
            multi_mul(scalars.drop_last(), points.drop_last()),
            group_mul(scalars.last(), points.last()),
        )
    }
}

/// An element of the secp256k1 group.
#[derive(Clone, Copy, Debug, PartialEq, Eq)]
pub struct Point {
    bytes: [u8; 33],
}

impl View for Point {
    type V = Seq<u8>;

    /// The compressed encoding of the element.
    closed spec fn view(&self) -> Seq<u8> {
        self.bytes@
    }
}

/// The numbers that a sequence of scalars stands for.
pub open spec fn scalar_values(scalars: Seq<Scalar>) -> Seq<nat> {
    Seq::new(scalars.len(), |i: int| scalars[i]@)
}

/// The encodings of a sequence of points.
pub open spec fn point_encodings(points: Seq<Point>) -> Seq<Seq<u8>> {
    Seq::new(points.len(), |i: int| points[i]@)
}

/// What `p256k1` says of bytes that it could not read as a value.
#[verifier::external_type_specification]
#[verifier::external_body]
pub struct ExConversionError(OutsideConversion);

/// Why an operation on points failed: the kinds of error that `p256k1`
/// knows, a failed conversion with what `p256k1` said of it.
#[derive(Debug, PartialEq)]
pub enum PointError {
    MultiMultFailed,
    Conversion(OutsideConversion),
    LiftFailed,
}

/// Whether `p256k1` carries out a multi-scalar multiplication of `n` points.
pub uninterp spec fn multi_mul_succeeds(n: nat) -> bool;

/// `num_traits::Zero::zero` of `p256k1::point::Point`, then `compress`: the
/// neutral element, whose coordinates `p256k1` holds as zero.
#[verifier::external_body]
fn encode_identity() -> (r: [u8; 33])
    ensures
        r@ == identity_encoding(),
{
    let zero: p256k1::point::Point = num_traits::Zero::zero();
    zero.compress().data
}

/// `TryFrom<&Compressed>` of `p256k1::point::Point`, then `compress`:
/// `p256k1` takes the last 32 bytes as the first coordinate, fails unless it
/// is reduced and belongs to a point of the curve, and picks the point whose
/// second coordinate is odd exactly if the first byte is `3`.
#[verifier::external_body]
fn lift_encoding(bytes: &[u8; 33]) -> (r: Option<[u8; 33]>)
    ensures
        r is Some <==> is_abscissa(be_nat(bytes@.subrange(1, 33))),
        r matches Some(c) ==> is_curve_encoding(c@) && c@.subrange(1, 33) == bytes@.subrange(1, 33)
            && (c@[0] == 3 <==> bytes@[0] == 3),
{
    let compressed = p256k1::point::Compressed::from(*bytes);
    match p256k1::point::Point::try_from(&compressed) {
        Ok(p) => Some(p.compress().data),
        Err(_) => None,
    }
}

/// `Add` of `p256k1::point::Point`: the group law. The neutral element leaves
/// the other operand as it is.
#[verifier::external_body]
fn add_encodings(a: &[u8; 33], b: &[u8; 33]) -> (r: [u8; 33])
    requires
        is_point_encoding(a@),
        is_point_encoding(b@),
    ensures
        is_point_encoding(r@),
        a@ == identity_encoding() ==> r@ == b@,
        b@ == identity_encoding() ==> r@ == a@,
        a@ != identity_encoding() && b@ != identity_encoding() ==> r@ == curve_add(a@, b@),
{
    let neutral = p256k1::point::Point::identity();
    let pa = p256k1::point::Point::try_from(&p256k1::point::Compressed::from(*a)).unwrap_or(neutral);
    let pb = p256k1::point::Point::try_from(&p256k1::point::Compressed::from(*b)).unwrap_or(neutral);
    (pa + pb).compress().data
}

/// `Mul<Point>` of `p256k1::scalar::Scalar`: the multiple of a point. The
/// zero-fold multiple and every multiple of the neutral element are neutral;
/// the one-fold multiple is the point itself.
#[verifier::external_body]
fn mul_encoding(k: &[u8; 32], p: &[u8; 33]) -> (r: [u8; 33])
    requires
        be_nat(k@) < group_order(),
        is_point_encoding(p@),
    ensures
        is_point_encoding(r@),
        be_nat(k@) == 0 || p@ == identity_encoding() ==> r@ == identity_encoding(),
        be_nat(k@) == 1 ==> r@ == p@,
        be_nat(k@) > 1 && p@ != identity_encoding() ==> r@ == curve_mul(be_nat(k@), p@),
{
    let neutral = p256k1::point::Point::identity();
    let point = p256k1::point::Point::try_from(&p256k1::point::Compressed::from(*p)).unwrap_or(neutral);
    (p256k1::scalar::Scalar::from(*k) * point).compress().data
}

/// `p256k1::point::Point::multimult`: the sum of the multiples
/// `scalars[i] * points[i]`. `p256k1` asks for 512 bytes of scratch space for
/// each point and sizes its batches by the number of points, so that number
/// fixes whether it carries the multiplication out. Of no points it gives the
/// neutral element. Where it fails, it reports `MultiMultFailed` and nothing
/// else.
#[verifier::external_body]
fn multi_mul_encodings(scalars: &Vec<Scalar>, points: &Vec<Point>) -> (r: Result<Point, PointError>)
    requires
        scalars.len() == points.len(),
    ensures
        r is Ok <==> multi_mul_succeeds(points@.len()),
        points@.len() == 0 ==> r is Ok,
        r matches Ok(sum) ==> is_point_encoding(sum@) && sum@ == multi_mul(
            scalar_values(scalars@),
            point_encodings(points@),
        ),
        r matches Err(e) ==> e == PointError::MultiMultFailed,
{
    let neutral = p256k1::point::Point::identity();
    let s = scalars.iter().map(|k| p256k1::scalar::Scalar::from(k.to_bytes())).collect();
    let p = points.iter().map(
        |q| p256k1::point::Point::try_from(&p256k1::point::Compressed::from(q.bytes)).unwrap_or(neutral),
    ).collect();
    match p256k1::point::Point::multimult(s, p) {
        Ok(sum) => Ok(Point { bytes: sum.compress().data }),
        Err(OutsideError::MultiMultFailed) => Err(PointError::MultiMultFailed),
        Err(OutsideError::Conversion(c)) => Err(PointError::Conversion(c)),
        Err(OutsideError::LiftFailed) => Err(PointError::LiftFailed),
    }
}

impl Point {
    #[verifier::type_invariant]
    spec fn well_formed(self) -> bool {
        is_point_encoding(self.bytes@)
    }

    /// The neutral element of the group.
    pub fn identity() -> (r: Point)
        ensures
            r@ == identity_encoding(),
    {
        Point { bytes: encode_identity() }
    }

    /// The point of the curve that `bytes` encode, if they encode one.
    pub fn from_compressed(bytes: &[u8; 33]) -> (r: Option<Point>)
        ensures
            r is Some <==> is_curve_encoding(bytes@),
            r matches Some(p) ==> p@ == bytes@,
    {
        if bytes[0] != 2 && bytes[0] != 3 {
            return None;
        }
        match lift_encoding(bytes) {
            Some(c) => {
                assert(c@ =~= bytes@) by {
                    assert forall|i: int| 0 <= i < 33 implies c@[i] == bytes@[i] by {
                        if i > 0 {
                            assert(c@[i] == c@.subrange(1, 33)[i - 1]);
                            assert(bytes@[i] == bytes@.subrange(1, 33)[i - 1]);
                        }
                    }
                }
                Some(Point { bytes: c })
            },
            None => None,
        }
    }

    /// The compressed encoding of the element.
    pub fn compress(&self) -> (r: [u8; 33])
        ensures
            r@ == self@,
            is_point_encoding(self@),
    {
        proof {
            use_type_invariant(self);
        }
        self.bytes
    }

    /// The first coordinate of the element in 32 big-endian bytes; all zero
    /// for the neutral element.
    pub fn x_bytes(&self) -> (r: &[u8])
        ensures
            r@ == self@.subrange(1, 33),
    {
        slice_subrange(self.bytes.as_slice(), 1, 33)
    }

    /// The sum of two elements.
    pub fn add(&self, rhs: &Point) -> (r: Point)
        ensures
            r@ == group_add(self@, rhs@),
    {
        proof {
            use_type_invariant(self);
            use_type_invariant(rhs);
        }
        Point { bytes: add_encodings(&self.bytes, &rhs.bytes) }
    }

    /// The `k`-fold multiple of the element.
    pub fn mul(&self, k: &Scalar) -> (r: Point)
        ensures
            r@ == group_mul(k@, self@),
    {
        proof {
            use_type_invariant(self);
        }
        let kb = k.to_bytes();
        Point { bytes: mul_encoding(&kb, &self.bytes) }
    }
}

/// The sum of the multiples `scalars[i] * points[i]`, computed in one batch.
/// The number of points fixes whether the multiplication is carried out; the
/// only error is `MultiMultFailed`.
pub(crate) fn multimult(scalars: &Vec<Scalar>, points: &Vec<Point>) -> (r: Result<
    Point,
    PointError,
>)
    requires
        scalars.len() == points.len(),
    ensures
        r is Ok <==> multi_mul_succeeds(points@.len()),
        points@.len() == 0 ==> r is Ok,
        r matches Ok(p) ==> p@ == multi_mul(scalar_values(scalars@), point_encodings(points@)),
        r matches Err(e) ==> e == PointError::MultiMultFailed,
{
    multi_mul_encodings(scalars, points)
}

/// Every encoding of an element is 33 bytes long.
pub proof fn lemma_encoding_len(p: Point)
    ensures
        p@.len() == 33,
{
}

/// Two points with one encoding are the same point.
pub proof fn lemma_point_by_encoding(p: Point, q: Point)
    requires
        p@ == q@,
    ensures
        p == q,
{
    assert(p.bytes@ == q.bytes@);
    assert(p.bytes == q.bytes);
}

/// The pair of commitments that a participant publishes for one signing
/// round.
#[allow(non_snake_case)]
#[derive(Clone, Copy, Debug, PartialEq, Eq)]
pub struct PublicNonce {
    pub D: Point,
    pub E: Point,
}

} // verus!
