use goldilocks_niels::extended::ExtendedPoint;
use goldilocks_niels::field::FieldElement;
use goldilocks_niels::projective::ProjectiveNielsPoint;
use hex::decode as hex_decode;

fn slice_to_fixed_array(b: &[u8]) -> [u8; 56] {
    let mut a: [u8; 56] = [0; 56];
    a.copy_from_slice(&b);
    a
}

fn hex_to_field(data: &str) -> FieldElement {
    let mut bytes = hex_decode(data).unwrap();
    bytes.reverse();
    FieldElement::from_bytes(&slice_to_fixed_array(&bytes))
}

fn small(v: u8) -> FieldElement {
    let mut bytes = [0u8; 56];
    bytes[0] = v;
    FieldElement::from_bytes(&bytes)
}

fn fixture() -> ProjectiveNielsPoint {
    ProjectiveNielsPoint {
        Y_plus_X: hex_to_field("81a45f02f41053f8d7d2a1f176a340529b33b7ee4d3fa84de384b750b35a54c315bf36c41d023ade226449916e668396589ea2145da09b95"),
        Y_minus_X: hex_to_field("4b8a632c1feab72769cd96e7aaa577861871b3613945c802b89377e8b85331ecc0ffb1cb20169bfc9c27274d38b0d01e87a1d5d851770bc8"),
        Td: hex_to_field("5f5a2b06a2dbf7136f8dc979fd54d631ca7de50397250a196d3be2a721ab7cbaa92c545d9b15b5319e11b64bc031666049d8637e13838b3b"),
        Z: FieldElement::one(),
    }
}

#[test]
fn test_conditional_negate() {
    let Y_minus_X = hex_to_field("4b8a632c1feab72769cd96e7aaa577861871b3613945c802b89377e8b85331ecc0ffb1cb20169bfc9c27274d38b0d01e87a1d5d851770bc8");
    let Y_plus_X = hex_to_field("81a45f02f41053f8d7d2a1f176a340529b33b7ee4d3fa84de384b750b35a54c315bf36c41d023ade226449916e668396589ea2145da09b95");
    let Td = hex_to_field("5f5a2b06a2dbf7136f8dc979fd54d631ca7de50397250a196d3be2a721ab7cbaa92c545d9b15b5319e11b64bc031666049d8637e13838b3b");
    let Z = FieldElement::one();

    let mut n = ProjectiveNielsPoint {
        Y_plus_X,
        Y_minus_X,
        Td,
        Z,
    };

    let expected_neg_n = ProjectiveNielsPoint {
        Y_plus_X: Y_minus_X,
        Y_minus_X: Y_plus_X,
        Td: Td.negate(),
        Z: Z,
    };

    n.conditional_negate(true);

    assert!(expected_neg_n.Y_plus_X == n.Y_plus_X);
    assert!(expected_neg_n.Y_minus_X == n.Y_minus_X);
    assert!(expected_neg_n.Td == n.Td);
}

#[test]
fn conditional_negate_keeps_z() {
    let mut n = fixture();
    let z = n.Z;
    n.conditional_negate(true);
    assert!(n.Z == z);
}

#[test]
fn negate_twice_restores_point() {
    let p = fixture();
    let mut q = p;
    q.conditional_negate(true);
    assert!(q != p);
    q.conditional_negate(true);
    assert!(q == p);
}

#[test]
fn negate_false_changes_nothing() {
    let p = fixture();
    let mut q = p;
    q.conditional_negate(false);
    assert!(q == p);
}

#[test]
fn select_picks_by_choice() {
    let a = fixture();
    let b = ProjectiveNielsPoint::identity();
    assert!(ProjectiveNielsPoint::conditional_select(&a, &b, true) == b);
    assert!(ProjectiveNielsPoint::conditional_select(&a, &b, false) == a);
}

#[test]
fn to_extended_meets_relation() {
    let e = fixture().to_extended();
    assert!(e.X.mul(&e.Y) == e.Z.mul(&e.T));
    let mut scaled = fixture();
    scaled.Z = small(7);
    let e = scaled.to_extended();
    assert!(e.X.mul(&e.Y) == e.Z.mul(&e.T));
    assert!(e.Z == small(49));
}

#[test]
fn identity_to_extended_coordinates() {
    let e = ProjectiveNielsPoint::identity().to_extended();
    let expected = ExtendedPoint {
        X: FieldElement::zero(),
        Y: small(2),
        Z: FieldElement::one(),
        T: FieldElement::zero(),
    };
    assert!(e == expected);
    assert!(e.X.mul(&e.Y) == e.Z.mul(&e.T));
}

#[test]
fn identity_coordinates_and_default() {
    let id = ProjectiveNielsPoint::identity();
    assert!(id.Y_plus_X == FieldElement::one());
    assert!(id.Y_minus_X == FieldElement::one());
    assert!(id.Td == FieldElement::zero());
    assert!(id.Z == FieldElement::one());
    assert!(ProjectiveNielsPoint::default() == id);
}

#[test]
fn field_small_arithmetic() {
    assert!(small(2).add(&small(3)) == small(5));
    assert!(small(3).sub(&small(2)) == FieldElement::one());
    assert!(small(6).mul(&small(7)) == small(42));
    assert!(small(9).square() == small(81));
    assert!(FieldElement::one().negate().add(&FieldElement::one()) == FieldElement::zero());
    assert!(FieldElement::zero().negate() == FieldElement::zero());
}

#[test]
fn field_wraps_at_the_prime() {
    // p - 1 = 2^448 - 2^224 - 2, so (p - 1) + 2 = 1.
    let mut bytes = [0xffu8; 56];
    bytes[0] = 0xfe;
    bytes[28] = 0xfe;
    let p_minus_one = FieldElement::from_bytes(&bytes);
    assert!(p_minus_one == FieldElement::one().negate());
    assert!(p_minus_one.add(&small(2)) == FieldElement::one());
    assert!(p_minus_one.mul(&p_minus_one) == FieldElement::one());
}

#[test]
fn from_bytes_reduces() {
    // 2^448 - 1 reduces to 2^224.
    let all_ones = FieldElement::from_bytes(&[0xffu8; 56]);
    let mut bytes = [0u8; 56];
    bytes[28] = 1;
    assert!(all_ones == FieldElement::from_bytes(&bytes));
    assert!(small(1) == FieldElement::one());
}

#[test]
fn field_conditional_select_and_swap() {
    let a = small(11);
    let b = small(13);
    assert!(FieldElement::conditional_select(&a, &b, true) == b);
    assert!(FieldElement::conditional_select(&a, &b, false) == a);
    let mut x = a;
    let mut y = b;
    FieldElement::conditional_swap(&mut x, &mut y, true);
    assert!(x == b && y == a);
    FieldElement::conditional_swap(&mut x, &mut y, false);
    assert!(x == b && y == a);
}

#[test]
fn field_conditional_negate() {
    let mut x = small(5);
    x.conditional_negate(true);
    assert!(x.add(&small(5)) == FieldElement::zero());
    let mut y = small(5);
    y.conditional_negate(false);
    assert!(y == small(5));
}
