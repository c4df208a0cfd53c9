use kvectors::vectors::AffineVector;
use kvectors::vectors::KVector3;

const SIGN: u64 = 0x8000_0000_0000_0000;

#[test]
fn new_keeps_components() {
    let a = 1.25f64.to_bits();
    let b = (-3.5f64).to_bits();
    let c = f64::NAN.to_bits();
    let v = KVector3::new(a, b, c);
    assert_eq!(v.x(), a);
    assert_eq!(v.y(), b);
    assert_eq!(v.z(), c);
}

#[test]
fn affine_new_keeps_components() {
    let a = 0.5f64.to_bits();
    let b = (-0.0f64).to_bits();
    let c = f64::INFINITY.to_bits();
    let d = 4.0f64.to_bits();
    let v = AffineVector::new(a, b, c, d);
    assert_eq!(v.x(), a);
    assert_eq!(v.y(), b);
    assert_eq!(v.z(), c);
    assert_eq!(v.w(), d);
}

#[test]
fn newi_matches_native_encoding() {
    let v = KVector3::newi(3, 4, 0);
    assert_eq!(v.x(), 3.0f64.to_bits());
    assert_eq!(v.y(), 4.0f64.to_bits());
    assert_eq!(v.z(), 0.0f64.to_bits());

    let w = KVector3::newi(-7, i32::MAX, i32::MIN);
    assert_eq!(w.x(), (-7.0f64).to_bits());
    assert_eq!(w.y(), (i32::MAX as f64).to_bits());
    assert_eq!(w.z(), (i32::MIN as f64).to_bits());

    let u = KVector3::newi(1, -1, 1_000_000);
    assert_eq!(u.x(), 1.0f64.to_bits());
    assert_eq!(u.y(), (-1.0f64).to_bits());
    assert_eq!(u.z(), 1.0e6f64.to_bits());
}

#[test]
fn named_constants_hold_the_expected_patterns() {
    let z = KVector3::zero();
    assert_eq!(z.x(), 0.0f64.to_bits());
    assert_eq!(z.y(), 0.0f64.to_bits());
    assert_eq!(z.z(), 0.0f64.to_bits());

    let e = KVector3::identity();
    assert_eq!(e.x(), 1.0f64.to_bits());
    assert_eq!(e.y(), 1.0f64.to_bits());
    assert_eq!(e.z(), 1.0f64.to_bits());

    let i = KVector3::i_hat();
    let j = KVector3::j_hat();
    let k = KVector3::k_hat();
    assert_eq!((i.x(), i.y(), i.z()), (1.0f64.to_bits(), 0, 0));
    assert_eq!((j.x(), j.y(), j.z()), (0, 1.0f64.to_bits(), 0));
    assert_eq!((k.x(), k.y(), k.z()), (0, 0, 1.0f64.to_bits()));
}

#[test]
fn with_component_replaces_only_that_component() {
    let v = KVector3::new(1.0f64.to_bits(), 2.0f64.to_bits(), 3.0f64.to_bits());
    let r = 9.5f64.to_bits();

    let vx = v.with_x(r);
    assert_eq!(vx.x(), r);
    assert_eq!(vx.y(), v.y());
    assert_eq!(vx.z(), v.z());

    let vy = v.with_y(r);
    assert_eq!(vy.x(), v.x());
    assert_eq!(vy.y(), r);
    assert_eq!(vy.z(), v.z());

    let vz = v.with_z(r);
    assert_eq!(vz.x(), v.x());
    assert_eq!(vz.y(), v.y());
    assert_eq!(vz.z(), r);

    // The receiver is unchanged.
    assert_eq!(v.x(), 1.0f64.to_bits());
    assert_eq!(v.y(), 2.0f64.to_bits());
    assert_eq!(v.z(), 3.0f64.to_bits());
}

#[test]
fn negation_matches_native_negation() {
    let v = KVector3::new(1.5f64.to_bits(), 0.0f64.to_bits(), f64::INFINITY.to_bits());
    let n = v.v_usub();
    assert_eq!(n.x(), (-1.5f64).to_bits());
    assert_eq!(n.y(), (-0.0f64).to_bits());
    assert_eq!(n.z(), f64::NEG_INFINITY.to_bits());

    // Negation flips the sign of a not-a-number pattern too.
    let nan = f64::NAN.to_bits();
    let m = KVector3::new(nan, nan, nan).v_usub();
    assert_eq!(m.x(), nan ^ SIGN);
    assert_eq!(m.x(), (-f64::NAN).to_bits());

    // Negating twice gives the original back.
    assert_eq!(n.v_usub(), v);
}

#[test]
fn affine_negation_matches_native_negation() {
    let v = AffineVector::new(
        2.5f64.to_bits(),
        (-4.0f64).to_bits(),
        0.0f64.to_bits(),
        1.0f64.to_bits(),
    );
    let n = v.negate();
    assert_eq!(n.x(), (-2.5f64).to_bits());
    assert_eq!(n.y(), 4.0f64.to_bits());
    assert_eq!(n.z(), (-0.0f64).to_bits());
    assert_eq!(n.w(), (-1.0f64).to_bits());
}

#[test]
fn equality_follows_native_float_equality() {
    let a = KVector3::new(1.5f64.to_bits(), 2.5f64.to_bits(), (-0.0f64).to_bits());
    let b = KVector3::new(1.5f64.to_bits(), 2.5f64.to_bits(), 0.0f64.to_bits());
    // The two zeros are equal, so the vectors are.
    assert!(a.equals(b));
    assert!(b.equals(a));
    assert!(a.equals(a));

    let c = KVector3::new(1.5f64.to_bits(), 2.0f64.to_bits(), 0.0f64.to_bits());
    assert!(!a.equals(c));

    // A not-a-number component is unequal even to itself.
    let nan = KVector3::new(f64::NAN.to_bits(), 2.5f64.to_bits(), 0.0f64.to_bits());
    assert!(!nan.equals(nan));
    assert!(!nan.equals(a));
    assert!(!a.equals(nan));

    // Infinities are equal only to infinities of the same sign.
    let inf = f64::INFINITY.to_bits();
    let p = KVector3::new(inf, 0, 0);
    let q = KVector3::new(inf ^ SIGN, 0, 0);
    assert!(p.equals(p));
    assert!(!p.equals(q));
}

#[test]
fn affine_equality_follows_native_float_equality() {
    let a = AffineVector::new(
        1.0f64.to_bits(),
        0.0f64.to_bits(),
        (-0.0f64).to_bits(),
        2.0f64.to_bits(),
    );
    let b = AffineVector::new(
        1.0f64.to_bits(),
        (-0.0f64).to_bits(),
        0.0f64.to_bits(),
        2.0f64.to_bits(),
    );
    assert!(a.equals(b));
    let c = AffineVector::new(
        1.0f64.to_bits(),
        0.0f64.to_bits(),
        0.0f64.to_bits(),
        f64::NAN.to_bits(),
    );
    assert!(!c.equals(c));
}

#[test]
fn round_moves_halves_away_from_zero() {
    let v = KVector3::new(1.4f64.to_bits(), 2.5f64.to_bits(), (-1.5f64).to_bits());
    let r = v.round();
    assert_eq!(r.x(), 1.0f64.to_bits());
    assert_eq!(r.y(), 3.0f64.to_bits());
    assert_eq!(r.z(), (-2.0f64).to_bits());

    // The sign survives even when the value rounds to zero.
    let s = KVector3::new((-0.3f64).to_bits(), 0.3f64.to_bits(), (-0.5f64).to_bits());
    let t = s.round();
    assert_eq!(t.x(), (-0.0f64).to_bits());
    assert_eq!(t.y(), 0.0f64.to_bits());
    assert_eq!(t.z(), (-1.0f64).to_bits());
}
