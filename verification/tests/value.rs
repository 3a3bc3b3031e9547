use rlox::value::{Value, FALSE_VAL, NIL_VAL, OBJ_TAG, QNAN, SIGN_BIT, TRUE_VAL};

#[test]
fn booleans_round_trip() {
    let t = Value::from_bool(true);
    let f = Value::from_bool(false);
    assert_eq!(t.0, TRUE_VAL);
    assert_eq!(f.0, FALSE_VAL);
    assert!(t.is_bool() && f.is_bool());
    assert!(t.as_bool());
    assert!(!f.as_bool());
    assert!(!t.is_number() && !t.is_nil() && !t.is_obj());
}

#[test]
fn nil_is_only_nil() {
    let n = Value::nil();
    assert_eq!(n.0, NIL_VAL);
    assert!(n.is_nil());
    assert!(!n.is_bool() && !n.is_number() && !n.is_obj());
}

#[test]
fn numbers_are_their_bits() {
    for x in [0.0f64, -0.0, 1.5, -2.25, 1e300, f64::INFINITY] {
        let v = Value(x.to_bits());
        assert!(v.is_number(), "{x}");
        assert!(!v.is_bool() && !v.is_nil() && !v.is_obj());
        assert_eq!(f64::from_bits(v.0), x);
    }
}

#[test]
fn objects_keep_their_handle() {
    for h in [0u64, 1, 42, 0x0000_FFFF_FFFF_FFFF, 0x0003_FFFF_FFFF_FFFF] {
        let v = Value::from_obj(h);
        assert_eq!(v.0, SIGN_BIT | QNAN | h);
        assert!(v.is_obj());
        assert!(!v.is_number() && !v.is_bool() && !v.is_nil());
        assert_eq!(v.as_obj(), h);
    }
    assert_eq!(SIGN_BIT | QNAN, OBJ_TAG);
}

#[test]
fn only_nil_and_false_are_falsey() {
    assert!(Value::nil().is_falsey());
    assert!(Value::from_bool(false).is_falsey());
    assert!(!Value::from_bool(true).is_falsey());
    assert!(!Value(0.0f64.to_bits()).is_falsey());
    assert!(!Value::from_obj(3).is_falsey());
}
