//! Numbers, texts, tables, spans and units.

use guardc::binary64::Real;
use guardc::cir::BaseDimension;
use guardc::cir::BufferId;
use guardc::cir::CirType;
use guardc::cir::ConstValue;
use guardc::cir::Expr;
use guardc::cir::RecordFields;
use guardc::cir::SymbolTable;
use guardc::cir::TypeKind;
use guardc::cir::Unit;
use guardc::cir::VarId;
use guardc::cir::VarKind;
use guardc::error::GuardError;
use guardc::error::Span;
use guardc::table::Table;
use guardc::text;

#[test]
fn integers_become_the_nearest_numbers() {
    let cases: Vec<i64> = vec![
        0,
        1,
        -1,
        2,
        3,
        255,
        1000,
        -1000,
        9007199254740991,
        9007199254740992,
        9007199254740993,
        9007199254740995,
        -9007199254740993,
        i64::MAX,
        i64::MIN,
        i64::MAX - 511,
        i64::MAX - 512,
        i64::MAX - 513,
        1152921504606847103,
        1152921504606846977,
    ];
    for v in cases {
        assert_eq!(Real::from_i64(v).0, (v as f64).to_bits(), "{}", v);
    }
    let unsigned: Vec<u64> = vec![0, 1, u64::MAX, u64::MAX - 1023, u64::MAX - 1024, 1 << 63];
    for v in unsigned {
        assert_eq!(Real::from_u64(v).0, (v as f64).to_bits(), "{}", v);
    }
}

#[test]
fn thousandths_are_rounded_like_divisions() {
    let cases: Vec<f64> = vec![
        0.0,
        -0.0,
        1.0,
        10.0,
        -10.0,
        16.666666666666668,
        33.3,
        0.1,
        100.0,
        1000.0,
        1e-300,
        5e-324,
        1.5e-321,
        2.2250738585072014e-308,
        2.3e-305,
        1e308,
        f64::MAX,
        f64::MIN_POSITIVE,
        f64::INFINITY,
        f64::NEG_INFINITY,
        123456789.123456789,
        -7.25,
    ];
    for v in cases {
        assert_eq!(Real(v.to_bits()).thousandth().0, (v / 1000.0).to_bits(), "{}", v);
    }
    let mut bits: u64 = 0x0008_1234_5678_9abc;
    for _ in 0..2000 {
        let v = f64::from_bits(bits & 0x7fff_ffff_ffff_ffff);
        if !v.is_nan() {
            assert_eq!(Real(v.to_bits()).thousandth().0, (v / 1000.0).to_bits(), "{:e}", v);
        }
        bits = bits.wrapping_mul(6364136223846793005).wrapping_add(1442695040888963407);
    }
    assert!(f64::from_bits(Real(f64::NAN.to_bits()).thousandth().0).is_nan());
}

#[test]
fn numerals() {
    let mut s = String::new();
    text::push_decimal(&mut s, 0);
    text::push_decimal(&mut s, 1234567890);
    text::push_decimal(&mut s, u64::MAX);
    assert_eq!(s, format!("{}{}{}", 0, 1234567890, u64::MAX));
    let mut s = String::new();
    text::push_signed_decimal(&mut s, i64::MIN);
    text::push_signed_decimal(&mut s, -7);
    text::push_signed_decimal(&mut s, 7);
    assert_eq!(s, format!("{}{}{}", i64::MIN, -7, 7));
    let mut s = String::new();
    text::push_padded_decimal(&mut s, 5);
    text::push_padded_decimal(&mut s, 12);
    text::push_padded_decimal(&mut s, 345);
    assert_eq!(s, "0512345");
    assert_eq!(text::bytes_to_hex(&[0x00, 0x0f, 0xa5, 0xff]), "000fa5ff");
    assert_eq!(text::bytes_to_hex(&[]), "");
}

#[test]
fn tables_keep_the_order_of_first_insertion() {
    let mut t: Table<u8> = Table::new();
    t.insert(7, 1);
    t.insert(3, 2);
    t.insert(7, 9);
    t.insert(5, 4);
    assert_eq!(t.len(), 3);
    assert_eq!(t.get(7), Some(&9));
    assert_eq!(t.get(3), Some(&2));
    assert_eq!(t.get(4), None);
    assert_eq!((t.key_at(0), *t.row_at(0)), (7, 9));
    assert_eq!((t.key_at(1), *t.row_at(1)), (3, 2));
    assert_eq!((t.key_at(2), *t.row_at(2)), (5, 4));
    let copy = t.clone();
    assert!(copy == t);
    assert_eq!(copy.get(5), Some(&4));
}

#[test]
fn spans_merge_and_print() {
    let a = Span { file: "a.guard".to_string(), start_line: 3, start_col: 7, end_line: 4, end_col: 2 };
    let b = Span { file: "b.guard".to_string(), start_line: 2, start_col: 9, end_line: 5, end_col: 1 };
    let m = a.merge(&b);
    assert_eq!(m.file, "a.guard");
    assert_eq!((m.start_line, m.start_col, m.end_line, m.end_col), (2, 7, 5, 2));
    assert_eq!(m.text(), "a.guard:2:7-5:2");
    assert!(a.merge(&a) == a);
    assert_eq!(Span::new("x", 1, 2).text(), "x:1:2-1:2");
}

#[test]
fn errors_print() {
    let span = Span::new("m.guard", 3, 9);
    assert_eq!(
        GuardError::Parse { span: span.clone(), message: "eof".to_string() }.text(),
        "parse error at m.guard:3:9-3:9: eof"
    );
    assert_eq!(
        GuardError::Type { span: span.clone(), message: "bad".to_string() }.text(),
        "type error at m.guard:3:9-3:9: bad"
    );
    assert_eq!(
        GuardError::UnitMismatch { span, expected: "m".to_string(), got: "s".to_string() }.text(),
        "unit mismatch at m.guard:3:9-3:9: expected m, got s"
    );
    assert_eq!(GuardError::Lowering("x".to_string()).text(), "lowering error: x");
    assert_eq!(GuardError::Codegen("x".to_string()).text(), "codegen error: x");
    assert_eq!(
        GuardError::ProofFailed { obligation: "o".to_string(), reason: "r".to_string() }.text(),
        "proof generation failed for 'o': r"
    );
    assert_eq!(GuardError::Validation("x".to_string()).text(), "validation error: x");
}

#[test]
fn units_multiply_and_divide() {
    let m = Unit::Base(BaseDimension::Length, 1);
    let s = Unit::Base(BaseDimension::Time, 1);
    let speed = m.div(&s);
    assert!(
        speed == Unit::Product(vec![(BaseDimension::Length, 1), (BaseDimension::Time, -1)])
    );
    assert!(speed.mul(&s) == m);
    assert!(m.div(&m) == Unit::Dimensionless);
    assert!(m.mul(&s) == s.mul(&m));
    assert_eq!(speed.text(), "m·s^-1");
    assert_eq!(Unit::Dimensionless.text(), "1");
    assert_eq!(BaseDimension::Amount.as_str(), "mol");
}

#[test]
fn units_can_be_used_again() {
    let m = Unit::Base(BaseDimension::Length, 1);
    let s = Unit::Base(BaseDimension::Time, 1);
    let acceleration = m.div(&s).div(&s);
    let force = acceleration.mul(&Unit::Base(BaseDimension::Mass, 1)).normalize();
    assert!(
        force.div(&m)
            == Unit::Product(vec![(BaseDimension::Mass, 1), (BaseDimension::Time, -2)])
    );
    assert!(force.div(&acceleration) == Unit::Base(BaseDimension::Mass, 1));
}

#[test]
fn units_normalize() {
    let mixed = Unit::Product(vec![
        (BaseDimension::Time, -1),
        (BaseDimension::Length, 2),
        (BaseDimension::Time, -1),
        (BaseDimension::Mass, 1),
        (BaseDimension::Mass, -1),
    ]);
    let normal = mixed.normalize();
    assert!(
        normal == Unit::Product(vec![(BaseDimension::Length, 2), (BaseDimension::Time, -2)])
    );
    assert!(normal.normalize() == normal);
    assert!(
        Unit::Base(BaseDimension::Angle, 3).normalize()
            == Unit::Base(BaseDimension::Angle, 3)
    );
    assert!(
        Unit::Product(vec![(BaseDimension::Angle, 3)]).normalize()
            == Unit::Base(BaseDimension::Angle, 3)
    );
    assert!(
        Unit::Product(vec![(BaseDimension::Time, 1), (BaseDimension::Time, -1)]).normalize()
            == Unit::Dimensionless
    );
    assert!(Unit::Base(BaseDimension::Mass, 0).normalize() == Unit::Dimensionless);
    assert!(Unit::Product(vec![]).normalize() == Unit::Dimensionless);
}

#[test]
fn symbols_are_found_under_their_identifiers() {
    let mut t = SymbolTable::new();
    let ty = CirType { kind: TypeKind::Real, unit: Unit::Dimensionless };
    let a = t.fresh_var("a".to_string(), ty.clone(), VarKind::State, Span::new("m", 1, 1));
    let b = t.fresh_var("b".to_string(), ty, VarKind::Constant, Span::new("m", 2, 1));
    assert!(a == VarId(0) && b == VarId(1));
    assert_eq!(t.var_info(a).unwrap().name, "a");
    assert!(t.var_info(b).unwrap().kind == VarKind::Constant);
    assert!(t.var_info(VarId(2)).is_none());
    let buffer = t.fresh_buffer("h".to_string(), a, 4, 128);
    assert!(buffer == BufferId(0));
    assert!(t.buffers.get(0).unwrap().var == a);
    assert_eq!(t.buffers.get(0).unwrap().depth, 4);
}

#[test]
fn record_fields_keep_their_places() {
    let mut fields = RecordFields::new();
    fields.insert("x".to_string(), TypeKind::Real);
    fields.insert("y".to_string(), TypeKind::Integer);
    fields.insert("x".to_string(), TypeKind::Boolean);
    assert_eq!(fields.entries.len(), 2);
    assert_eq!(fields.entries[0].0, "x");
    assert!(fields.entries[0].1 == TypeKind::Boolean);
    assert_eq!(fields.entries[1].0, "y");
}

#[test]
fn types_of_expressions() {
    let b = Expr::Const(ConstValue::Bool(true));
    assert!(b.ty().kind == TypeKind::Boolean);
    assert!(b.expect_bool().is_ok());
    let i = Expr::Const(ConstValue::Integer(3));
    assert!(i.ty().kind == TypeKind::Integer);
    match i.expect_bool() {
        Err(GuardError::Type { message, .. }) => {
            assert_eq!(message, "expected boolean expression, got Integer");
        }
        _ => panic!("a type error was expected"),
    }
}

#[test]
fn units_associate_and_have_a_neutral_one() {
    let a = Unit::Base(BaseDimension::Length, 2);
    let b = Unit::Product(vec![(BaseDimension::Time, -1), (BaseDimension::Mass, 3)]);
    let c = Unit::Base(BaseDimension::Time, 1);
    assert!(a.mul(&b).mul(&c) == a.mul(&b.mul(&c)));
    assert!(a.mul(&Unit::Dimensionless) == a);
    assert!(a.div(&Unit::Dimensionless) == a);
    assert!(b.div(&b) == Unit::Dimensionless);
}

#[test]
fn spans_cover_what_they_merge() {
    let a = Span { file: "f".to_string(), start_line: 1, start_col: 2, end_line: 3, end_col: 4 };
    let b = Span { file: "f".to_string(), start_line: 2, start_col: 1, end_line: 2, end_col: 9 };
    let c = Span { file: "f".to_string(), start_line: 0, start_col: 7, end_line: 8, end_col: 0 };
    assert!(a.merge(&b) == b.merge(&a));
    assert!(a.merge(&b).merge(&c) == a.merge(&b.merge(&c)));
    let m = a.merge(&b);
    assert!(m.start_line <= a.start_line && m.start_col <= b.start_col);
    assert!(m.end_line >= a.end_line && m.end_col >= b.end_col);
}

#[test]
fn tables_are_equal_in_whatever_order() {
    let mut a: Table<u8> = Table::new();
    a.insert(1, 10);
    a.insert(2, 20);
    let mut b: Table<u8> = Table::new();
    b.insert(2, 20);
    b.insert(1, 10);
    assert!(a == b);
    let mut c: Table<u8> = Table::new();
    c.insert(2, 10);
    c.insert(1, 20);
    assert!(a != c);
    c.insert(3, 0);
    assert!(a != c);
}

#[test]
fn records_are_equal_in_whatever_order() {
    let record = |names: &[&str], last: TypeKind| {
        let mut fields = RecordFields::new();
        for name in names {
            fields.insert(name.to_string(), TypeKind::Real);
        }
        fields.insert("k".to_string(), last);
        TypeKind::Record { fields }
    };
    let inner = || TypeKind::Array { size: 2, elem: Box::new(TypeKind::Boolean) };
    assert!(record(&["x", "y"], inner()) == record(&["y", "x"], inner()));
    assert!(record(&["x", "y"], inner()) != record(&["x", "z"], inner()));
    assert!(record(&["x", "y"], inner()) != record(&["x", "y"], TypeKind::Real));
    assert!(record(&["x"], inner()) != record(&["x", "y"], inner()));
    assert!(TypeKind::Enum(vec!["a".to_string()]) == TypeKind::Enum(vec!["a".to_string()]));
    assert!(TypeKind::Enum(vec!["a".to_string()]) != TypeKind::Enum(vec!["b".to_string()]));
    let copy = record(&["x", "y"], inner()).clone();
    assert!(copy == record(&["x", "y"], inner()));
}

#[test]
fn numbers_are_equal_like_floats() {
    let values: Vec<f64> = vec![0.0, -0.0, 1.0, -1.0, f64::INFINITY, f64::NEG_INFINITY, f64::NAN];
    for a in &values {
        for b in &values {
            assert_eq!(Real(a.to_bits()) == Real(b.to_bits()), a == b, "{} {}", a, b);
        }
    }
}
