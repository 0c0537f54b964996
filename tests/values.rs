use lua_compiler::value::{Decimal, Native, Value};

fn s(n: usize) -> Vec<u8> {
    vec![b'x'; n]
}

#[test]
fn string_form_follows_length() {
    assert!(matches!(Value::from_bytes(s(0)), Value::ShortStr(_)));
    assert!(matches!(Value::from_bytes(s(14)), Value::ShortStr(_)));
    assert!(matches!(Value::from_bytes(s(15)), Value::MidStr(_)));
    assert!(matches!(Value::from_bytes(s(47)), Value::MidStr(_)));
    assert!(matches!(Value::from_bytes(s(48)), Value::LongStr(_)));
}

#[test]
fn strings_keep_their_bytes() {
    for n in [0usize, 1, 14, 15, 47, 48, 200] {
        let v = Value::from_bytes(s(n));
        assert_eq!(v.str_bytes(), Some(s(n)));
        assert_eq!(v.to_text(), s(n));
    }
    assert_eq!(Value::Integer(3).str_bytes(), None);
}

#[test]
fn equality_is_structural() {
    assert_eq!(Value::from_bytes(b"abc".to_vec()), Value::from_bytes(b"abc".to_vec()));
    assert_ne!(Value::from_bytes(b"abc".to_vec()), Value::from_bytes(b"abd".to_vec()));
    assert_eq!(Value::from_bytes(s(30)), Value::from_bytes(s(30)));
    assert_ne!(Value::from_bytes(s(30)), Value::from_bytes(s(31)));
    assert_eq!(Value::from_bytes(s(60)), Value::from_bytes(s(60)));
    assert_ne!(Value::from_bytes(s(14)), Value::from_bytes(s(15)));
    assert_eq!(Value::Nil, Value::Nil);
    assert_eq!(Value::Boolean(true), Value::Boolean(true));
    assert_ne!(Value::Boolean(true), Value::Boolean(false));
    assert_eq!(Value::Integer(7), Value::Integer(7));
    assert_ne!(Value::Integer(7), Value::Nil);
    assert_eq!(Value::Function(Native::Print), Value::Function(Native::Print));
    assert_ne!(Value::Integer(0), Value::Boolean(false));
}

#[test]
fn clone_shares_long_strings() {
    let v = Value::from_bytes(s(100));
    let w = v.clone();
    assert_eq!(v, w);
    if let (Value::LongStr(a), Value::LongStr(b)) = (&v, &w) {
        assert!(std::rc::Rc::ptr_eq(a, b));
    } else {
        panic!("expected long strings");
    }
}

#[test]
fn text_of_each_kind() {
    assert_eq!(Value::Nil.to_text(), b"nil".to_vec());
    assert_eq!(Value::Boolean(true).to_text(), b"true".to_vec());
    assert_eq!(Value::Boolean(false).to_text(), b"false".to_vec());
    assert_eq!(Value::Integer(0).to_text(), b"0".to_vec());
    assert_eq!(Value::Integer(1234).to_text(), b"1234".to_vec());
    assert_eq!(Value::Integer(-56).to_text(), b"-56".to_vec());
    assert_eq!(Value::Integer(i64::MIN).to_text(), b"-9223372036854775808".to_vec());
    assert_eq!(Value::Function(Native::Print).to_text(), b"function".to_vec());
    let f = |int_part, frac, frac_len| Value::Float(Decimal { int_part, frac, frac_len }).to_text();
    assert_eq!(f(1, 5, 1), b"1.5".to_vec());
    assert_eq!(f(3, 0, 0), b"3.0".to_vec());
    assert_eq!(f(0, 5, 2), b"0.05".to_vec());
    assert_eq!(f(12, 25, 2), b"12.25".to_vec());
}
