use client_core::values::{Array, Boolean, Integer, NadaValue, UnsignedInteger};

#[test]
fn test_public_integer() {
    let integer = Integer::new(22);
    assert_eq!(integer.get_value(), 22);
}

#[test]
fn public_variable_tests_test_secret_unsigned_integer() {
    let integer = UnsignedInteger::new(22);
    assert_eq!(integer.get_value(), 22);
}

#[test]
fn test_public_boolean() {
    let boolean = Boolean::new(true);
    assert!(boolean.get_value());
}

#[test]
fn test_public_array_of_integers() {
    let array = Array::new(vec![NadaValue::Integer(22), NadaValue::Integer(44)]).unwrap();
    assert_eq!(array.__len__(), 2);
}

#[test]
fn test_public_array_int_value_eq() {
    let array = Array::new(vec![NadaValue::Integer(22), NadaValue::Integer(44)]).unwrap();
    let int_1 = Integer::new(22);
    let int_2 = Integer::new(44);
    assert_eq!(array.get_value(), vec![int_1.inner, int_2.inner]);
}
