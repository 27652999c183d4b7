use rata_wave::text::{decimal_string, join_path};
use rata_wave::value::{
    value_to_string, vector_contain_x_or_z, vector_to_base_10, vector_to_string, Value,
};

#[test]
fn values_have_their_characters() {
    assert_eq!(value_to_string(Value::V0), "0");
    assert_eq!(value_to_string(Value::V1), "1");
    assert_eq!(value_to_string(Value::X), "x");
    assert_eq!(value_to_string(Value::Z), "z");
}

#[test]
fn vectors_are_written_first_bit_first() {
    assert_eq!(vector_to_string(&vec![Value::V0, Value::V1, Value::X, Value::Z]), "01xz");
    assert_eq!(vector_to_string(&vec![]), "");
}

#[test]
fn x_and_z_are_found() {
    assert!(!vector_contain_x_or_z(&vec![]));
    assert!(!vector_contain_x_or_z(&vec![Value::V0, Value::V1]));
    assert!(vector_contain_x_or_z(&vec![Value::V0, Value::X]));
    assert!(vector_contain_x_or_z(&vec![Value::Z, Value::V1]));
}

#[test]
fn vectors_are_read_as_binary_numbers() {
    assert_eq!(vector_to_base_10(&vec![]), Some(0));
    assert_eq!(vector_to_base_10(&vec![Value::V1, Value::V0, Value::V1]), Some(5));
    assert_eq!(vector_to_base_10(&vec![Value::V0, Value::V0, Value::V1, Value::V1]), Some(3));
    assert_eq!(vector_to_base_10(&vec![Value::V1, Value::X]), None);
    assert_eq!(vector_to_base_10(&vec![Value::Z]), None);
    assert_eq!(vector_to_base_10(&vec![Value::V1; 64]), Some(u64::MAX));
    assert_eq!(vector_to_base_10(&vec![Value::V1; 65]), None);
    let mut padded = vec![Value::V0; 10];
    padded.extend(vec![Value::V1; 64]);
    assert_eq!(vector_to_base_10(&padded), Some(u64::MAX));
    let mut big = vec![Value::V1];
    big.extend(vec![Value::V0; 64]);
    assert_eq!(vector_to_base_10(&big), None);
}

#[test]
fn numbers_are_written_in_decimal() {
    assert_eq!(decimal_string(0), "0");
    assert_eq!(decimal_string(7), "7");
    assert_eq!(decimal_string(10), "10");
    assert_eq!(decimal_string(1234567890), "1234567890");
    assert_eq!(decimal_string(u64::MAX), "18446744073709551615");
}

#[test]
fn paths_are_joined_with_arrows() {
    let names = |list: &[&str]| list.iter().map(|s| s.to_string()).collect::<Vec<_>>();
    assert_eq!(join_path(&names(&[])), "");
    assert_eq!(join_path(&names(&["top"])), "top");
    assert_eq!(join_path(&names(&["outer", "inner"])), "outer->inner");
    assert_eq!(join_path(&names(&["", "a", ""])), "->a->");
}
