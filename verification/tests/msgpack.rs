use borg_extract::msgpack::Bytes;
use borg_extract::msgpack::DecodeError;
use borg_extract::msgpack::PythonValue;
use std::collections::HashMap;

#[test]
fn bytes_of_32_are_an_id() {
    let bytes = Bytes((0..32u8).collect());
    let id = bytes.to_id().unwrap();
    assert_eq!(id.to_vec(), bytes.0);
    assert_eq!(id[0], 0);
    assert_eq!(id[31], 31);
}

#[test]
fn bytes_of_other_lengths_are_no_id() {
    assert_eq!(Bytes(Vec::new()).to_id(), Err(DecodeError::IdLength));
    assert_eq!(Bytes(vec![0; 31]).to_id(), Err(DecodeError::IdLength));
    assert_eq!(Bytes(vec![0; 33]).to_id(), Err(DecodeError::IdLength));
}

#[test]
fn bytes_clone_is_equal() {
    let bytes = Bytes(vec![1, 2, 3]);
    assert_eq!(bytes.clone(), bytes);
}

#[test]
fn value_clone_is_equal() {
    let value = PythonValue::Sequence(vec![
        PythonValue::String(String::from("a")),
        PythonValue::Bytes(vec![1, 2]),
        PythonValue::U8(1),
        PythonValue::U16(2),
        PythonValue::U32(3),
        PythonValue::U64(4),
        PythonValue::U128(5),
        PythonValue::I8(-1),
        PythonValue::I16(-2),
        PythonValue::I32(-3),
        PythonValue::I64(-4),
        PythonValue::I128(-5),
        PythonValue::Sequence(vec![PythonValue::Sequence(Vec::new())]),
    ]);
    assert_eq!(value.clone(), value);
}

#[test]
fn values_of_different_width_differ() {
    assert_ne!(PythonValue::U8(1), PythonValue::U16(1));
    assert_ne!(PythonValue::U8(1), PythonValue::I8(1));
    assert_ne!(
        PythonValue::String(String::from("a")),
        PythonValue::Bytes(b"a".to_vec())
    );
    assert_eq!(PythonValue::I64(-7), PythonValue::I64(-7));
}

#[test]
fn values_are_map_keys() {
    let mut map: HashMap<PythonValue, PythonValue> = HashMap::new();
    map.insert(PythonValue::U32(1), PythonValue::String(String::from("one")));
    map.insert(PythonValue::U64(1), PythonValue::String(String::from("wide one")));
    map.insert(PythonValue::Bytes(vec![1]), PythonValue::U8(9));
    assert_eq!(map.len(), 3);
    assert_eq!(
        map.get(&PythonValue::U32(1)),
        Some(&PythonValue::String(String::from("one")))
    );
    assert_eq!(map.get(&PythonValue::Bytes(vec![1])), Some(&PythonValue::U8(9)));
    assert_eq!(map.get(&PythonValue::U8(1)), None);
}
