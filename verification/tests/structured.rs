use bpx::error::Error;
use bpx::sd::load_structured_data;
use bpx::sd::same_array;
use bpx::sd::same_object;
use bpx::sd::same_value;
use bpx::sd::write_array;
use bpx::sd::write_structured_data;
use bpx::sd::Array;
use bpx::sd::DebugSymbols;
use bpx::sd::Object;
use bpx::sd::Value;
use bpx::utils::hash;

fn value_eq(a: &Value, b: &Value) -> bool {
    match (a, b) {
        (Value::Null, Value::Null) => true,
        (Value::Bool(x), Value::Bool(y)) => x == y,
        (Value::Uint8(x), Value::Uint8(y)) => x == y,
        (Value::Uint16(x), Value::Uint16(y)) => x == y,
        (Value::Uint32(x), Value::Uint32(y)) => x == y,
        (Value::Uint64(x), Value::Uint64(y)) => x == y,
        (Value::Int8(x), Value::Int8(y)) => x == y,
        (Value::Int16(x), Value::Int16(y)) => x == y,
        (Value::Int32(x), Value::Int32(y)) => x == y,
        (Value::Int64(x), Value::Int64(y)) => x == y,
        (Value::Float(x), Value::Float(y)) => x == y,
        (Value::Double(x), Value::Double(y)) => x == y,
        (Value::String(x), Value::String(y)) => x == y,
        (Value::Array(x), Value::Array(y)) => array_eq(x, y),
        (Value::Object(x), Value::Object(y)) => object_eq(x, y),
        _ => false,
    }
}

fn array_eq(a: &Array, b: &Array) -> bool {
    a.len() == b.len() && (0..a.len()).all(|i| value_eq(a.get(i).unwrap(), b.get(i).unwrap()))
}

fn object_eq(a: &Object, b: &Object) -> bool {
    a.get_keys() == b.get_keys()
        && a.get_keys().iter().all(|k| value_eq(a.raw_get(*k).unwrap(), b.raw_get(*k).unwrap()))
}

fn sample_object() -> Object {
    let mut inner_array = Array::new();
    inner_array.add(Value::Uint8(7));
    inner_array.add(Value::String(String::from("deep")));
    let mut inner_object = Object::new();
    inner_object.set("list", Value::Array(inner_array));
    inner_object.set("flag", Value::Bool(false));
    let mut array = Array::new();
    array.add(Value::Object(inner_object));
    array.add(Value::Null);
    let mut obj = Object::new();
    obj.set("null", Value::Null);
    obj.set("bool", Value::Bool(true));
    obj.set("u8", Value::Uint8(200));
    obj.set("u16", Value::Uint16(0xBEEF));
    obj.set("u32", Value::Uint32(0xDEADBEEF));
    obj.set("u64", Value::Uint64(0x0123456789ABCDEF));
    obj.set("i8", Value::Int8(-5));
    obj.set("i16", Value::Int16(-300));
    obj.set("i32", Value::Int32(i32::MIN));
    obj.set("i64", Value::Int64(-1));
    obj.set("f32", Value::Float(1.5f32.to_bits()));
    obj.set("f64", Value::Double((-0.25f64).to_bits()));
    obj.set("string", Value::String(String::from("héllo")));
    obj.set("array", Value::Array(array));
    obj
}

#[test]
fn hash_of_foo() {
    assert_eq!(hash("foo"), 193491849);
    assert_eq!(hash(""), 5381);
    assert_eq!(hash("a"), 5381 * 33 + 97);
    assert_eq!(hash("foo"), hash(&String::from("foo")));
    // Long names wrap around at 64 bits.
    let long = "x".repeat(64);
    let mut expected: u64 = 5381;
    for _ in 0..64 {
        expected = expected.wrapping_mul(33).wrapping_add(b'x' as u64);
    }
    assert_eq!(hash(&long), expected);
}

#[test]
fn set_then_get() {
    let mut obj = Object::new();
    obj.set("foo", Value::Uint32(42));
    assert!(value_eq(obj.get("foo").unwrap(), &Value::Uint32(42)));
    assert!(value_eq(obj.raw_get(193491849).unwrap(), &Value::Uint32(42)));
    assert!(obj.get("bar").is_none());
    obj.set("foo", Value::Bool(true));
    assert!(value_eq(obj.get("foo").unwrap(), &Value::Bool(true)));
    assert_eq!(obj.prop_count(), 1);
    obj.raw_set(5, Value::Null);
    assert_eq!(obj.prop_count(), 2);
    assert_eq!(obj.get_keys(), vec![193491849, 5]);
}

#[test]
fn object_with_every_type_reads_back() {
    let obj = sample_object();
    let mut bytes = Vec::new();
    write_structured_data(&mut bytes, &obj).unwrap();
    let read = load_structured_data(&bytes).unwrap();
    assert!(object_eq(&obj, &read));
    assert_eq!(read.prop_count(), 14);
    match read.get("f32").unwrap() {
        Value::Float(bits) => assert_eq!(f32::from_bits(*bits), 1.5),
        _ => panic!("not a float"),
    }
    match read.get("f64").unwrap() {
        Value::Double(bits) => assert_eq!(f64::from_bits(*bits), -0.25),
        _ => panic!("not a double"),
    }
    // What follows the object is not looked at.
    bytes.extend_from_slice(&[0xFF, 0xFF]);
    assert!(object_eq(&obj, &load_structured_data(&bytes).unwrap()));
}

#[test]
fn exact_encoding() {
    let mut array = Array::new();
    array.add(Value::Int16(-2));
    array.add(Value::String(String::from("ab")));
    let mut obj = Object::new();
    obj.raw_set(0x0807060504030201, Value::Uint32(0x0A0B0C0D));
    obj.raw_set(1, Value::Array(array));
    obj.raw_set(2, Value::Bool(true));
    obj.raw_set(3, Value::Int8(-1));
    let mut bytes = vec![0x77];
    write_structured_data(&mut bytes, &obj).unwrap();
    let expected = vec![
        0x77, // what was there before
        4, // four properties
        1, 2, 3, 4, 5, 6, 7, 8, 0x4, 0x0D, 0x0C, 0x0B, 0x0A, // u32
        1, 0, 0, 0, 0, 0, 0, 0, 0xD, 2, // array of two
        0x7, 0xFE, 0xFF, // i16 -2
        0xC, b'a', b'b', 0, // string
        2, 0, 0, 0, 0, 0, 0, 0, 0x1, 1, // bool
        3, 0, 0, 0, 0, 0, 0, 0, 0x6, 0xFF, // i8 -1
    ];
    assert_eq!(bytes, expected);
}

#[test]
fn two_hundred_and_fifty_five_values_fit() {
    let mut array = Array::new();
    let mut obj = Object::new();
    for i in 0..255u64 {
        array.add(Value::Uint8(i as u8));
        obj.raw_set(i, Value::Uint64(i));
    }
    obj.raw_set(3, Value::Array(array));
    assert_eq!(obj.prop_count(), 255);
    let mut bytes = Vec::new();
    write_structured_data(&mut bytes, &obj).unwrap();
    assert_eq!(bytes[0], 255);
    let read = load_structured_data(&bytes).unwrap();
    assert!(object_eq(&obj, &read));
}

#[test]
fn two_hundred_and_fifty_six_values_do_not_fit() {
    let mut obj = Object::new();
    for i in 0..256u64 {
        obj.raw_set(i, Value::Null);
    }
    let mut bytes = vec![1, 2, 3];
    assert_eq!(write_structured_data(&mut bytes, &obj), Err(Error::TooManyValues));
    assert_eq!(bytes, vec![1, 2, 3]);
    let mut array = Array::new();
    for _ in 0..256 {
        array.add(Value::Null);
    }
    let mut holder = Object::new();
    holder.set("a", Value::Array(array));
    assert_eq!(write_structured_data(&mut bytes, &holder), Err(Error::TooManyValues));
}

#[test]
fn truncated_input_is_refused() {
    let obj = sample_object();
    let mut bytes = Vec::new();
    write_structured_data(&mut bytes, &obj).unwrap();
    for len in 0..bytes.len() {
        let result = load_structured_data(&bytes[..len]);
        assert!(result.is_err(), "a prefix of {} bytes was taken", len);
    }
    assert_eq!(load_structured_data(&[]).err(), Some(Error::UnexpectedEof));
    assert_eq!(load_structured_data(&[1, 0, 0, 0]).err(), Some(Error::UnexpectedEof));
    // A string without its zero byte.
    let unterminated = [1, 0, 0, 0, 0, 0, 0, 0, 0, 0xC, b'a'];
    assert_eq!(load_structured_data(&unterminated).err(), Some(Error::UnexpectedEof));
}

#[test]
fn unknown_type_code_is_refused() {
    let bytes = [1, 0, 0, 0, 0, 0, 0, 0, 0, 0xF];
    assert_eq!(load_structured_data(&bytes).err(), Some(Error::UnknownTypeCode(0xF)));
    let in_array = [1, 0, 0, 0, 0, 0, 0, 0, 0, 0xD, 1, 0x63];
    assert_eq!(load_structured_data(&in_array).err(), Some(Error::UnknownTypeCode(0x63)));
}

#[test]
fn invalid_utf8_is_refused() {
    let bytes = [1, 0, 0, 0, 0, 0, 0, 0, 0, 0xC, 0xFF, 0xFE, 0];
    assert_eq!(load_structured_data(&bytes).err(), Some(Error::InvalidUtf8));
}

#[test]
fn repeated_hash_replaces() {
    let bytes = [2, 9, 0, 0, 0, 0, 0, 0, 0, 0x2, 5, 9, 0, 0, 0, 0, 0, 0, 0, 0x2, 6];
    let obj = load_structured_data(&bytes).unwrap();
    assert_eq!(obj.prop_count(), 1);
    assert!(value_eq(obj.raw_get(9).unwrap(), &Value::Uint8(6)));
}

#[test]
fn array_operations() {
    let mut array = Array::new();
    assert_eq!(array.len(), 0);
    array.add(Value::Uint8(1));
    array.add(Value::Uint8(2));
    array.add(Value::Uint8(3));
    array.remove_at(1);
    assert_eq!(array.len(), 2);
    assert!(value_eq(array.get(0).unwrap(), &Value::Uint8(1)));
    assert!(value_eq(array.get(1).unwrap(), &Value::Uint8(3)));
    assert!(array.get(2).is_none());
}

#[test]
fn debug_symbols() {
    let mut obj = Object::new();
    obj.set("Name", Value::Uint8(1));
    obj.set("Other", Value::Uint8(2));
    let without = DebugSymbols::load(&obj).unwrap();
    assert_eq!(without.lookup(hash("Name")), format!("{:#X}", hash("Name")));
    assert_eq!(hash("CompilerName"), 13357407531024931553);
    assert_eq!(hash("CompilerVersion"), 3980156383507904774);
    assert_eq!(hash("Platform"), 7571437666223914);
    assert_eq!(hash("Arch"), 6383904323);
    assert_eq!(without.lookup(255), "0xFF");
    assert_eq!(without.lookup(0), "0x0");
    assert_eq!(without.lookup(u64::MAX), "0xFFFFFFFFFFFFFFFF");
    assert_eq!(without.lookup(0x1234567890ABCDEF), "0x1234567890ABCDEF");
    obj.add_debug_info();
    assert_eq!(obj.prop_count(), 3);
    let mut bytes = Vec::new();
    write_structured_data(&mut bytes, &obj).unwrap();
    let read = load_structured_data(&bytes).unwrap();
    let symbols = DebugSymbols::load(&read).unwrap();
    assert_eq!(symbols.lookup(hash("Name")), "Name");
    assert_eq!(symbols.lookup(hash("Other")), "Other");
    assert_eq!(symbols.lookup(hash("__debug__")), format!("{:#X}", hash("__debug__")));
    assert_eq!(symbols.lookup(17), "0x11");
}

#[test]
fn bad_debug_symbols_are_refused() {
    let mut obj = Object::new();
    obj.set("__debug__", Value::Uint8(1));
    assert_eq!(DebugSymbols::load(&obj).err(), Some(Error::BadDebugSymbols));
    let mut array = Array::new();
    array.add(Value::String(String::from("a")));
    array.add(Value::Null);
    let mut obj = Object::new();
    obj.set("__debug__", Value::Array(array));
    assert_eq!(DebugSymbols::load(&obj).err(), Some(Error::BadDebugSymbols));
}

#[test]
fn sameness_of_values() {
    let obj = sample_object();
    let other = sample_object();
    assert!(same_object(&obj, &other));
    assert!(same_value(&Value::Object(sample_object()), &Value::Object(sample_object())));
    assert!(!same_value(&Value::Uint8(1), &Value::Uint16(1)));
    assert!(!same_value(&Value::Uint8(1), &Value::Uint8(2)));
    assert!(same_value(&Value::String(String::from("a")), &Value::String(String::from("a"))));
    assert!(!same_value(&Value::Null, &Value::Bool(false)));
    let mut changed = sample_object();
    changed.set("deep", Value::Null);
    assert!(!same_object(&obj, &changed));
    let mut shorter = Array::new();
    shorter.add(Value::Null);
    let mut longer = Array::new();
    longer.add(Value::Null);
    longer.add(Value::Null);
    assert!(!same_array(&shorter, &longer));
    let mut bytes = Vec::new();
    write_structured_data(&mut bytes, &obj).unwrap();
    assert!(same_object(&obj, &load_structured_data(&bytes).unwrap()));
}

#[test]
fn removing_values_from_an_array() {
    let mut array = Array::new();
    for v in [1u8, 2, 1, 3, 1] {
        array.add(Value::Uint8(v));
    }
    array.add(Value::Uint16(1));
    array.remove(Value::Uint8(1));
    assert_eq!(array.len(), 3);
    assert!(same_value(array.get(0).unwrap(), &Value::Uint8(2)));
    assert!(same_value(array.get(1).unwrap(), &Value::Uint8(3)));
    assert!(same_value(array.get(2).unwrap(), &Value::Uint16(1)));
    array.remove(Value::Null);
    assert_eq!(array.len(), 3);
}

#[test]
fn objects_are_the_same_in_any_order() {
    let mut inner_a = Object::new();
    inner_a.set("x", Value::Uint8(1));
    inner_a.set("y", Value::String(String::from("s")));
    let mut inner_b = Object::new();
    inner_b.set("y", Value::String(String::from("s")));
    inner_b.set("x", Value::Uint8(1));
    let mut a = Object::new();
    a.set("one", Value::Object(inner_a));
    a.set("two", Value::Null);
    let mut b = Object::new();
    b.set("two", Value::Null);
    b.set("one", Value::Object(inner_b));
    assert!(same_object(&a, &b));
    assert!(same_object(&b, &a));
    // One property more on either side tells them apart.
    let mut more = Object::new();
    more.set("two", Value::Null);
    assert!(!same_object(&a, &more));
    assert!(!same_object(&more, &a));
    // The same hashes with another value tell them apart.
    b.set("two", Value::Bool(false));
    assert!(!same_object(&a, &b));
    // Arrays keep their order.
    let mut forth = Array::new();
    forth.add(Value::Uint8(1));
    forth.add(Value::Uint8(2));
    let mut back = Array::new();
    back.add(Value::Uint8(2));
    back.add(Value::Uint8(1));
    assert!(!same_array(&forth, &back));
}

#[test]
fn removing_an_object_from_an_array() {
    let object = |first: &str, second: &str| {
        let mut o = Object::new();
        o.set(first, Value::Uint8(1));
        o.set(second, Value::Uint8(1));
        Value::Object(o)
    };
    let mut array = Array::new();
    array.add(object("a", "b"));
    array.add(Value::Null);
    array.add(object("b", "a"));
    array.add(object("a", "c"));
    array.remove(object("b", "a"));
    assert_eq!(array.len(), 2);
    assert!(same_value(array.get(0).unwrap(), &Value::Null));
    assert!(same_value(array.get(1).unwrap(), &object("c", "a")));
}

#[test]
fn array_writer() {
    let mut array = Array::new();
    array.add(Value::Uint8(9));
    array.add(Value::Bool(true));
    let mut nested = Array::new();
    nested.add(Value::Null);
    array.add(Value::Array(nested));
    assert_eq!(write_array(&array), Ok(vec![3, 0x2, 9, 0x1, 1, 0xD, 1, 0x0]));
    let mut full = Array::new();
    for _ in 0..255 {
        full.add(Value::Null);
    }
    let bytes = write_array(&full).unwrap();
    assert_eq!(bytes.len(), 256);
    assert_eq!(bytes[0], 255);
    full.add(Value::Null);
    assert_eq!(write_array(&full), Err(Error::TooManyValues));
    let mut outer = Array::new();
    outer.add(Value::Array(full));
    assert_eq!(write_array(&outer), Err(Error::TooManyValues));
}

#[test]
fn later_symbol_of_one_hash_counts() {
    let mut names = Array::new();
    names.add(Value::String(String::from("first")));
    names.add(Value::String(String::from("second")));
    names.add(Value::String(String::from("first")));
    let mut obj = Object::new();
    obj.set("__debug__", Value::Array(names));
    let symbols = DebugSymbols::load(&obj).unwrap();
    assert_eq!(symbols.lookup(hash("first")), "first");
    assert_eq!(symbols.lookup(hash("second")), "second");
    assert_eq!(symbols.lookup(1), "0x1");
}
