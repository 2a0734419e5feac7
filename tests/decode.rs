use fixed_width::{
    from_bytes_with_fields, from_str_with_fields, DeserializeError, Deserializer, FieldSet,
    IntKind, Shape, Value,
};

fn one(range: std::ops::Range<usize>) -> FieldSet {
    FieldSet::new_field(range)
}

fn int_of(v: Value) -> i128 {
    match v {
        Value::Int(i) => i,
        other => panic!("expected an integer, got {:?}", other),
    }
}

fn text(v: Value) -> String {
    match v {
        Value::Str(s) => s,
        other => panic!("expected text, got {:?}", other),
    }
}

fn members(v: Value) -> Vec<Value> {
    match v {
        Value::List(xs) => xs,
        other => panic!("expected a list, got {:?}", other),
    }
}

fn float_text(v: Value) -> String {
    match v {
        Value::Float(s) => s,
        other => panic!("expected a float, got {:?}", other),
    }
}

fn test1_fields() -> FieldSet {
    FieldSet::Sequence(vec![
        FieldSet::new_field(0..3).name("a"),
        FieldSet::new_field(3..6).name("b"),
        FieldSet::new_field(6..10),
        FieldSet::new_field(10..13).name("d"),
    ])
}

fn test1_shape() -> Shape {
    Shape::Tuple(vec![
        Shape::Int(IntKind::U64),
        Shape::Str,
        Shape::Float,
        Shape::Optional(Box::new(Shape::Int(IntKind::U64))),
    ])
}

fn check_test1(v: Value) {
    let mut m = members(v).into_iter();
    assert_eq!(int_of(m.next().unwrap()), 123);
    assert_eq!(text(m.next().unwrap()), "abc");
    assert_eq!(float_text(m.next().unwrap()).parse::<f64>().unwrap(), 9876.0);
    match m.next().unwrap() {
        Value::Present(x) => assert_eq!(int_of(*x), 12),
        other => panic!("expected a value, got {:?}", other),
    }
}

#[test]
fn bool_de() {
    let t = from_bytes_with_fields(b"1", one(0..1), &Shape::Bool).unwrap();
    let f = from_bytes_with_fields(b"0", one(0..1), &Shape::Bool).unwrap();

    assert!(matches!(t, Value::Bool(true)));
    assert!(matches!(f, Value::Bool(false)));
}

#[test]
fn int_de() {
    let read = |b: &[u8], k: IntKind| int_of(from_bytes_with_fields(b, one(0..4), &Shape::Int(k)).unwrap());

    assert_eq!(read(b"0123", IntKind::U8), 123);
    assert_eq!(read(b"-123", IntKind::I8), -123);
    assert_eq!(read(b"0123", IntKind::U16), 123);
    assert_eq!(read(b"-123", IntKind::I16), -123);
    assert_eq!(read(b"0123", IntKind::U32), 123);
    assert_eq!(read(b"-123", IntKind::I32), -123);
    assert_eq!(read(b"0123", IntKind::U64), 123);
    assert_eq!(read(b"-123", IntKind::I64), -123);
}

#[test]
fn int_errors() {
    let read = |b: &[u8], k: IntKind| from_bytes_with_fields(b, one(0..b.len()), &Shape::Int(k));

    assert!(matches!(read(b"-123", IntKind::U32), Err(DeserializeError::ParseIntError)));
    assert!(matches!(read(b"256", IntKind::U8), Err(DeserializeError::ParseIntError)));
    assert!(matches!(read(b"-129", IntKind::I8), Err(DeserializeError::ParseIntError)));
    assert!(matches!(read(b"12a", IntKind::I32), Err(DeserializeError::ParseIntError)));
    assert!(matches!(read(b"    ", IntKind::I32), Err(DeserializeError::ParseIntError)));
    assert!(matches!(read(b"+", IntKind::I32), Err(DeserializeError::ParseIntError)));
    assert_eq!(int_of(read(b"+42", IntKind::U8).unwrap()), 42);
    assert_eq!(int_of(read(b"-128", IntKind::I8).unwrap()), -128);
    assert_eq!(int_of(read(b"18446744073709551615", IntKind::U64).unwrap()), 18446744073709551615);
    assert!(matches!(
        read(b"18446744073709551616", IntKind::U64),
        Err(DeserializeError::ParseIntError)
    ));
    assert_eq!(
        int_of(read(b"-9223372036854775808", IntKind::I64).unwrap()),
        -9223372036854775808
    );
}

#[test]
fn float_de() {
    let read = |b: &[u8]| float_text(from_bytes_with_fields(b, one(0..6), &Shape::Float).unwrap());

    let pos_f32: f32 = read(b"0123.1").parse().unwrap();
    let neg_f32: f32 = read(b"-123.1").parse().unwrap();
    assert_eq!(pos_f32, 123.1);
    assert_eq!(neg_f32, -123.1);

    let pos_f64: f64 = read(b"0123.1").parse().unwrap();
    let neg_f64: f64 = read(b"-123.1").parse().unwrap();
    assert_eq!(pos_f64, 123.1);
    assert_eq!(neg_f64, -123.1);
}

#[test]
fn str_de() {
    let s = text(from_bytes_with_fields(b"foobar", one(0..6), &Shape::Str).unwrap());
    assert_eq!(s, "foobar");
}

#[test]
fn string_de() {
    let s = text(from_bytes_with_fields(b"foobar", one(0..6), &Shape::Str).unwrap());
    assert_eq!(s, "foobar");
}

#[test]
fn char_de() {
    let c = from_bytes_with_fields(b"f", one(0..1), &Shape::Char).unwrap();
    assert!(matches!(c, Value::Char('f')));
}

#[test]
fn bytes_de() {
    match from_bytes_with_fields(b"foobar", one(0..6), &Shape::Bytes).unwrap() {
        Value::Bytes(b) => assert_eq!(b, b"foobar".to_vec()),
        other => panic!("expected bytes, got {:?}", other),
    }
}

#[test]
fn byte_buf_de() {
    match from_bytes_with_fields(b"foobar", one(0..6), &Shape::Bytes).unwrap() {
        Value::Bytes(b) => assert_eq!(&b[..], b"foobar"),
        other => panic!("expected bytes, got {:?}", other),
    }
}

#[test]
fn bytes_keep_padding() {
    match from_bytes_with_fields(b" ab ", one(0..4), &Shape::Bytes).unwrap() {
        Value::Bytes(b) => assert_eq!(b, b" ab ".to_vec()),
        other => panic!("expected bytes, got {:?}", other),
    }
}

#[test]
fn option_de() {
    let shape = Shape::Optional(Box::new(Shape::Char));
    let c = from_bytes_with_fields(b"c", one(0..1), &shape).unwrap();
    match c {
        Value::Present(x) => assert!(matches!(*x, Value::Char('c'))),
        other => panic!("expected a value, got {:?}", other),
    }

    let c = from_bytes_with_fields(b" ", one(0..1), &shape).unwrap();
    assert!(matches!(c, Value::Absent));
}

#[test]
fn unit_de() {
    let u = from_bytes_with_fields(b"c", one(0..1), &Shape::Unit).unwrap();
    assert!(matches!(u, Value::Unit));
}

#[test]
fn unit_struct_de() {
    let u = from_bytes_with_fields(b"123", one(0..3), &Shape::Unit).unwrap();
    assert!(matches!(u, Value::Unit));
}

#[test]
fn newtype_struct_de() {
    let nt = from_bytes_with_fields(b"123", one(0..3), &Shape::Int(IntKind::U64)).unwrap();
    assert_eq!(int_of(nt), 123);
}

#[test]
fn seq_de() {
    let fields = FieldSet::Sequence(vec![one(0..3), one(3..6)]);
    let shape = Shape::List(Box::new(Shape::Int(IntKind::U64)));
    let v: Vec<i128> = members(from_bytes_with_fields(b"111222", fields, &shape).unwrap())
        .into_iter()
        .map(int_of)
        .collect();
    assert_eq!(v, vec![111, 222]);
}

#[test]
fn seq_of_nothing_is_refused() {
    let fields = FieldSet::Sequence(vec![one(0..3).name("A")]);
    let shape = Shape::List(Box::new(Shape::Enum(vec![("A".to_string(), false)])));
    let r = from_bytes_with_fields(b"111", fields, &shape);
    assert!(matches!(r, Err(DeserializeError::Unsupported(_))));
}

#[test]
fn struct_de() {
    let input = b"123abc9876 12";
    let test = from_bytes_with_fields(input, test1_fields(), &test1_shape()).unwrap();
    check_test1(test);
}

#[test]
fn tuple_de() {
    let fields = FieldSet::Sequence(vec![one(0..3), one(3..6)]);
    let shape = Shape::Tuple(vec![Shape::Int(IntKind::U64), Shape::Int(IntKind::U64)]);
    let t: Vec<i128> = members(from_bytes_with_fields(b"111222", fields, &shape).unwrap())
        .into_iter()
        .map(int_of)
        .collect();
    assert_eq!(t, vec![111, 222]);
}

#[test]
fn tuple_struct_de() {
    let fields = FieldSet::Sequence(vec![one(0..3), one(3..6)]);
    let shape = Shape::Tuple(vec![Shape::Int(IntKind::U64), Shape::Int(IntKind::U64)]);
    let t: Vec<i128> = members(from_bytes_with_fields(b"111222", fields, &shape).unwrap())
        .into_iter()
        .map(int_of)
        .collect();
    assert_eq!(t, vec![111, 222]);
}

#[test]
fn exhausted_fields() {
    let fields = FieldSet::Sequence(vec![one(0..3)]);
    let shape = Shape::Tuple(vec![Shape::Int(IntKind::U64), Shape::Int(IntKind::U64)]);
    let r = from_bytes_with_fields(b"111222", fields, &shape);
    assert!(matches!(r, Err(DeserializeError::UnexpectedEndOfRecord)));
}

fn entries(v: Value) -> Vec<(String, Value)> {
    match v {
        Value::Entries(es) => es,
        other => panic!("expected entries, got {:?}", other),
    }
}

fn lookup(es: &[(String, Value)], key: &str) -> String {
    for (k, v) in es {
        if k == key {
            if let Value::Str(s) = v {
                return s.clone();
            }
        }
    }
    panic!("no text under {}", key)
}

#[test]
fn hashmap_de() {
    let input = b"123abc9876 12";
    let mut de = Deserializer::new(input, test1_fields());
    let test = entries(de.read(&Shape::Keyed(Box::new(Shape::Str))).unwrap());

    assert_eq!(lookup(&test, "a"), "123");
    assert_eq!(lookup(&test, "b"), "abc");
    assert_eq!(lookup(&test, "6..10"), "9876");
    assert_eq!(lookup(&test, "d"), "12");
}

#[test]
fn map_with_synthesized_keys() {
    let fields = FieldSet::Sequence(vec![one(0..4).name("numbers"), one(4..8)]);
    let es = entries(
        from_bytes_with_fields(b"1234abcd", fields, &Shape::Keyed(Box::new(Shape::Str))).unwrap(),
    );
    assert_eq!(es.len(), 2);
    assert_eq!(es[0].0, "numbers");
    assert_eq!(lookup(&es, "numbers"), "1234");
    assert_eq!(es[1].0, "4..8");
    assert_eq!(lookup(&es, "4..8"), "abcd");
}

#[test]
fn untagged_enum_de() {
    let fields = one(0..3).name("Int");
    let e = from_bytes_with_fields(b"111", fields, &Shape::Any).unwrap();
    assert_eq!(int_of(e), 111);
}

#[test]
fn tagged_enum_de() {
    let fields = FieldSet::Sequence(vec![one(0..3).name("a")]);
    let e = from_bytes_with_fields(b"111", fields, &Shape::Tuple(vec![Shape::Any])).unwrap();
    let mut m = members(e);
    assert_eq!(int_of(m.remove(0)), 111);
}

#[test]
fn any_readings() {
    let read = |b: &[u8]| from_bytes_with_fields(b, one(0..b.len()), &Shape::Any).unwrap();
    assert!(matches!(read(b"1"), Value::Bool(true)));
    assert!(matches!(read(b" 0"), Value::Bool(false)));
    assert!(matches!(read(b"x"), Value::Char('x')));
    assert_eq!(int_of(read(b"-42")), -42);
    assert_eq!(text(read(b"4.5")), "4.5");
    assert_eq!(text(read(b"abc ")), "abc");
}

#[test]
fn unit_variant_de() {
    let vs = vec![("Red".to_string(), false), ("Blue".to_string(), false), ("Rgb".to_string(), true)];
    let fields = FieldSet::Sequence(vec![one(0..3).name("Blue")]);
    match from_bytes_with_fields(b"xyz", fields, &Shape::Enum(vs.clone())).unwrap() {
        Value::Variant(n) => assert_eq!(n, "Blue"),
        other => panic!("expected a variant, got {:?}", other),
    }

    let fields = FieldSet::Sequence(vec![one(0..3).name("Rgb")]);
    let r = from_bytes_with_fields(b"xyz", fields, &Shape::Enum(vs.clone()));
    assert!(matches!(r, Err(DeserializeError::Unsupported(_))));

    let fields = FieldSet::Sequence(vec![one(0..3)]);
    let r = from_bytes_with_fields(b"xyz", fields, &Shape::Enum(vs.clone()));
    assert!(matches!(r, Err(DeserializeError::Message(_))));

    let fields = FieldSet::Sequence(vec![one(0..3).name("Green")]);
    let r = from_bytes_with_fields(b"xyz", fields, &Shape::Enum(vs));
    assert!(matches!(r, Err(DeserializeError::Message(_))));
}

#[test]
fn from_str_de() {
    let s = "123abc9876 12";
    let test = from_str_with_fields(s, test1_fields(), &test1_shape()).unwrap();
    check_test1(test);
}

#[test]
fn from_bytes_de() {
    let b = b"123abc9876 12";
    let test = from_bytes_with_fields(b, test1_fields(), &test1_shape()).unwrap();
    check_test1(test);
}

#[test]
fn test_from_str_with_fields() {
    let fields = FieldSet::Sequence(vec![one(0..3).name("a")]);
    let e = from_str_with_fields("111", fields, &Shape::Tuple(vec![Shape::Any])).unwrap();
    assert_eq!(int_of(members(e).remove(0)), 111);
}

#[test]
fn test_does_not_panic_for_empty_char() {
    let fields = FieldSet::Sequence(vec![one(0..1)]);
    let tc = from_bytes_with_fields(b"  ", fields, &Shape::Tuple(vec![Shape::Char])).unwrap();
    assert!(matches!(members(tc)[0], Value::Char(' ')));
}

#[test]
fn test_does_not_panic_for_empty_bool() {
    let fields = FieldSet::Sequence(vec![one(0..1)]);
    let tc = from_bytes_with_fields(b"  ", fields, &Shape::Tuple(vec![Shape::Bool])).unwrap();
    assert!(matches!(members(tc)[0], Value::Bool(false)));
}

#[test]
fn long_flag_and_char_are_refused() {
    let r = from_bytes_with_fields(b"ab", one(0..2), &Shape::Bool);
    assert!(matches!(r, Err(DeserializeError::Message(_))));
    let r = from_bytes_with_fields(b"ab", one(0..2), &Shape::Char);
    assert!(matches!(r, Err(DeserializeError::Message(_))));
}

#[test]
fn invalid_utf8_is_refused() {
    let r = from_bytes_with_fields(&[0x66, 0xff, 0x20], one(0..3), &Shape::Str);
    assert!(matches!(r, Err(DeserializeError::InvalidUtf8)));
}

#[test]
fn range_past_the_record() {
    let r = from_bytes_with_fields(b"abc", one(1..5), &Shape::Str);
    assert!(matches!(r, Err(DeserializeError::UnexpectedEndOfRecord)));
}

#[test]
fn trim_ignores_pad_character() {
    let fields = one(0..5).pad_with('x');
    let s = text(from_bytes_with_fields(b"abxxx", fields, &Shape::Str).unwrap());
    assert_eq!(s, "abxxx");
}

#[test]
fn deserializer_steps() {
    let mut de = Deserializer::new(b" ab 12", FieldSet::Sequence(vec![one(0..4), one(4..6)]));
    assert_eq!(de.get_ref(), b" ab 12");
    assert!(!de.done());
    assert_eq!(de.peek_str().unwrap(), "ab");
    assert_eq!(de.peek_bytes().unwrap(), b" ab ");
    assert_eq!(de.next_key().unwrap(), "0..4");
    assert_eq!(de.next_str().unwrap(), "ab");
    assert_eq!(de.next_bytes().unwrap(), b"12");
    assert!(de.done());
    de.skip_field();
    assert!(de.done());
    assert!(matches!(de.next_str(), Err(DeserializeError::UnexpectedEndOfRecord)));
}

#[test]
fn non_ascii_text_de() {
    let s = text(from_bytes_with_fields(" héllo ".as_bytes(), one(0..8), &Shape::Str).unwrap());
    assert_eq!(s, "héllo");
}
