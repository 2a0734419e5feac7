use fixed_width::{
    from_bytes_with_fields, DeserializeError, Deserializer, FieldSet, FixedWidth, IntKind,
    Justify, Reader, Serializer, Shape, Value,
};

struct Stuff;

impl FixedWidth for Stuff {
    fn fields() -> FieldSet {
        FieldSet::Sequence(vec![
            FieldSet::new_field(0..6).name("stuff1"),
            FieldSet::new_field(6..12).name("stuff2").pad_with('0'),
            FieldSet::new_field(12..15).name("stuff3").pad_with('0'),
            FieldSet::new_field(15..19).name("stuff4"),
            FieldSet::new_field(21..27).name("stuff5"),
            FieldSet::new_field(27..31).name("stuff6").justify(Justify::Right),
        ])
    }
}

fn stuff_shape() -> Shape {
    Shape::Tuple(vec![
        Shape::Str,
        Shape::Str,
        Shape::Int(IntKind::U64),
        Shape::Int(IntKind::U64),
        Shape::Str,
        Shape::Str,
    ])
}

fn optionals_fields() -> FieldSet {
    FieldSet::Sequence(vec![
        FieldSet::new_field(0..4).name("stuff1"),
        FieldSet::new_field(4..10).name("stuff2"),
        FieldSet::new_field(10..15).name("stuff3"),
    ])
}

fn members(v: Value) -> Vec<Value> {
    match v {
        Value::List(xs) => xs,
        other => panic!("expected a list, got {:?}", other),
    }
}

fn text(v: &Value) -> &str {
    match v {
        Value::Str(s) => s,
        other => panic!("expected text, got {:?}", other),
    }
}

fn int_of(v: &Value) -> i128 {
    match v {
        Value::Int(i) => *i,
        other => panic!("expected an integer, got {:?}", other),
    }
}

fn s(x: &str) -> Value {
    Value::Str(x.to_string())
}

fn check_stuff(v: Value) {
    let m = members(v);
    assert_eq!(text(&m[0]), "foo");
    assert_eq!(text(&m[1]), "000bar");
    assert_eq!(int_of(&m[2]), 234);
    assert_eq!(int_of(&m[3]), 9);
    assert_eq!(text(&m[4]), "foobar");
    assert_eq!(text(&m[5]), "123");
}

#[test]
fn test_serialize() {
    let stuff = Value::List(vec![s("foo"), s("bar"), Value::Int(234), Value::Int(9), s("foobar"), s("123")]);

    let mut ser = Serializer::new(Stuff::fields());
    ser.write(&stuff).unwrap();

    assert_eq!("foo   bar0002349   foobar 123", String::from_utf8(ser.into_bytes()).unwrap());
}

#[test]
fn test_deserialize() {
    let fr = "   foo000bar234   9  foobar123 ".as_bytes();
    let mut de = Deserializer::new(fr, Stuff::fields());
    let stuff = de.read(&stuff_shape()).unwrap();
    check_stuff(stuff);
}

#[test]
fn test_deserialize_multiple() {
    let fr = "   foo000bar234   9  foobar321    foo000bar234   9  foobar123 ".as_bytes();

    let mut rdr = Reader::from_bytes(fr).width(31);
    let mut count = 0;

    while let Some(record) = rdr.next_record() {
        let m = members(from_bytes_with_fields(&record, Stuff::fields(), &stuff_shape()).unwrap());
        assert_eq!(text(&m[0]), "foo");
        assert_eq!(text(&m[1]), "000bar");
        count += 1;
    }
    assert_eq!(count, 2);
}

#[test]
fn test_from_fixed_record_when_input_is_too_small() {
    let fr = "   foo000bar234   9".as_bytes();
    let mut de = Deserializer::new(fr, Stuff::fields());
    let err = de.read(&stuff_shape());

    match err {
        Ok(_) => assert!(false, "expected Err, got Ok"),
        Err(DeserializeError::UnexpectedEndOfRecord) => assert!(true),
        Err(e) => assert!(false, "expected InvalidRecordError, got {:?}", e),
    }
}

#[test]
fn test_serialize_optionals() {
    let optionals = Value::List(vec![
        Value::Absent,
        Value::Present(Box::new(s("foo"))),
        Value::Present(Box::new(Value::Int(23))),
    ]);

    let mut ser = Serializer::new(optionals_fields());
    ser.write(&optionals).unwrap();

    assert_eq!("    foo   23   ", String::from_utf8(ser.into_bytes()).unwrap());
}

#[test]
fn test_deserialize_optionals() {
    let fr = "    foo   23   ".as_bytes();
    let mut de = Deserializer::new(fr, optionals_fields());
    let shape = Shape::Tuple(vec![
        Shape::Optional(Box::new(Shape::Str)),
        Shape::Optional(Box::new(Shape::Str)),
        Shape::Optional(Box::new(Shape::Int(IntKind::U64))),
    ]);
    let m = members(de.read(&shape).unwrap());

    assert!(matches!(m[0], Value::Absent));
    match &m[1] {
        Value::Present(x) => assert_eq!(text(x), "foo"),
        other => panic!("expected a value, got {:?}", other),
    }
    match &m[2] {
        Value::Present(x) => assert_eq!(int_of(x), 23),
        other => panic!("expected a value, got {:?}", other),
    }
}

#[test]
fn test_multiple_record_types() {
    let data = "0OHIO1 BOB";
    let record_fields = |second: &str| {
        FieldSet::Sequence(vec![
            FieldSet::new_field(0..1).name("record_type"),
            FieldSet::new_field(1..5).name(second),
        ])
    };
    let shape = Shape::Tuple(vec![Shape::Int(IntKind::U64), Shape::Str]);

    let mut reader = Reader::from_string(data).width(5);
    let mut rec1 = false;
    let mut rec2 = false;

    while let Some(bytes) = reader.next_record() {
        match bytes.get(0) {
            Some(b'0') => {
                let m = members(from_bytes_with_fields(&bytes, record_fields("state"), &shape).unwrap());
                rec1 = true;
                assert_eq!(text(&m[1]), "OHIO");
            }
            Some(b'1') => {
                let m = members(from_bytes_with_fields(&bytes, record_fields("name"), &shape).unwrap());
                rec2 = true;
                assert_eq!(text(&m[1]), "BOB");
            }
            Some(_) => assert!(false, "unexpected record type"),
            None => assert!(false, "unexpected None"),
        }
    }

    assert!(rec1 && rec2);
}

#[test]
fn test_deserialize_with_skipped_fields() {
    let fr = "   foo000bar234   9  foobar123 ".as_bytes();
    let mut de = Deserializer::new(fr, Stuff::fields());
    let stuff = de.read(&stuff_shape()).unwrap();
    check_stuff(stuff);
}

#[test]
fn test_specify_fields_by_field_def() {
    let fields = FieldSet::Sequence(vec![FieldSet::new_field(0..3), FieldSet::new_field(3..9)]);
    let record = "999foobar";
    let data = members(
        fixed_width::from_str_with_fields(
            record,
            fields,
            &Shape::Tuple(vec![Shape::Int(IntKind::U64), Shape::Str]),
        )
        .unwrap(),
    );

    assert_eq!(int_of(&data[0]), 999);
    assert_eq!(text(&data[1]), "foobar");
}
