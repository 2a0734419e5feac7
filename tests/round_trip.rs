use fixed_width::{
    from_bytes_with_fields, to_bytes_with_fields, FieldSet, IntKind, Justify, Shape, Value,
};

fn layout() -> FieldSet {
    FieldSet::Sequence(vec![
        FieldSet::new_field(0..1),
        FieldSet::new_field(1..6).justify(Justify::Right),
        FieldSet::new_field(6..8),
        FieldSet::new_field(8..14),
        FieldSet::new_field(14..18).pad_with('\t'),
        FieldSet::new_field(18..22),
    ])
}

fn shape() -> Shape {
    Shape::Tuple(vec![
        Shape::Bool,
        Shape::Int(IntKind::I16),
        Shape::Char,
        Shape::Str,
        Shape::Optional(Box::new(Shape::Int(IntKind::U8))),
        Shape::Optional(Box::new(Shape::Str)),
    ])
}

#[test]
fn scalars_round_trip() {
    let value = Value::List(vec![
        Value::Bool(true),
        Value::Int(-1234),
        Value::Char('z'),
        Value::Str("foo".to_string()),
        Value::Present(Box::new(Value::Int(255))),
        Value::Absent,
    ]);
    let bytes = to_bytes_with_fields(&value, layout()).unwrap();
    assert_eq!(bytes, b"1-1234z foo   255\t    ".to_vec());
    let back = from_bytes_with_fields(&bytes, layout(), &shape()).unwrap();
    match back {
        Value::List(xs) => {
            assert!(matches!(xs[0], Value::Bool(true)));
            assert!(matches!(xs[1], Value::Int(-1234)));
            assert!(matches!(xs[2], Value::Char('z')));
            assert!(matches!(&xs[3], Value::Str(s) if s == "foo"));
            assert!(matches!(&xs[4], Value::Present(x) if matches!(**x, Value::Int(255))));
            assert!(matches!(xs[5], Value::Absent));
        }
        other => panic!("expected a list, got {:?}", other),
    }
}

#[test]
fn text_round_trip_drops_padding_only() {
    let fields = FieldSet::new_field(0..6);
    let bytes = to_bytes_with_fields(&Value::Str("foo".to_string()), fields.clone()).unwrap();
    assert_eq!(bytes, b"foo   ".to_vec());
    match from_bytes_with_fields(&bytes, fields, &Shape::Str).unwrap() {
        Value::Str(s) => assert_eq!(s, "foo"),
        other => panic!("expected text, got {:?}", other),
    }
}

#[test]
fn nested_products_round_trip() {
    let fields = FieldSet::Sequence(vec![
        FieldSet::Sequence(vec![FieldSet::new_field(0..3), FieldSet::new_field(3..6)]),
        FieldSet::Sequence(vec![FieldSet::new_field(6..9), FieldSet::new_field(9..12)]),
    ]);
    let shape = Shape::Tuple(vec![
        Shape::Tuple(vec![Shape::Int(IntKind::U32), Shape::Str]),
        Shape::Tuple(vec![Shape::Int(IntKind::U32), Shape::Str]),
    ]);
    let value = Value::List(vec![
        Value::List(vec![Value::Int(123), Value::Str("abc".to_string())]),
        Value::List(vec![Value::Int(7), Value::Str("z".to_string())]),
    ]);
    let bytes = to_bytes_with_fields(&value, fields.clone()).unwrap();
    assert_eq!(bytes, b"123abc7  z  ".to_vec());
    let back = from_bytes_with_fields(&bytes, fields, &shape).unwrap();
    let outer = match back {
        Value::List(xs) => xs,
        other => panic!("expected a list, got {:?}", other),
    };
    let inner: Vec<(i128, String)> = outer
        .into_iter()
        .map(|m| match m {
            Value::List(mut xs) => {
                let s = match xs.pop().unwrap() {
                    Value::Str(s) => s,
                    other => panic!("expected text, got {:?}", other),
                };
                let i = match xs.pop().unwrap() {
                    Value::Int(i) => i,
                    other => panic!("expected an integer, got {:?}", other),
                };
                (i, s)
            }
            other => panic!("expected a list, got {:?}", other),
        })
        .collect();
    assert_eq!(inner, vec![(123, "abc".to_string()), (7, "z".to_string())]);
}

#[test]
fn non_ascii_text_round_trip() {
    let fields = FieldSet::new_field(0..8).justify(Justify::Right);
    let bytes = to_bytes_with_fields(&Value::Str("héllo".to_string()), fields.clone()).unwrap();
    assert_eq!(bytes, "  héllo".as_bytes().to_vec());
    match from_bytes_with_fields(&bytes, fields, &Shape::Str).unwrap() {
        Value::Str(s) => assert_eq!(s, "héllo"),
        other => panic!("expected text, got {:?}", other),
    }
}
