use fixed_width::{FieldConfig, FieldSet, Justify, LineBreak};

fn last_field(fields: FieldSet) -> FieldConfig {
    fields.flatten().pop().unwrap()
}

#[test]
fn line_break_byte_width() {
    assert_eq!(LineBreak::NoBreak.byte_width(), 0);
    assert_eq!(LineBreak::Newline.byte_width(), 1);
    assert_eq!(LineBreak::CRLF.byte_width(), 2);
}

#[test]
fn fieldset_name() {
    let field = FieldSet::new_field(0..0).name("foo");
    let field = last_field(field);
    assert_eq!(field.name().as_ref().unwrap(), "foo");
}

#[test]
fn fieldset_pad_with() {
    let fields = FieldSet::Sequence(vec![
        FieldSet::new_field(0..1),
        FieldSet::Sequence(vec![FieldSet::new_field(0..2), FieldSet::new_field(0..3)]),
    ])
    .pad_with('a');

    let flat = fields.flatten();
    assert_eq!(flat.len(), 3);
    for field in flat {
        assert_eq!(field.pad_with(), 'a')
    }
}

#[test]
fn fieldset_justify() {
    let fields = FieldSet::Sequence(vec![
        FieldSet::new_field(0..1),
        FieldSet::Sequence(vec![FieldSet::new_field(0..2), FieldSet::new_field(0..3)]),
    ])
    .justify(Justify::Right);

    let flat = fields.flatten();
    assert_eq!(flat.len(), 3);
    for field in flat {
        assert_eq!(field.justify(), Justify::Right)
    }
}

#[test]
fn fieldset_justify_str() {
    let fields = FieldSet::Sequence(vec![
        FieldSet::new_field(0..1),
        FieldSet::Sequence(vec![FieldSet::new_field(0..2), FieldSet::new_field(0..3)]),
    ])
    .justify(Justify::from_name("right").unwrap());

    for field in fields.flatten() {
        assert_eq!(field.justify(), Justify::Right)
    }
}

#[test]
fn justify_names() {
    assert_eq!(Justify::from_name(" Left "), Some(Justify::Left));
    assert_eq!(Justify::from_name("RIGHT"), Some(Justify::Right));
    assert_eq!(Justify::from_name("foo"), None);
    assert_eq!(Justify::from_name(""), None);
}

#[test]
fn field_building() {
    let field = FieldSet::new_field(0..10)
        .name("foo")
        .pad_with('a')
        .justify(Justify::Right);
    let field = last_field(field);

    assert_eq!(field.range(), 0..10);
    assert_eq!(field.name().as_ref().unwrap(), "foo");
    assert_eq!(field.pad_with(), 'a');
    assert_eq!(field.justify(), Justify::Right);
}

#[test]
fn field_defaults() {
    let field = FieldConfig::new(3..7);
    assert_eq!(field.range(), 3..7);
    assert_eq!(field.width(), 4);
    assert!(field.name().is_none());
    assert_eq!(field.pad_with(), ' ');
    assert_eq!(field.justify(), Justify::Left);
}

#[test]
fn flatten_order() {
    let fields = FieldSet::Sequence(vec![
        FieldSet::Sequence(vec![FieldSet::new_field(0..1), FieldSet::new_field(1..2)]),
        FieldSet::new_field(2..3),
    ]);
    let ranges: Vec<_> = fields.flatten().iter().map(|f| f.range()).collect();
    assert_eq!(ranges, vec![0..1, 1..2, 2..3]);
}

#[test]
fn flatten_empty_group() {
    let fields = FieldSet::Sequence(vec![
        FieldSet::Sequence(vec![]),
        FieldSet::new_field(0..1),
        FieldSet::Sequence(vec![FieldSet::Sequence(vec![])]),
    ]);
    let ranges: Vec<_> = fields.flatten().iter().map(|f| f.range()).collect();
    assert_eq!(ranges, vec![0..1]);
}

#[test]
fn append_nests_and_extend_splices() {
    let appended = FieldSet::new_field(0..1).append(FieldSet::Sequence(vec![
        FieldSet::new_field(1..2),
        FieldSet::new_field(2..3),
    ]));
    match &appended {
        FieldSet::Sequence(v) => {
            assert_eq!(v.len(), 2);
            assert!(matches!(v[1], FieldSet::Sequence(_)));
        }
        _ => panic!("expected a group"),
    }

    let extended = FieldSet::new_field(0..1).extend(FieldSet::Sequence(vec![
        FieldSet::new_field(1..2),
        FieldSet::new_field(2..3),
    ]));
    match &extended {
        FieldSet::Sequence(v) => {
            assert_eq!(v.len(), 3);
            assert!(v.iter().all(|f| matches!(f, FieldSet::Item(_))));
        }
        _ => panic!("expected a group"),
    }

    let two = FieldSet::new_field(0..1).extend(FieldSet::new_field(1..2));
    let ranges: Vec<_> = two.flatten().iter().map(|f| f.range()).collect();
    assert_eq!(ranges, vec![0..1, 1..2]);

    let grown = FieldSet::Sequence(vec![FieldSet::new_field(0..1)]).append(FieldSet::new_field(1..2));
    let ranges: Vec<_> = grown.flatten().iter().map(|f| f.range()).collect();
    assert_eq!(ranges, vec![0..1, 1..2]);
}

#[test]
fn clone_keeps_fields() {
    let fields = FieldSet::Sequence(vec![
        FieldSet::new_field(0..4).name("a").pad_with('x'),
        FieldSet::Sequence(vec![FieldSet::new_field(4..6)]),
    ]);
    let copy = fields.clone();
    let a: Vec<_> = fields.flatten().iter().map(|f| (f.range(), f.pad_with())).collect();
    let b: Vec<_> = copy.flatten().iter().map(|f| (f.range(), f.pad_with())).collect();
    assert_eq!(a, b);
}
