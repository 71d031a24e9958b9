use binstruct::encoder::{synthesize_encode, Emit, EncodeError, EncodeProgram};
use binstruct::resolver::resolve;
use binstruct::schema::{
    FieldDescriptor, FieldKind, MemberDescriptor, MemberKind, Predicate, Relation,
    StructureDescriptor, VariantDescriptor,
};
use binstruct::value::{Atom, Value};
use binstruct::wire::{ByteOrder, ByteSink, IntWidth};

fn program(order: Option<ByteOrder>, fields: Vec<FieldDescriptor>) -> EncodeProgram {
    let plan = resolve(&StructureDescriptor::new("S", order, fields)).unwrap();
    synthesize_encode(&plan)
}

fn encoded(program: &EncodeProgram, values: Vec<Value>) -> Result<Vec<u8>, EncodeError> {
    let mut sink = ByteSink::new(1024);
    program.encode(&values, &mut sink)?;
    Ok(sink.into_bytes())
}

fn scalar(name: &str, width: IntWidth) -> FieldDescriptor {
    FieldDescriptor::new(name, FieldKind::Scalar(width))
}

fn shape_variants() -> Vec<VariantDescriptor> {
    vec![
        VariantDescriptor::new(
            "Circle",
            1,
            vec![MemberDescriptor::new("r", MemberKind::Scalar(IntWidth::W16), None)],
        ),
        VariantDescriptor::new(
            "Rect",
            2,
            vec![
                MemberDescriptor::new("w", MemberKind::Scalar(IntWidth::W8), None),
                MemberDescriptor::new("h", MemberKind::Scalar(IntWidth::W8), None),
            ],
        ),
        VariantDescriptor::new("Nothing", 0x80, vec![]),
    ]
}

#[test]
fn scalars_are_written_in_declaration_order() {
    let p = program(
        None,
        vec![
            scalar("a", IntWidth::W8),
            scalar("b", IntWidth::W16),
            scalar("c", IntWidth::W32).byte_order(ByteOrder::Little),
        ],
    );
    assert_eq!(
        encoded(&p, vec![Value::Int(1), Value::Int(0x0203), Value::Int(0x0405_0607)]),
        Ok(vec![1, 2, 3, 7, 6, 5, 4])
    );
}

#[test]
fn structure_default_order_applies() {
    let p = program(Some(ByteOrder::Little), vec![scalar("a", IntWidth::W16)]);
    assert_eq!(encoded(&p, vec![Value::Int(0x0102)]), Ok(vec![2, 1]));
}

#[test]
fn length_field_is_computed_from_the_blob() {
    let p = program(
        None,
        vec![
            scalar("n", IntWidth::W16),
            FieldDescriptor::new("data", FieldKind::Blob).len("n"),
        ],
    );
    // The stored count is ignored; an absent one is as good as a wrong one.
    assert_eq!(
        encoded(&p, vec![Value::Int(99), Value::Bytes(vec![9, 8])]),
        Ok(vec![0, 2, 9, 8])
    );
    assert_eq!(encoded(&p, vec![Value::Absent, Value::Bytes(vec![])]), Ok(vec![0, 0]));
}

#[test]
fn fixed_blob_array_and_record_are_written() {
    let p = program(
        None,
        vec![
            FieldDescriptor::new("magic", FieldKind::Blob).size(2),
            FieldDescriptor::new("xs", FieldKind::Array(IntWidth::W16, 2)),
            FieldDescriptor::new(
                "inner",
                FieldKind::Nested {
                    byte_order: Some(ByteOrder::Little),
                    members: vec![
                        MemberDescriptor::new("x", MemberKind::Scalar(IntWidth::W16), None),
                        MemberDescriptor::new("ys", MemberKind::Array(IntWidth::W8, 2), None),
                    ],
                },
            ),
            FieldDescriptor::new("cache", FieldKind::Skipped),
        ],
    );
    assert_eq!(
        encoded(
            &p,
            vec![
                Value::Bytes(vec![0xCA, 0xFE]),
                Value::Array(vec![1, 2]),
                Value::Record(vec![Atom::Int(0x0a0b), Atom::Array(vec![5, 6])]),
                Value::Int(12345),
            ]
        ),
        Ok(vec![0xCA, 0xFE, 0, 1, 0, 2, 0x0b, 0x0a, 5, 6])
    );
}

#[test]
fn each_variant_is_written_with_its_tag() {
    let p = program(None, vec![FieldDescriptor::new("shape", FieldKind::Choice(IntWidth::W8, shape_variants()))]);
    assert_eq!(
        encoded(&p, vec![Value::Variant { index: 0, members: vec![Atom::Int(0x0102)] }]),
        Ok(vec![1, 1, 2])
    );
    assert_eq!(
        encoded(&p, vec![Value::Variant { index: 1, members: vec![Atom::Int(3), Atom::Int(4)] }]),
        Ok(vec![2, 3, 4])
    );
    assert_eq!(
        encoded(&p, vec![Value::Variant { index: 2, members: vec![] }]),
        Ok(vec![0x80])
    );
}

#[test]
fn tag_goes_into_the_tag_field_where_one_is_named() {
    let p = program(
        None,
        vec![
            scalar("kind", IntWidth::W8),
            scalar("id", IntWidth::W8),
            FieldDescriptor::new("shape", FieldKind::Choice(IntWidth::W8, shape_variants()))
                .discriminant("kind"),
        ],
    );
    assert_eq!(
        encoded(
            &p,
            vec![
                Value::Int(0),
                Value::Int(7),
                Value::Variant { index: 1, members: vec![Atom::Int(3), Atom::Int(4)] },
            ]
        ),
        Ok(vec![2, 7, 3, 4])
    );
}

#[test]
fn skipped_field_writes_nothing() {
    let p = program(
        None,
        vec![
            scalar("flag", IntWidth::W8),
            scalar("extra", IntWidth::W16).skip_if(Predicate::new("flag", Relation::Equal, 0)),
            scalar("tail", IntWidth::W8),
        ],
    );
    assert_eq!(
        encoded(&p, vec![Value::Int(1), Value::Int(0x0a0b), Value::Int(9)]),
        Ok(vec![1, 0x0a, 0x0b, 9])
    );
    assert_eq!(
        encoded(&p, vec![Value::Int(0), Value::Int(0x0a0b), Value::Int(9)]),
        Ok(vec![0, 9])
    );
    // What a skipped field holds does not matter.
    assert_eq!(
        encoded(&p, vec![Value::Int(0), Value::Bytes(vec![1]), Value::Int(9)]),
        Ok(vec![0, 9])
    );
}

#[test]
fn terminal_blob_is_written_whole() {
    let p = program(
        None,
        vec![scalar("a", IntWidth::W8), FieldDescriptor::new("rest", FieldKind::Blob).terminal()],
    );
    assert_eq!(encoded(&p, vec![Value::Int(1), Value::Bytes(vec![])]), Ok(vec![1]));
    assert_eq!(encoded(&p, vec![Value::Int(1), Value::Bytes(vec![2, 3, 4])]), Ok(vec![1, 2, 3, 4]));
}

#[test]
fn wrong_number_of_values_is_an_arity_mismatch() {
    let p = program(None, vec![scalar("a", IntWidth::W8)]);
    assert_eq!(encoded(&p, vec![]), Err(EncodeError::ArityMismatch));
    assert_eq!(encoded(&p, vec![Value::Int(1), Value::Int(2)]), Err(EncodeError::ArityMismatch));
}

#[test]
fn first_unacceptable_value_is_reported_and_nothing_written() {
    let p = program(
        None,
        vec![
            scalar("a", IntWidth::W8),
            scalar("b", IntWidth::W8),
            FieldDescriptor::new("xs", FieldKind::Array(IntWidth::W8, 2)),
        ],
    );
    let mut sink = ByteSink::new(16);
    assert!(sink.write(&[0xEE]));
    let values = vec![Value::Int(1), Value::Int(256), Value::Array(vec![1])];
    assert_eq!(p.encode(&values, &mut sink), Err(EncodeError::FieldMismatch(1)));
    assert_eq!(sink.into_bytes(), vec![0xEE]);
}

#[test]
fn values_of_the_wrong_kind_or_size_are_mismatches() {
    let p = program(
        None,
        vec![
            scalar("n", IntWidth::W8),
            FieldDescriptor::new("data", FieldKind::Blob).len("n"),
            FieldDescriptor::new("fixed", FieldKind::Blob).size(2),
            FieldDescriptor::new("xs", FieldKind::Array(IntWidth::W8, 2)),
            FieldDescriptor::new(
                "inner",
                FieldKind::Nested {
                    byte_order: None,
                    members: vec![MemberDescriptor::new("x", MemberKind::Scalar(IntWidth::W8), None)],
                },
            ),
            FieldDescriptor::new("shape", FieldKind::Choice(IntWidth::W8, shape_variants())),
        ],
    );
    let good = || {
        vec![
            Value::Int(0),
            Value::Bytes(vec![1]),
            Value::Bytes(vec![1, 2]),
            Value::Array(vec![1, 2]),
            Value::Record(vec![Atom::Int(1)]),
            Value::Variant { index: 2, members: vec![] },
        ]
    };
    assert!(encoded(&p, good()).is_ok());
    let with = |i: usize, v: Value| {
        let mut values = good();
        values[i] = v;
        encoded(&p, values)
    };
    // A blob too long for its one-byte length field is reported at the length field.
    assert_eq!(with(1, Value::Bytes(vec![0; 256])), Err(EncodeError::FieldMismatch(0)));
    assert_eq!(with(1, Value::Int(1)), Err(EncodeError::FieldMismatch(0)));
    assert_eq!(with(2, Value::Bytes(vec![1])), Err(EncodeError::FieldMismatch(2)));
    assert_eq!(with(3, Value::Array(vec![1, 2, 3])), Err(EncodeError::FieldMismatch(3)));
    assert_eq!(with(3, Value::Array(vec![1, 256])), Err(EncodeError::FieldMismatch(3)));
    assert_eq!(with(4, Value::Record(vec![])), Err(EncodeError::FieldMismatch(4)));
    assert_eq!(
        with(4, Value::Record(vec![Atom::Array(vec![1])])),
        Err(EncodeError::FieldMismatch(4))
    );
    assert_eq!(
        with(5, Value::Variant { index: 3, members: vec![] }),
        Err(EncodeError::FieldMismatch(5))
    );
    assert_eq!(
        with(5, Value::Variant { index: 0, members: vec![] }),
        Err(EncodeError::FieldMismatch(5))
    );
    assert_eq!(with(5, Value::Absent), Err(EncodeError::FieldMismatch(5)));
}

#[test]
fn sink_too_small_is_filled_and_reported() {
    let p = program(None, vec![scalar("a", IntWidth::W16), scalar("b", IntWidth::W32)]);
    let values = vec![Value::Int(0x0102), Value::Int(0x0304_0506)];
    let mut sink = ByteSink::new(5);
    assert_eq!(p.encode(&values, &mut sink), Err(EncodeError::SinkFull));
    assert_eq!(sink.into_bytes(), vec![1, 2, 3, 4, 5]);
    let mut exact = ByteSink::new(6);
    assert_eq!(p.encode(&values, &mut exact), Ok(()));
    assert_eq!(exact.into_bytes(), vec![1, 2, 3, 4, 5, 6]);
}

#[test]
fn encoding_appends_to_what_the_sink_holds() {
    let p = program(None, vec![scalar("a", IntWidth::W8)]);
    let mut sink = ByteSink::new(8);
    assert_eq!(p.encode(&vec![Value::Int(1)], &mut sink), Ok(()));
    assert_eq!(p.encode(&vec![Value::Int(2)], &mut sink), Ok(()));
    assert_eq!(sink.into_bytes(), vec![1, 2]);
}

#[test]
fn encode_program_has_one_step_per_field() {
    let p = program(
        None,
        vec![
            scalar("n", IntWidth::W8),
            FieldDescriptor::new("data", FieldKind::Blob).len("n"),
            FieldDescriptor::new("fixed", FieldKind::Blob).size(3),
        ],
    );
    assert_eq!(p.steps.len(), 3);
    assert_eq!(
        p.steps[0].emit,
        Emit::LengthOf { target: 1, width: IntWidth::W8, order: ByteOrder::Big }
    );
    assert_eq!(p.steps[1].emit, Emit::Blob { exact: None });
    assert_eq!(p.steps[2].emit, Emit::Blob { exact: Some(3) });
}
