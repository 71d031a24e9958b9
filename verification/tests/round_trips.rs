use binstruct::decoder::{DecodeError, DecodeProgram};
use binstruct::encoder::EncodeProgram;
use binstruct::schema::{
    Comparison, ConfigError, ConfigReason, FieldDescriptor, FieldKind, MemberDescriptor,
    MemberKind, Predicate, Relation, StructureDescriptor, VariantDescriptor,
};
use binstruct::value::{Atom, Value};
use binstruct::wire::{ByteOrder, ByteSink, ByteSource, IntWidth};
use binstruct::{derive_bin_decode, derive_bin_encode};

fn scalar(name: &str, width: IntWidth) -> FieldDescriptor {
    FieldDescriptor::new(name, FieldKind::Scalar(width))
}

fn packet() -> StructureDescriptor {
    StructureDescriptor::new(
        "Packet",
        Some(ByteOrder::Little),
        vec![
            scalar("version", IntWidth::W8),
            scalar("kind", IntWidth::W8),
            scalar("flags", IntWidth::W16).byte_order(ByteOrder::Big),
            scalar("name_len", IntWidth::W8).length_of("name"),
            FieldDescriptor::new("name", FieldKind::Blob).len("name_len"),
            FieldDescriptor::new("salt", FieldKind::Blob).size(2),
            FieldDescriptor::new("samples", FieldKind::Array(IntWidth::W16, 3)),
            FieldDescriptor::new(
                "origin",
                FieldKind::Nested {
                    byte_order: None,
                    members: vec![
                        MemberDescriptor::new("x", MemberKind::Scalar(IntWidth::W32), None),
                        MemberDescriptor::new("tags", MemberKind::Array(IntWidth::W8, 2), None),
                    ],
                },
            ),
            scalar("checksum", IntWidth::W32).skip_if(Predicate::new("version", Relation::Below, 2)),
            FieldDescriptor::new(
                "body",
                FieldKind::Choice(
                    IntWidth::W8,
                    vec![
                        VariantDescriptor::new("Ping", 1, vec![]),
                        VariantDescriptor::new(
                            "Data",
                            2,
                            vec![MemberDescriptor::new("seq", MemberKind::Scalar(IntWidth::W64), None)],
                        ),
                    ],
                ),
            )
            .discriminant("kind"),
            FieldDescriptor::new("scratch", FieldKind::Skipped),
            FieldDescriptor::new("payload", FieldKind::Blob).terminal(),
        ],
    )
}

fn programs(desc: &StructureDescriptor) -> (EncodeProgram, DecodeProgram) {
    (derive_bin_encode(desc).unwrap(), derive_bin_decode(desc).unwrap())
}

fn encode(program: &EncodeProgram, values: &Vec<Value>) -> Vec<u8> {
    let mut sink = ByteSink::new(4096);
    assert_eq!(program.encode(values, &mut sink), Ok(()));
    sink.into_bytes()
}

fn decode(program: &DecodeProgram, bytes: &[u8]) -> Result<Vec<Value>, DecodeError> {
    program.decode(&mut ByteSource::new(bytes.to_vec()))
}

fn packet_values(version: u64, name: &[u8], payload: &[u8]) -> Vec<Value> {
    vec![
        Value::Int(version),
        Value::Int(2),
        Value::Int(0xBEEF),
        Value::Int(name.len() as u64),
        Value::Bytes(name.to_vec()),
        Value::Bytes(vec![0x11, 0x22]),
        Value::Array(vec![1, 0x0203, 0xffff]),
        Value::Record(vec![Atom::Int(0xdead_beef), Atom::Array(vec![7, 8])]),
        if version < 2 { Value::Absent } else { Value::Int(0x0a0b_0c0d) },
        Value::Variant { index: 1, members: vec![Atom::Int(0x0102_0304_0506_0708)] },
        Value::Absent,
        Value::Bytes(payload.to_vec()),
    ]
}

#[test]
fn packet_encodes_to_the_expected_bytes() {
    let (enc, _) = programs(&packet());
    let bytes = encode(&enc, &packet_values(2, b"ab", &[0xF0, 0xF1]));
    let expected: Vec<u8> = vec![
        2, // version
        2, // kind: the tag of Data
        0xBE, 0xEF, // flags: its own order, big endian
        2, b'a', b'b', // name_len, name
        0x11, 0x22, // salt
        1, 0, 3, 2, 0xff, 0xff, // samples: the structure's order, little endian
        0xde, 0xad, 0xbe, 0xef, 7, 8, // origin: a nested structure does not inherit
        0x0d, 0x0c, 0x0b, 0x0a, // checksum
        8, 7, 6, 5, 4, 3, 2, 1, // body: Data.seq
        0xF0, 0xF1, // payload
    ];
    assert_eq!(bytes, expected);
}

#[test]
fn canonical_values_come_back_unchanged() {
    let (enc, dec) = programs(&packet());
    for version in [1u64, 2, 3] {
        for name in [&b""[..], &b"x"[..], &b"a longer name"[..]] {
            for payload in [&[][..], &[1u8][..], &[1u8, 2, 3, 4, 5][..]] {
                let values = packet_values(version, name, payload);
                let bytes = encode(&enc, &values);
                assert_eq!(decode(&dec, &bytes), Ok(values));
            }
        }
    }
}

#[test]
fn derived_fields_come_back_as_written() {
    let (enc, dec) = programs(&packet());
    let mut values = packet_values(1, b"abc", &[]);
    values[1] = Value::Int(77); // kind: overwritten by the tag
    values[3] = Value::Absent; // name_len: overwritten by the length
    values[8] = Value::Int(5); // checksum: skipped for version 1
    values[10] = Value::Bytes(vec![1]); // scratch: never on the wire
    let bytes = encode(&enc, &values);
    assert_eq!(decode(&dec, &bytes), Ok(packet_values(1, b"abc", &[])));
}

#[test]
fn written_length_is_the_length_read() {
    let desc = StructureDescriptor::new(
        "Counted",
        None,
        vec![
            scalar("count", IntWidth::W16).length_of("data"),
            FieldDescriptor::new("data", FieldKind::Blob).len("count"),
            scalar("after", IntWidth::W8),
        ],
    );
    let (enc, dec) = programs(&desc);
    for len in [0usize, 1, 2, 255, 256, 1000] {
        let data: Vec<u8> = (0..len).map(|i| (i % 251) as u8).collect();
        let bytes = encode(&enc, &vec![Value::Int(0), Value::Bytes(data.clone()), Value::Int(9)]);
        assert_eq!(bytes.len(), 2 + len + 1);
        assert_eq!(&bytes[..2], &[(len >> 8) as u8, (len & 0xff) as u8]);
        assert_eq!(
            decode(&dec, &bytes),
            Ok(vec![Value::Int(len as u64), Value::Bytes(data), Value::Int(9)])
        );
    }
}

#[test]
fn every_strict_prefix_is_truncated() {
    let desc = StructureDescriptor::new(
        "NoTerminal",
        None,
        vec![
            scalar("n", IntWidth::W8),
            FieldDescriptor::new("data", FieldKind::Blob).len("n"),
            FieldDescriptor::new("xs", FieldKind::Array(IntWidth::W16, 2)),
            FieldDescriptor::new(
                "body",
                FieldKind::Choice(
                    IntWidth::W8,
                    vec![VariantDescriptor::new(
                        "Only",
                        5,
                        vec![MemberDescriptor::new("v", MemberKind::Scalar(IntWidth::W32), None)],
                    )],
                ),
            ),
        ],
    );
    let (enc, dec) = programs(&desc);
    let values = vec![
        Value::Int(3),
        Value::Bytes(vec![1, 2, 3]),
        Value::Array(vec![4, 5]),
        Value::Variant { index: 0, members: vec![Atom::Int(6)] },
    ];
    let bytes = encode(&enc, &values);
    assert_eq!(bytes.len(), 13);
    assert_eq!(decode(&dec, &bytes), Ok(values));
    let field_at = |k: usize| match k {
        0 => 0,
        1..=3 => 1,
        4..=7 => 2,
        _ => 3,
    };
    for k in 0..bytes.len() {
        assert_eq!(decode(&dec, &bytes[..k]), Err(DecodeError::Truncated { field: field_at(k) }));
    }
}

#[test]
fn prefix_that_cuts_before_the_terminal_field_is_truncated() {
    let (enc, dec) = programs(&packet());
    let bytes = encode(&enc, &packet_values(2, b"ab", &[1, 2, 3]));
    let fixed = bytes.len() - 3;
    for k in 0..fixed {
        assert!(matches!(decode(&dec, &bytes[..k]), Err(DecodeError::Truncated { .. })));
    }
    for k in fixed..=bytes.len() {
        let values = decode(&dec, &bytes[..k]).unwrap();
        assert_eq!(values[11], Value::Bytes(bytes[fixed..k].to_vec()));
    }
}

#[test]
fn bytes_after_the_encoding_are_left_alone() {
    let desc = StructureDescriptor::new(
        "Pair",
        None,
        vec![scalar("a", IntWidth::W16), scalar("b", IntWidth::W8)],
    );
    let (enc, dec) = programs(&desc);
    let values = vec![Value::Int(0x0102), Value::Int(3)];
    let mut bytes = encode(&enc, &values);
    bytes.extend_from_slice(&[0xAA, 0xBB]);
    let mut source = ByteSource::new(bytes);
    assert_eq!(dec.decode(&mut source), Ok(values));
    assert_eq!(source.take_rest(), vec![0xAA, 0xBB]);
}

#[test]
fn each_variant_round_trips_with_its_tag() {
    let variants = vec![
        VariantDescriptor::new("A", 0x10, vec![]),
        VariantDescriptor::new(
            "B",
            0x20,
            vec![MemberDescriptor::new("v", MemberKind::Array(IntWidth::W16, 2), None)],
        ),
        VariantDescriptor::new(
            "C",
            0x30,
            vec![MemberDescriptor::new("v", MemberKind::Scalar(IntWidth::W8), None)],
        ),
    ];
    let desc = StructureDescriptor::new(
        "Tagged",
        None,
        vec![FieldDescriptor::new("body", FieldKind::Choice(IntWidth::W16, variants))],
    );
    let (enc, dec) = programs(&desc);
    let cases = vec![
        (0usize, vec![], 0x10u8),
        (1, vec![Atom::Array(vec![1, 2])], 0x20),
        (2, vec![Atom::Int(9)], 0x30),
    ];
    for (index, members, tag) in cases {
        let values = vec![Value::Variant { index, members }];
        let bytes = encode(&enc, &values);
        assert_eq!(&bytes[..2], &[0, tag]);
        assert_eq!(decode(&dec, &bytes), Ok(values));
    }
    assert_eq!(
        decode(&dec, &[0, 0x40, 0, 0]),
        Err(DecodeError::UnknownVariant { field: 0, tag: 0x40 })
    );
}

#[test]
fn both_triggers_refuse_a_faulty_declaration() {
    let desc = StructureDescriptor::new(
        "Bad",
        None,
        vec![
            FieldDescriptor::new("data", FieldKind::Blob).len("count"),
            scalar("count", IntWidth::W8),
        ],
    );
    let expected = ConfigError { field: 0, reason: ConfigReason::ForwardReference };
    assert_eq!(derive_bin_encode(&desc).err(), Some(expected));
    assert_eq!(derive_bin_decode(&desc).err(), Some(expected));
}

#[test]
fn padded_structure_round_trips() {
    let desc = StructureDescriptor::new(
        "Padded",
        None,
        vec![
            scalar("n", IntWidth::W8),
            FieldDescriptor::new("data", FieldKind::Blob).len("n"),
        ],
    )
    .align(4);
    let (enc, dec) = programs(&desc);
    for len in 0usize..10 {
        let data: Vec<u8> = (1..=len as u8).collect();
        let values = vec![Value::Int(len as u64), Value::Bytes(data.clone())];
        let bytes = encode(&enc, &values);
        let fields = 1 + len;
        assert_eq!(bytes.len() % 4, 0);
        assert!(bytes.len() >= fields && bytes.len() < fields + 4);
        assert_eq!(bytes[0] as usize, len);
        assert_eq!(&bytes[1..fields], &data[..]);
        assert!(bytes[fields..].iter().all(|b| *b == 0));
        // The padding is taken, what follows is left.
        let mut followed = bytes.clone();
        followed.push(0xEE);
        let mut source = ByteSource::new(followed);
        assert_eq!(dec.decode(&mut source), Ok(values));
        assert_eq!(source.take_rest(), vec![0xEE]);
        // Cut inside the padding: truncated after the last field.
        for k in fields..bytes.len() {
            assert_eq!(decode(&dec, &bytes[..k]), Err(DecodeError::Truncated { field: 2 }));
        }
    }
}

#[test]
fn padded_structure_encodes_to_the_expected_bytes() {
    let desc = StructureDescriptor::new("Padded", None, vec![scalar("a", IntWidth::W16)]).align(8);
    let (enc, dec) = programs(&desc);
    let bytes = encode(&enc, &vec![Value::Int(0x0102)]);
    assert_eq!(bytes, vec![1, 2, 0, 0, 0, 0, 0, 0]);
    // The padding is relative to the start of this encoding, not of the sink.
    let mut sink = ByteSink::new(32);
    assert!(sink.write(&[9; 3]));
    assert_eq!(enc.encode(&vec![Value::Int(0x0304)], &mut sink), Ok(()));
    assert_eq!(sink.into_bytes(), vec![9, 9, 9, 3, 4, 0, 0, 0, 0, 0, 0]);
    // Whatever the padding holds is ignored.
    assert_eq!(decode(&dec, &[1, 2, 7, 7, 7, 7, 7, 7]), Ok(vec![Value::Int(0x0102)]));
}

#[test]
fn padding_that_does_not_fit_fills_the_sink() {
    let desc = StructureDescriptor::new("Padded", None, vec![scalar("a", IntWidth::W16)]).align(4);
    let (enc, _) = programs(&desc);
    let mut sink = ByteSink::new(3);
    assert_eq!(
        enc.encode(&vec![Value::Int(0x0102)], &mut sink),
        Err(binstruct::encoder::EncodeError::SinkFull)
    );
    assert_eq!(sink.into_bytes(), vec![1, 2, 0]);
}

#[test]
fn predicates_over_several_fields_round_trip() {
    let with = |predicate: Predicate| {
        StructureDescriptor::new(
            "Guarded",
            None,
            vec![
                scalar("a", IntWidth::W8),
                scalar("b", IntWidth::W8),
                scalar("x", IntWidth::W16).skip_if(predicate),
                scalar("z", IntWidth::W8),
            ],
        )
    };
    let terms = || {
        vec![Comparison::new("a", Relation::Equal, 0), Comparison::new("b", Relation::Above, 5)]
    };
    let (all_enc, all_dec) = programs(&with(Predicate::all(terms())));
    let (any_enc, any_dec) = programs(&with(Predicate::any(terms())));
    for a in [0u64, 1] {
        for b in [5u64, 6] {
            let values = vec![Value::Int(a), Value::Int(b), Value::Int(0x0102), Value::Int(9)];
            let present = vec![a as u8, b as u8, 1, 2, 9];
            let absent = vec![a as u8, b as u8, 9];
            let without = vec![Value::Int(a), Value::Int(b), Value::Absent, Value::Int(9)];
            let both = a == 0 && b > 5;
            let either = a == 0 || b > 5;

            let bytes = encode(&all_enc, &values);
            assert_eq!(bytes, if both { absent.clone() } else { present.clone() });
            assert_eq!(decode(&all_dec, &bytes), Ok(if both { without.clone() } else { values.clone() }));

            let bytes = encode(&any_enc, &values);
            assert_eq!(bytes, if either { absent } else { present });
            assert_eq!(decode(&any_dec, &bytes), Ok(if either { without } else { values }));
        }
    }
}

#[test]
fn predicate_without_comparisons_holds_for_all_and_fails_for_any() {
    let with = |predicate: Predicate| {
        StructureDescriptor::new(
            "Guarded",
            None,
            vec![scalar("x", IntWidth::W8).skip_if(predicate)],
        )
    };
    let (enc, dec) = programs(&with(Predicate::all(vec![])));
    assert_eq!(encode(&enc, &vec![Value::Int(1)]), Vec::<u8>::new());
    assert_eq!(decode(&dec, &[1]), Ok(vec![Value::Absent]));
    let (enc, dec) = programs(&with(Predicate::any(vec![])));
    assert_eq!(encode(&enc, &vec![Value::Int(1)]), vec![1]);
    assert_eq!(decode(&dec, &[1]), Ok(vec![Value::Int(1)]));
}

#[test]
fn structures_nested_in_depth_round_trip() {
    let point = |name: &str| {
        MemberDescriptor::new(
            name,
            MemberKind::Nested {
                byte_order: Some(ByteOrder::Little),
                members: vec![
                    MemberDescriptor::new("x", MemberKind::Scalar(IntWidth::W16), None),
                    MemberDescriptor::new("y", MemberKind::Scalar(IntWidth::W16), Some(ByteOrder::Big)),
                ],
            },
            None,
        )
    };
    let segment = MemberDescriptor::new(
        "segment",
        MemberKind::Nested {
            byte_order: None,
            members: vec![
                point("from"),
                point("to"),
                MemberDescriptor::new("weights", MemberKind::Array(IntWidth::W8, 2), None),
            ],
        },
        None,
    );
    let desc = StructureDescriptor::new(
        "Drawing",
        Some(ByteOrder::Little),
        vec![
            scalar("id", IntWidth::W16),
            FieldDescriptor::new(
                "shape",
                FieldKind::Nested {
                    byte_order: None,
                    members: vec![
                        MemberDescriptor::new("layer", MemberKind::Scalar(IntWidth::W16), None),
                        segment.clone(),
                    ],
                },
            ),
            FieldDescriptor::new(
                "extra",
                FieldKind::Choice(
                    IntWidth::W8,
                    vec![
                        VariantDescriptor::new("None", 0, vec![]),
                        VariantDescriptor::new("Segment", 1, vec![segment]),
                    ],
                ),
            ),
        ],
    );
    let (enc, dec) = programs(&desc);
    let point_value = |x: u64, y: u64| Atom::Record(vec![Atom::Int(x), Atom::Int(y)]);
    let segment_value = |seed: u64| {
        Atom::Record(vec![
            point_value(seed, seed + 1),
            point_value(seed + 2, seed + 3),
            Atom::Array(vec![7, 8]),
        ])
    };
    let values = vec![
        Value::Int(0x0102),
        Value::Record(vec![Atom::Int(0x0304), segment_value(0x1000)]),
        Value::Variant { index: 1, members: vec![segment_value(0x2000)] },
    ];
    let bytes = encode(&enc, &values);
    let expected: Vec<u8> = vec![
        0x02, 0x01, // id: the structure's order, little endian
        0x03, 0x04, // layer: a nested structure does not inherit, big endian
        0x00, 0x10, 0x10, 0x01, // from: its own default for x, its own order for y
        0x02, 0x10, 0x10, 0x03, // to
        7, 8, // weights
        1, // the tag of Segment
        0x00, 0x20, 0x20, 0x01, 0x02, 0x20, 0x20, 0x03, 7, 8,
    ];
    assert_eq!(bytes, expected);
    assert_eq!(decode(&dec, &bytes), Ok(values));
    for k in 0..bytes.len() {
        let field = if k < 2 { 0 } else if k < 14 { 1 } else { 2 };
        assert_eq!(decode(&dec, &bytes[..k]), Err(DecodeError::Truncated { field }));
    }
}

#[test]
fn decoded_values_encode_back_to_the_input() {
    let (enc, dec) = programs(&packet());
    // Every input that decodes, among many made up ones, encodes back to itself.
    let mut decoded = 0;
    for seed in 0u32..2000 {
        let mut state = seed.wrapping_mul(2654435761).wrapping_add(12345);
        let len = 30 + (seed % 17) as usize;
        let mut input: Vec<u8> = Vec::with_capacity(len);
        for _ in 0..len {
            state = state.wrapping_mul(1664525).wrapping_add(1013904223);
            input.push((state >> 24) as u8);
        }
        input[1] = 1 + (seed % 2) as u8; // a declared tag
        input[4] = (seed % 5) as u8; // a short name
        if let Ok(values) = decode(&dec, &input) {
            decoded += 1;
            assert_eq!(encode(&enc, &values), input);
            assert_eq!(decode(&dec, &encode(&enc, &values)), Ok(values));
        }
    }
    assert!(decoded > 1000);
}

#[test]
fn canonical_form_encodes_to_the_same_bytes() {
    let (enc, dec) = programs(&packet());
    let mut values = packet_values(1, b"abc", &[5]);
    values[1] = Value::Int(0);
    values[3] = Value::Int(200);
    values[8] = Value::Bytes(vec![]);
    let bytes = encode(&enc, &values);
    let canonical = decode(&dec, &bytes).unwrap();
    assert_ne!(canonical, values);
    assert_eq!(encode(&enc, &canonical), bytes);
    assert_eq!(decode(&dec, &bytes), Ok(canonical));
}
