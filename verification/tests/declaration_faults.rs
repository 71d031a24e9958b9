use binstruct::resolver::resolve;
use binstruct::schema::{
    Comparison, ConfigError, ConfigReason, FieldDescriptor, FieldKind, MemberDescriptor,
    MemberKind, Predicate, Relation, StructureDescriptor, VariantDescriptor,
};
use binstruct::wire::{ByteOrder, IntWidth};

fn structure(fields: Vec<FieldDescriptor>) -> StructureDescriptor {
    StructureDescriptor::new("S", None, fields)
}

fn scalar(name: &str, width: IntWidth) -> FieldDescriptor {
    FieldDescriptor::new(name, FieldKind::Scalar(width))
}

fn blob(name: &str) -> FieldDescriptor {
    FieldDescriptor::new(name, FieldKind::Blob)
}

fn refused(fields: Vec<FieldDescriptor>, field: usize, reason: ConfigReason) {
    let desc = structure(fields);
    assert_eq!(resolve(&desc), Err(ConfigError { field, reason }));
}

fn variant(name: &str, tag: u64) -> VariantDescriptor {
    VariantDescriptor::new(name, tag, vec![])
}

#[test]
fn duplicate_name_is_refused() {
    refused(
        vec![scalar("a", IntWidth::W8), scalar("b", IntWidth::W8), scalar("a", IntWidth::W16)],
        2,
        ConfigReason::DuplicateName,
    );
}

#[test]
fn byte_order_on_blob_is_refused() {
    refused(
        vec![blob("data").size(4).byte_order(ByteOrder::Little)],
        0,
        ConfigReason::ByteOrderNotApplicable,
    );
}

#[test]
fn byte_order_on_nested_structure_is_refused() {
    let nested = FieldDescriptor::new(
        "inner",
        FieldKind::Nested {
            byte_order: None,
            members: vec![MemberDescriptor::new("x", MemberKind::Scalar(IntWidth::W16), None)],
        },
    )
    .byte_order(ByteOrder::Big);
    refused(vec![nested], 0, ConfigReason::ByteOrderNotApplicable);
}

#[test]
fn byte_order_on_skipped_field_is_refused() {
    refused(
        vec![FieldDescriptor::new("cache", FieldKind::Skipped).byte_order(ByteOrder::Big)],
        0,
        ConfigReason::ByteOrderNotApplicable,
    );
}

#[test]
fn size_together_with_len_is_refused() {
    refused(
        vec![scalar("n", IntWidth::W8), blob("data").size(4).len("n")],
        1,
        ConfigReason::ConflictingSize,
    );
}

#[test]
fn size_together_with_terminal_is_refused() {
    refused(vec![blob("data").size(4).terminal()], 0, ConfigReason::ConflictingSize);
}

#[test]
fn len_together_with_terminal_is_refused() {
    refused(
        vec![scalar("n", IntWidth::W8), blob("data").len("n").terminal()],
        1,
        ConfigReason::ConflictingSize,
    );
}

#[test]
fn len_together_with_skip_if_is_refused() {
    refused(
        vec![
            scalar("flag", IntWidth::W8),
            scalar("n", IntWidth::W8),
            blob("data").len("n").skip_if(Predicate::new("flag", Relation::Equal, 0)),
        ],
        2,
        ConfigReason::LengthWithPresence,
    );
}

#[test]
fn size_on_scalar_is_refused() {
    refused(vec![scalar("a", IntWidth::W32).size(4)], 0, ConfigReason::SizeNotApplicable);
}

#[test]
fn terminal_on_array_is_refused() {
    refused(
        vec![FieldDescriptor::new("xs", FieldKind::Array(IntWidth::W8, 2)).terminal()],
        0,
        ConfigReason::SizeNotApplicable,
    );
}

#[test]
fn blob_without_size_is_refused() {
    refused(vec![blob("data")], 0, ConfigReason::MissingSize);
}

#[test]
fn length_of_on_blob_is_refused() {
    refused(
        vec![blob("a").size(1).length_of("b"), blob("b").size(1)],
        0,
        ConfigReason::LengthSourceNotApplicable,
    );
}

#[test]
fn discriminant_on_scalar_is_refused() {
    refused(
        vec![scalar("kind", IntWidth::W8), scalar("a", IntWidth::W8).discriminant("kind")],
        1,
        ConfigReason::DiscriminantNotApplicable,
    );
}

#[test]
fn len_naming_no_field_is_refused() {
    refused(vec![blob("data").len("count")], 0, ConfigReason::UnknownReference);
}

#[test]
fn skip_if_naming_no_field_is_refused() {
    refused(
        vec![scalar("a", IntWidth::W8).skip_if(Predicate::new("flag", Relation::Equal, 1))],
        0,
        ConfigReason::UnknownReference,
    );
}

#[test]
fn length_of_naming_no_field_is_refused() {
    refused(vec![scalar("n", IntWidth::W8).length_of("data")], 0, ConfigReason::UnknownReference);
}

#[test]
fn len_naming_later_field_is_refused() {
    refused(
        vec![blob("data").len("count"), scalar("count", IntWidth::W8)],
        0,
        ConfigReason::ForwardReference,
    );
}

#[test]
fn skip_if_naming_itself_is_refused() {
    refused(
        vec![scalar("a", IntWidth::W8).skip_if(Predicate::new("a", Relation::Above, 3))],
        0,
        ConfigReason::ForwardReference,
    );
}

#[test]
fn discriminant_naming_later_field_is_refused() {
    refused(
        vec![
            FieldDescriptor::new("body", FieldKind::Choice(IntWidth::W8, vec![variant("A", 1)]))
                .discriminant("kind"),
            scalar("kind", IntWidth::W8),
        ],
        0,
        ConfigReason::ForwardReference,
    );
}

#[test]
fn len_naming_an_array_is_refused() {
    refused(
        vec![FieldDescriptor::new("xs", FieldKind::Array(IntWidth::W8, 2)), blob("data").len("xs")],
        1,
        ConfigReason::UnusableReference,
    );
}

#[test]
fn skip_if_naming_a_conditional_field_is_refused() {
    refused(
        vec![
            scalar("a", IntWidth::W8),
            scalar("b", IntWidth::W8).skip_if(Predicate::new("a", Relation::Equal, 0)),
            scalar("c", IntWidth::W8).skip_if(Predicate::new("b", Relation::Equal, 0)),
        ],
        2,
        ConfigReason::UnusableReference,
    );
}

#[test]
fn two_blobs_sharing_a_length_field_are_refused() {
    refused(
        vec![scalar("n", IntWidth::W8), blob("a").len("n"), blob("b").len("n")],
        2,
        ConfigReason::SharedReference,
    );
}

#[test]
fn length_and_tag_from_one_field_are_refused() {
    refused(
        vec![
            scalar("n", IntWidth::W8),
            blob("a").len("n"),
            FieldDescriptor::new("body", FieldKind::Choice(IntWidth::W8, vec![variant("A", 1)]))
                .discriminant("n"),
        ],
        2,
        ConfigReason::SharedReference,
    );
}

#[test]
fn length_of_without_matching_len_is_refused() {
    refused(
        vec![scalar("n", IntWidth::W8).length_of("data"), blob("data").size(3)],
        0,
        ConfigReason::LengthPairMismatch,
    );
}

#[test]
fn length_of_naming_another_fields_blob_is_refused() {
    refused(
        vec![
            scalar("n", IntWidth::W8).length_of("b"),
            scalar("m", IntWidth::W8),
            blob("a").len("n"),
            blob("b").len("m"),
        ],
        0,
        ConfigReason::LengthPairMismatch,
    );
}

#[test]
fn tag_field_of_other_width_is_refused() {
    refused(
        vec![
            scalar("kind", IntWidth::W8),
            FieldDescriptor::new("body", FieldKind::Choice(IntWidth::W16, vec![variant("A", 1)]))
                .discriminant("kind"),
        ],
        1,
        ConfigReason::TagWidthMismatch,
    );
}

#[test]
fn terminal_field_before_the_last_is_refused() {
    refused(
        vec![blob("rest").terminal(), scalar("crc", IntWidth::W32)],
        0,
        ConfigReason::TerminalNotLast,
    );
}

#[test]
fn two_terminal_fields_are_refused() {
    refused(
        vec![scalar("a", IntWidth::W8), blob("x").terminal(), blob("y").terminal()],
        1,
        ConfigReason::TerminalNotLast,
    );
}

#[test]
fn duplicate_tag_is_refused() {
    refused(
        vec![FieldDescriptor::new(
            "body",
            FieldKind::Choice(IntWidth::W8, vec![variant("A", 1), variant("B", 2), variant("C", 1)]),
        )],
        0,
        ConfigReason::DuplicateTag,
    );
}

#[test]
fn tag_too_wide_is_refused() {
    refused(
        vec![FieldDescriptor::new(
            "body",
            FieldKind::Choice(IntWidth::W8, vec![variant("A", 1), variant("B", 256)]),
        )],
        0,
        ConfigReason::TagOutOfRange,
    );
}

#[test]
fn array_larger_than_memory_is_refused() {
    refused(
        vec![FieldDescriptor::new("xs", FieldKind::Array(IntWidth::W64, usize::MAX))],
        0,
        ConfigReason::SizeOverflow,
    );
}

#[test]
fn nested_structure_larger_than_memory_is_refused() {
    let members = vec![
        MemberDescriptor::new("a", MemberKind::Array(IntWidth::W8, usize::MAX), None),
        MemberDescriptor::new("b", MemberKind::Scalar(IntWidth::W8), None),
    ];
    refused(
        vec![FieldDescriptor::new("inner", FieldKind::Nested { byte_order: None, members })],
        0,
        ConfigReason::SizeOverflow,
    );
}

#[test]
fn annotation_faults_come_before_layout_faults() {
    // Field 0 is misplaced, field 1 has conflicting options: the conflict is
    // reported, since options are checked for the whole structure first.
    refused(
        vec![blob("rest").terminal(), blob("data").size(1).terminal()],
        1,
        ConfigReason::ConflictingSize,
    );
}

#[test]
fn first_faulty_field_is_reported() {
    refused(
        vec![scalar("a", IntWidth::W8), blob("b"), blob("c")],
        1,
        ConfigReason::MissingSize,
    );
}

#[test]
fn check_reports_only_annotation_faults() {
    let desc = structure(vec![blob("rest").terminal(), scalar("crc", IntWidth::W32)]);
    assert_eq!(desc.check(), Ok(()));
    assert!(resolve(&desc).is_err());
}

#[test]
fn terminal_field_in_a_padded_structure_is_refused() {
    let desc = structure(vec![scalar("a", IntWidth::W8), blob("rest").terminal()]).align(4);
    assert_eq!(
        resolve(&desc),
        Err(ConfigError { field: 1, reason: ConfigReason::TerminalWithPadding })
    );
}

#[test]
fn alignment_of_one_or_zero_is_no_padding() {
    for align in [0usize, 1] {
        let desc = structure(vec![scalar("a", IntWidth::W8), blob("rest").terminal()]).align(align);
        assert_eq!(resolve(&desc).unwrap().align, 1);
    }
    let desc = structure(vec![scalar("a", IntWidth::W8)]).align(8);
    assert_eq!(resolve(&desc).unwrap().align, 8);
    assert_eq!(resolve(&structure(vec![])).unwrap().align, 1);
}

#[test]
fn every_comparison_of_a_predicate_is_checked() {
    let with = |second: &str| {
        vec![
            scalar("a", IntWidth::W8),
            FieldDescriptor::new("xs", FieldKind::Array(IntWidth::W8, 2)),
            scalar("c", IntWidth::W8).skip_if(Predicate::any(vec![
                Comparison::new("a", Relation::Equal, 0),
                Comparison::new(second, Relation::Equal, 0),
            ])),
            scalar("d", IntWidth::W8),
        ]
    };
    refused(with("nope"), 2, ConfigReason::UnknownReference);
    refused(with("d"), 2, ConfigReason::ForwardReference);
    refused(with("c"), 2, ConfigReason::ForwardReference);
    refused(with("xs"), 2, ConfigReason::UnusableReference);
    assert!(resolve(&structure(with("a"))).is_ok());
}

#[test]
fn byte_order_on_a_nested_member_structure_is_refused() {
    let inner = MemberDescriptor::new(
        "inner",
        MemberKind::Nested {
            byte_order: Some(ByteOrder::Little),
            members: vec![MemberDescriptor::new("x", MemberKind::Scalar(IntWidth::W16), None)],
        },
        Some(ByteOrder::Big),
    );
    let in_nested = FieldDescriptor::new(
        "outer",
        FieldKind::Nested {
            byte_order: None,
            members: vec![
                MemberDescriptor::new("a", MemberKind::Scalar(IntWidth::W8), None),
                MemberDescriptor::new(
                    "deep",
                    MemberKind::Nested { byte_order: None, members: vec![inner.clone()] },
                    None,
                ),
            ],
        },
    );
    refused(vec![scalar("n", IntWidth::W8), in_nested], 1, ConfigReason::ByteOrderNotApplicable);
    let in_variant = FieldDescriptor::new(
        "body",
        FieldKind::Choice(
            IntWidth::W8,
            vec![variant("A", 1), VariantDescriptor::new("B", 2, vec![inner])],
        ),
    );
    refused(vec![in_variant], 0, ConfigReason::ByteOrderNotApplicable);
}

#[test]
fn nested_sizes_add_up_in_depth() {
    let deep = |count: usize| {
        FieldDescriptor::new(
            "outer",
            FieldKind::Nested {
                byte_order: None,
                members: vec![
                    MemberDescriptor::new("a", MemberKind::Scalar(IntWidth::W16), None),
                    MemberDescriptor::new(
                        "mid",
                        MemberKind::Nested {
                            byte_order: None,
                            members: vec![
                                MemberDescriptor::new("b", MemberKind::Array(IntWidth::W32, count), None),
                                MemberDescriptor::new("c", MemberKind::Scalar(IntWidth::W32), None),
                            ],
                        },
                        None,
                    ),
                ],
            },
        )
    };
    let plan = resolve(&structure(vec![deep(3)])).unwrap();
    assert_eq!(plan.fields[0].size, binstruct::layout::SizeStrategy::FixedCompound(18));
    // The largest structure that still has a size.
    assert!(resolve(&structure(vec![deep(usize::MAX / 4 - 1)])).is_ok());
    refused(vec![deep(usize::MAX / 4)], 0, ConfigReason::SizeOverflow);
}

#[test]
fn discriminant_together_with_skip_if_is_refused() {
    refused(
        vec![
            scalar("flag", IntWidth::W8),
            scalar("kind", IntWidth::W8),
            FieldDescriptor::new("body", FieldKind::Choice(IntWidth::W8, vec![variant("A", 1)]))
                .discriminant("kind")
                .skip_if(Predicate::new("flag", Relation::Equal, 0)),
        ],
        2,
        ConfigReason::TagWithPresence,
    );
}
