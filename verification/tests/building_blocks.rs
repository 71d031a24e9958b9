use binstruct::decoder::{BlobSize, DecodeProgram, DecodeStep, Take};
use binstruct::encoder::{Emit, EncodeProgram, EncodeStep};
use binstruct::layout::{
    check_placement, copy_guard, copy_members, copy_variants, find_definer, fixed_size_of,
    guard_is_below, Guard, Member, Term, Variant,
};
use binstruct::members::{
    ints_accepted, member_accepted, members_accepted, put_int, put_ints, put_member, put_members,
    take_int, take_ints, take_member, take_members,
};
use binstruct::resolver::{resolve_field, settle_order};
use binstruct::schema::{
    check_field, find_field, ConfigReason, Connective, FieldDescriptor, FieldKind,
    MemberDescriptor, MemberKind, Relation, StructureDescriptor,
};
use binstruct::value::{copy_atom, copy_atoms, Atom};
use binstruct::wire::{padding_for, zero_bytes, ByteOrder, ByteSink, ByteSource, IntWidth};

fn fields() -> Vec<FieldDescriptor> {
    vec![
        FieldDescriptor::new("n", FieldKind::Scalar(IntWidth::W8)),
        FieldDescriptor::new("data", FieldKind::Blob).len("n"),
        FieldDescriptor::new("n", FieldKind::Scalar(IntWidth::W8)),
        FieldDescriptor::new("rest", FieldKind::Blob).terminal(),
        FieldDescriptor::new("late", FieldKind::Scalar(IntWidth::W8)),
    ]
}

#[test]
fn fields_are_found_by_name() {
    let fields = fields();
    assert_eq!(find_field(&fields, &"n".to_string()), Some(0));
    assert_eq!(find_field(&fields, &"rest".to_string()), Some(3));
    assert_eq!(find_field(&fields, &"nope".to_string()), None);
    assert_eq!(find_definer(&fields, &"n".to_string()), Some(1));
    assert_eq!(find_definer(&fields, &"data".to_string()), None);
}

#[test]
fn fields_are_checked_one_by_one() {
    let fields = fields();
    assert_eq!(check_field(&fields, 0), None);
    assert_eq!(check_field(&fields, 1), None);
    assert_eq!(check_field(&fields, 2), Some(ConfigReason::DuplicateName));
    assert_eq!(check_placement(&fields, 1), None);
    assert_eq!(check_placement(&fields, 3), Some(ConfigReason::TerminalNotLast));
    assert_eq!(check_placement(&fields, 4), None);
}

#[test]
fn fixed_sizes_are_computed() {
    assert_eq!(fixed_size_of(&FieldKind::Scalar(IntWidth::W32)), Some(4));
    assert_eq!(fixed_size_of(&FieldKind::Array(IntWidth::W16, 7)), Some(14));
    assert_eq!(fixed_size_of(&FieldKind::Array(IntWidth::W16, usize::MAX)), None);
    assert_eq!(fixed_size_of(&FieldKind::Blob), Some(0));
    let members = vec![
        MemberDescriptor::new("a", MemberKind::Scalar(IntWidth::W64), None),
        MemberDescriptor::new("b", MemberKind::Array(IntWidth::W32, 3), None),
    ];
    assert_eq!(fixed_size_of(&FieldKind::Nested { byte_order: None, members }), Some(20));
}

#[test]
fn byte_order_settles_by_precedence() {
    assert_eq!(settle_order(Some(ByteOrder::Little), Some(ByteOrder::Big)), ByteOrder::Little);
    assert_eq!(settle_order(None, Some(ByteOrder::Little)), ByteOrder::Little);
    assert_eq!(settle_order(None, None), ByteOrder::Big);
}

#[test]
fn one_field_resolves_by_itself() {
    let desc = StructureDescriptor::new(
        "S",
        Some(ByteOrder::Little),
        vec![
            FieldDescriptor::new("n", FieldKind::Scalar(IntWidth::W8)),
            FieldDescriptor::new("x", FieldKind::Scalar(IntWidth::W16)).skip_if(
                binstruct::schema::Predicate::new("n", Relation::Above, 9),
            ),
        ],
    );
    let field = resolve_field(&desc, 1);
    assert_eq!(field.name, "x");
    assert_eq!(
        field.skip_if,
        Some(Guard {
            connective: Connective::Any,
            terms: vec![Term { index: 0, relation: Relation::Above, operand: 9 }],
        })
    );
}

#[test]
fn member_lists_are_copied() {
    let members = vec![
        Member::Int { width: IntWidth::W8, order: ByteOrder::Big },
        Member::Array { width: IntWidth::W16, order: ByteOrder::Little, count: 2 },
    ];
    assert_eq!(copy_members(&members), members);
    let nested = Member::Record {
        members: vec![Member::Record { members: members.clone() }, members[0].clone()],
    };
    assert_eq!(binstruct::layout::copy_member(&nested), nested);
    assert_eq!(nested.clone(), nested);
    let variants = vec![Variant { tag: 1, members: members.clone() }, Variant { tag: 2, members: vec![] }];
    assert_eq!(copy_variants(&variants), variants);
}

#[test]
fn members_are_written_and_read() {
    let members = vec![
        Member::Int { width: IntWidth::W16, order: ByteOrder::Big },
        Member::Array { width: IntWidth::W16, order: ByteOrder::Little, count: 2 },
    ];
    let atoms = vec![Atom::Int(0x0102), Atom::Array(vec![0x0304, 0x0506])];
    assert!(members_accepted(&members, &atoms));
    let mut sink = ByteSink::new(16);
    assert!(put_members(&mut sink, &members, &atoms));
    assert_eq!(sink.as_slice(), &[1, 2, 4, 3, 6, 5]);
    let mut source = ByteSource::new(sink.into_bytes());
    assert_eq!(take_members(&mut source, &members), Some(atoms));
    assert_eq!(source.remaining(), 0);
    let mut short = ByteSource::new(vec![1, 2, 4, 3, 6]);
    assert_eq!(take_members(&mut short, &members), None);
}

#[test]
fn single_members_are_written_and_read() {
    let int = Member::Int { width: IntWidth::W32, order: ByteOrder::Little };
    let array = Member::Array { width: IntWidth::W8, order: ByteOrder::Big, count: 3 };
    let mut sink = ByteSink::new(5);
    assert!(put_member(&mut sink, &int, &Atom::Int(0x0102_0304)));
    assert!(!put_member(&mut sink, &array, &Atom::Array(vec![7, 8, 9])));
    assert_eq!(sink.as_slice(), &[4, 3, 2, 1, 7]);
    let mut source = ByteSource::new(vec![4, 3, 2, 1, 7, 8, 9]);
    assert_eq!(take_member(&mut source, &int), Some(Atom::Int(0x0102_0304)));
    assert_eq!(take_member(&mut source, &array), Some(Atom::Array(vec![7, 8, 9])));
    assert_eq!(take_member(&mut source, &int), None);
}

#[test]
fn integers_are_written_and_read_through_sink_and_source() {
    let mut sink = ByteSink::new(8);
    assert!(put_int(&mut sink, 0xABCD, IntWidth::W16, ByteOrder::Big));
    assert!(put_ints(&mut sink, &vec![1, 2, 3], IntWidth::W16, ByteOrder::Little));
    assert!(!put_int(&mut sink, 9, IntWidth::W8, ByteOrder::Big));
    assert_eq!(sink.as_slice(), &[0xAB, 0xCD, 1, 0, 2, 0, 3, 0]);
    let mut source = ByteSource::new(sink.into_bytes());
    assert_eq!(take_int(&mut source, IntWidth::W16, ByteOrder::Big), Some(0xABCD));
    assert_eq!(take_ints(&mut source, IntWidth::W16, ByteOrder::Little, 3), Some(vec![1, 2, 3]));
    assert_eq!(take_ints(&mut source, IntWidth::W16, ByteOrder::Little, 0), Some(vec![]));
    assert_eq!(take_int(&mut source, IntWidth::W8, ByteOrder::Big), None);
}

#[test]
fn values_are_tested_against_members() {
    assert!(ints_accepted(&vec![0, 255], IntWidth::W8));
    assert!(!ints_accepted(&vec![0, 256], IntWidth::W8));
    assert!(ints_accepted(&vec![], IntWidth::W8));
    let int = Member::Int { width: IntWidth::W8, order: ByteOrder::Big };
    let array = Member::Array { width: IntWidth::W8, order: ByteOrder::Big, count: 2 };
    assert!(member_accepted(&int, &Atom::Int(255)));
    assert!(!member_accepted(&int, &Atom::Int(256)));
    assert!(!member_accepted(&int, &Atom::Array(vec![1])));
    assert!(!member_accepted(&int, &Atom::Record(vec![])));
    assert!(member_accepted(&array, &Atom::Array(vec![1, 2])));
    assert!(!member_accepted(&array, &Atom::Array(vec![1])));
    assert!(!member_accepted(&array, &Atom::Int(1)));
    let record = Member::Record { members: vec![int.clone(), array.clone()] };
    assert!(member_accepted(&record, &Atom::Record(vec![Atom::Int(1), Atom::Array(vec![1, 2])])));
    assert!(!member_accepted(&record, &Atom::Record(vec![Atom::Int(1)])));
    assert!(!member_accepted(&record, &Atom::Record(vec![Atom::Int(256), Atom::Array(vec![1, 2])])));
    assert!(!member_accepted(&record, &Atom::Int(1)));
    assert!(!members_accepted(&vec![int, array], &vec![Atom::Int(1)]));
    assert!(members_accepted(&vec![], &vec![]));
}

#[test]
fn hand_built_programs_are_tested_for_well_formedness() {
    let int = || Emit::Int { width: IntWidth::W8, order: ByteOrder::Big };
    let good = EncodeProgram {
        steps: vec![
            EncodeStep {
                skip_if: None,
                emit: Emit::LengthOf { target: 1, width: IntWidth::W8, order: ByteOrder::Big },
            },
            EncodeStep { skip_if: None, emit: Emit::Blob { exact: None } },
        ],
        align: 1,
    };
    assert!(good.is_wf());
    assert!(!EncodeProgram { steps: vec![], align: 0 }.is_wf());
    let dangling = EncodeProgram {
        steps: vec![EncodeStep {
            skip_if: Some(Guard {
            connective: Connective::Any,
            terms: vec![Term { index: 1, relation: Relation::Equal, operand: 0 }],
        }),
            emit: int(),
        }],
        align: 1,
    };
    assert!(!dangling.is_wf());
    let far = EncodeProgram {
        steps: vec![EncodeStep {
            skip_if: None,
            emit: Emit::TagOf { target: 5, width: IntWidth::W8, order: ByteOrder::Big },
        }],
        align: 4,
    };
    assert!(!far.is_wf());

    let take = || Take::Int { width: IntWidth::W8, order: ByteOrder::Big };
    let backward = DecodeProgram {
        steps: vec![
            DecodeStep { skip_if: None, take: take() },
            DecodeStep { skip_if: None, take: Take::Blob { size: BlobSize::Counted(0) } },
        ],
        align: 8,
    };
    assert!(backward.is_wf());
    assert!(!DecodeProgram { steps: vec![], align: 0 }.is_wf());
    let forward = DecodeProgram {
        steps: vec![
            DecodeStep { skip_if: None, take: Take::Blob { size: BlobSize::Counted(1) } },
            DecodeStep { skip_if: None, take: take() },
        ],
        align: 1,
    };
    assert!(!forward.is_wf());
    let own_guard = DecodeProgram {
        steps: vec![DecodeStep {
            skip_if: Some(Guard {
            connective: Connective::Any,
            terms: vec![Term { index: 0, relation: Relation::Equal, operand: 0 }],
        }),
            take: take(),
        }],
        align: 1,
    };
    assert!(!own_guard.is_wf());
}

#[test]
fn all_reasons_have_distinct_words() {
    let reasons = [
        ConfigReason::DuplicateName,
        ConfigReason::ByteOrderNotApplicable,
        ConfigReason::ConflictingSize,
        ConfigReason::LengthWithPresence,
        ConfigReason::TagWithPresence,
        ConfigReason::SizeNotApplicable,
        ConfigReason::MissingSize,
        ConfigReason::LengthSourceNotApplicable,
        ConfigReason::DiscriminantNotApplicable,
        ConfigReason::UnknownReference,
        ConfigReason::ForwardReference,
        ConfigReason::UnusableReference,
        ConfigReason::SharedReference,
        ConfigReason::LengthPairMismatch,
        ConfigReason::TagWidthMismatch,
        ConfigReason::TerminalNotLast,
        ConfigReason::DuplicateTag,
        ConfigReason::TagOutOfRange,
        ConfigReason::SizeOverflow,
        ConfigReason::TerminalWithPadding,
    ];
    for (i, one) in reasons.iter().enumerate() {
        assert!(!one.message().is_empty());
        for other in &reasons[..i] {
            assert_ne!(one.message(), other.message());
        }
    }
}

#[test]
fn every_reason_has_its_words() {
    assert_eq!(ConfigReason::TerminalNotLast.message(), "a terminal field must be the last field");
    assert_eq!(ConfigReason::DuplicateTag.message(), "two variants have the same tag");
    assert_eq!(
        ConfigReason::ForwardReference.message(),
        "the referenced field is not declared earlier"
    );
}

#[test]
fn padding_brings_a_length_to_a_multiple() {
    assert_eq!(padding_for(0, 4), 0);
    assert_eq!(padding_for(1, 4), 3);
    assert_eq!(padding_for(3, 4), 1);
    assert_eq!(padding_for(4, 4), 0);
    assert_eq!(padding_for(9, 8), 7);
    assert_eq!(padding_for(5, 1), 0);
    assert_eq!(padding_for(5, 3), 1);
    assert_eq!(zero_bytes(3), vec![0, 0, 0]);
    assert_eq!(zero_bytes(0), Vec::<u8>::new());
}

#[test]
fn guards_are_copied_and_bounded() {
    let guard = Some(Guard {
        connective: Connective::All,
        terms: vec![
            Term { index: 0, relation: Relation::Equal, operand: 1 },
            Term { index: 3, relation: Relation::Above, operand: 2 },
        ],
    });
    assert_eq!(copy_guard(&guard), guard);
    assert_eq!(copy_guard(&None), None);
    assert!(guard_is_below(&guard, 4));
    assert!(!guard_is_below(&guard, 3));
    assert!(guard_is_below(&None, 0));
}

#[test]
fn nested_members_are_written_and_read_in_depth() {
    let inner = Member::Record {
        members: vec![
            Member::Int { width: IntWidth::W8, order: ByteOrder::Big },
            Member::Array { width: IntWidth::W16, order: ByteOrder::Little, count: 2 },
        ],
    };
    let outer = Member::Record {
        members: vec![
            Member::Int { width: IntWidth::W16, order: ByteOrder::Big },
            inner,
            Member::Record { members: vec![] },
            Member::Int { width: IntWidth::W8, order: ByteOrder::Big },
        ],
    };
    let value = Atom::Record(vec![
        Atom::Int(0x0102),
        Atom::Record(vec![Atom::Int(3), Atom::Array(vec![0x0405, 0x0607])]),
        Atom::Record(vec![]),
        Atom::Int(8),
    ]);
    assert!(member_accepted(&outer, &value));
    let mut sink = ByteSink::new(16);
    assert!(put_member(&mut sink, &outer, &value));
    assert_eq!(sink.as_slice(), &[1, 2, 3, 5, 4, 7, 6, 8]);
    let bytes = sink.into_bytes();
    let mut source = ByteSource::new(bytes.clone());
    assert_eq!(take_member(&mut source, &outer), Some(value));
    assert_eq!(source.remaining(), 0);
    for k in 0..bytes.len() {
        let mut short = ByteSource::new(bytes[..k].to_vec());
        assert_eq!(take_member(&mut short, &outer), None);
    }
}

#[test]
fn atoms_are_copied_in_depth() {
    let atom = Atom::Record(vec![
        Atom::Int(1),
        Atom::Array(vec![2, 3]),
        Atom::Record(vec![Atom::Record(vec![]), Atom::Int(4)]),
    ]);
    assert_eq!(copy_atom(&atom), atom);
    assert_eq!(atom.clone(), atom);
    let atoms = vec![atom, Atom::Int(5)];
    assert_eq!(copy_atoms(&atoms), atoms);
}
