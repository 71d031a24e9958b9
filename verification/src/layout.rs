//! The field layout resolver: from a declared structure to a validated layout
//! plan, in which every byte order is settled, every reference is the position
//! of an earlier field and every field has its size strategy.

use crate::schema::{
    declared_size, declared_total, find_field, position, position_spec, Comparison, ConfigError,
    ConfigReason, Connective, FieldDescriptor, FieldKind, MemberDescriptor, MemberKind, Relation,
    StructureDescriptor, VariantDescriptor,
};
use crate::wire::{ByteOrder, IntWidth};
use vstd::prelude::*;

verus! {

/// A member of a record or of a variant, with its byte order settled.
#[derive(PartialEq, Eq, Debug)]
pub enum Member {
    Int { width: IntWidth, order: ByteOrder },
    Array { width: IntWidth, order: ByteOrder, count: usize },
    /// A nested structure, member by member.
    Record { members: Vec<Member> },
}

/// A member as a mathematical value.
pub ghost enum MemberView {
    Int { width: IntWidth, order: ByteOrder },
    Array { width: IntWidth, order: ByteOrder, count: usize },
    Record { members: Seq<MemberView> },
}

/// The mathematical value of a member.
pub open spec fn member_view(m: Member) -> MemberView
    decreases m,
{
    match m {
        Member::Int { width, order } => MemberView::Int { width, order },
        Member::Array { width, order, count } => MemberView::Array { width, order, count },
        Member::Record { members } => MemberView::Record {
            members: Seq::new(
                members@.len(),
                |k: int|
                    if 0 <= k < members@.len() {
                        member_view(members@[k])
                    } else {
                        MemberView::Record { members: Seq::empty() }
                    },
            ),
        },
    }
}

impl View for Member {
    type V = MemberView;

    open spec fn view(&self) -> MemberView {
        member_view(*self)
    }
}

/// The members of a list as mathematical values.
pub open spec fn member_views(ms: Seq<Member>) -> Seq<MemberView> {
    Seq::new(ms.len(), |k: int| ms[k]@)
}

/// The view of a record is the record of its members' views.
pub proof fn record_view(members: Vec<Member>)
    ensures
        (Member::Record { members })@ == (MemberView::Record { members: member_views(members@) }),
{
    assert((Member::Record { members })@->Record_members =~= member_views(members@));
}

/// A variant of an enum field: its tag and its members in wire order.
#[derive(Clone, PartialEq, Eq, Debug)]
pub struct Variant {
    pub tag: u64,
    pub members: Vec<Member>,
}

/// A variant as a mathematical value.
pub ghost struct VariantView {
    pub tag: u64,
    pub members: Seq<MemberView>,
}

impl View for Variant {
    type V = VariantView;

    open spec fn view(&self) -> VariantView {
        VariantView { tag: self.tag, members: member_views(self.members@) }
    }
}

/// The variants of an enum field as mathematical values.
pub open spec fn variant_views(vs: Seq<Variant>) -> Seq<VariantView> {
    Seq::new(vs.len(), |k: int| vs[k]@)
}

/// What an integer field's value stands for.
#[derive(Clone, Copy, PartialEq, Eq, Structural, Debug)]
pub enum Role {
    /// The value is the field's own.
    Plain,
    /// The value is the byte length of the blob at this position.
    LengthOf(usize),
    /// The value is the tag of the enum field at this position.
    TagOf(usize),
}

/// A resolved comparison: the integer at `index` stands in `relation` to
/// `operand`.
#[derive(Clone, Copy, PartialEq, Eq, Structural, Debug)]
pub struct Term {
    pub index: usize,
    pub relation: Relation,
    pub operand: u64,
}

/// A resolved presence predicate: the field is skipped when the terms hold,
/// all of them or any of them.
#[derive(Clone, PartialEq, Eq, Debug)]
pub struct Guard {
    pub connective: Connective,
    pub terms: Vec<Term>,
}

/// A guard as a mathematical value.
pub ghost struct GuardView {
    pub connective: Connective,
    pub terms: Seq<Term>,
}

impl View for Guard {
    type V = GuardView;

    open spec fn view(&self) -> GuardView {
        GuardView { connective: self.connective, terms: self.terms@ }
    }
}

/// The guard of a field, if it has one, as a mathematical value.
pub open spec fn guard_view(g: Option<Guard>) -> Option<GuardView> {
    match g {
        Some(g) => Some(g@),
        None => None,
    }
}

/// How many bytes a field takes.
#[derive(Clone, Copy, PartialEq, Eq, Structural, Debug)]
pub enum SizeStrategy {
    /// A fixed-width scalar of this many bytes.
    FixedScalar(usize),
    /// A compound of this many bytes, known from the declaration.
    FixedCompound(usize),
    /// As many bytes as the integer at this position says.
    LengthFrom(usize),
    /// Every byte that is left.
    Remainder,
    /// As many bytes as the selected variant has.
    Tagged,
}

/// The binary representation of a resolved field.
#[derive(Clone, PartialEq, Eq, Debug)]
pub enum Shape {
    Int { width: IntWidth, order: ByteOrder, role: Role },
    Blob,
    Array { width: IntWidth, order: ByteOrder, count: usize },
    Record { members: Vec<Member> },
    /// `source` is the position of the field that carries the tag; without one
    /// the tag stands in front of the variant's members.
    Choice { width: IntWidth, order: ByteOrder, source: Option<usize>, variants: Vec<Variant> },
    Nothing,
}

/// One field of a layout plan.
#[derive(Clone, PartialEq, Eq, Debug)]
pub struct ResolvedField {
    pub name: String,
    pub shape: Shape,
    pub size: SizeStrategy,
    pub skip_if: Option<Guard>,
}

/// The resolved, ordered description of a structure on the wire.
#[derive(Clone, PartialEq, Eq, Debug)]
pub struct LayoutPlan {
    pub fields: Vec<ResolvedField>,
    /// The encoding is padded with zero bytes to a multiple of this many
    /// bytes; 1 means no padding.
    pub align: usize,
}

/// Bytes that the member occupies.
pub open spec fn member_size(m: MemberView) -> nat
    decreases m,
{
    match m {
        MemberView::Int { width, .. } => width.size(),
        MemberView::Array { width, count, .. } => width.size() * (count as nat),
        MemberView::Record { members } => members_size(members, 0),
    }
}

/// Bytes that the members `ms[k..]` occupy together.
pub open spec fn members_size(ms: Seq<MemberView>, k: int) -> nat
    decreases ms, ms.len() - k,
{
    if k < 0 || k >= ms.len() {
        0
    } else {
        member_size(ms[k]) + members_size(ms, k + 1)
    }
}

/// Whether no two variants share a tag.
pub open spec fn distinct_tags(vs: Seq<VariantView>) -> bool {
    forall|k: int, l: int| 0 <= k < l < vs.len() ==> (#[trigger] vs[k]).tag != (#[trigger] vs[l]).tag
}

/// Whether every tag can be written in `width`.
pub open spec fn tags_fit(width: IntWidth, vs: Seq<VariantView>) -> bool {
    forall|k: int| 0 <= k < vs.len() ==> width.holds((#[trigger] vs[k]).tag)
}

impl LayoutPlan {
    /// Whether position `j` holds an integer that is always on the wire.
    pub open spec fn scalar_at(&self, j: int) -> bool {
        &&& 0 <= j < self.fields@.len()
        &&& self.fields@[j].shape is Int
        &&& self.fields@[j].skip_if.is_none()
    }

    /// The part of the invariant of field `i` that is about its guard: every
    /// term refers to an earlier integer that is always on the wire.
    pub open spec fn guard_wf(&self, i: int) -> bool {
        match self.fields@[i].skip_if {
            Some(g) => forall|k: int|
                0 <= k < g.terms@.len() ==> (#[trigger] g.terms@[k]).index < i && self.scalar_at(
                    g.terms@[k].index as int,
                ),
            None => true,
        }
    }

    /// The invariant of one field: its references point to earlier integer
    /// fields, a length or tag field and the field it serves name each other,
    /// only the last field takes the remainder, and the size strategy agrees
    /// with the shape.
    pub open spec fn field_wf(&self, i: int) -> bool {
        let f = self.fields@[i];
        let n = self.fields@.len();
        &&& self.guard_wf(i)
        &&& match f.shape {
            Shape::Int { width, order, role } => {
                &&& f.size == SizeStrategy::FixedScalar(width.size() as usize)
                &&& match role {
                    Role::Plain => true,
                    Role::LengthOf(t) => {
                        &&& i < t < n
                        &&& f.skip_if.is_none()
                        &&& self.fields@[t as int].shape is Blob
                        &&& self.fields@[t as int].size == SizeStrategy::LengthFrom(i as usize)
                    },
                    Role::TagOf(t) => {
                        &&& i < t < n
                        &&& f.skip_if.is_none()
                        &&& match self.fields@[t as int].shape {
                            Shape::Choice { width: tag_width, source, .. } => tag_width == width
                                && source == Some(i as usize),
                            _ => false,
                        }
                    },
                }
            },
            Shape::Blob => match f.size {
                SizeStrategy::FixedCompound(_) => true,
                SizeStrategy::LengthFrom(j) => {
                    &&& j < i
                    &&& f.skip_if.is_none()
                    &&& self.scalar_at(j as int)
                    &&& match self.fields@[j as int].shape {
                        Shape::Int { role, .. } => role == Role::LengthOf(i as usize),
                        _ => false,
                    }
                },
                SizeStrategy::Remainder => i == n - 1,
                _ => false,
            },
            Shape::Array { width, order, count } => {
                &&& width.size() * count <= usize::MAX
                &&& f.size == SizeStrategy::FixedCompound((width.size() * count) as usize)
            },
            Shape::Record { members } => {
                &&& members_size(member_views(members@), 0) <= usize::MAX
                &&& f.size == SizeStrategy::FixedCompound(
                    members_size(member_views(members@), 0) as usize,
                )
            },
            Shape::Choice { width, order, source, variants } => {
                &&& f.size == SizeStrategy::Tagged
                &&& distinct_tags(variant_views(variants@))
                &&& tags_fit(width, variant_views(variants@))
                &&& match source {
                    None => true,
                    Some(j) => {
                        &&& j < i
                        &&& f.skip_if.is_none()
                        &&& self.scalar_at(j as int)
                        &&& match self.fields@[j as int].shape {
                            Shape::Int { width: tag_width, role, .. } => tag_width == width && role
                                == Role::TagOf(i as usize),
                            _ => false,
                        }
                    },
                }
            },
            Shape::Nothing => f.size == SizeStrategy::FixedCompound(0),
        }
    }

    /// The invariant of a layout plan: that of each field, and no padding
    /// after a field that takes the remainder.
    pub open spec fn wf(&self) -> bool {
        &&& forall|i: int| 0 <= i < self.fields@.len() ==> self.field_wf(i)
        &&& self.align >= 1
        &&& self.align > 1 ==> !self.takes_remainder()
    }

    /// Whether some field takes every byte that is left.
    pub open spec fn takes_remainder(&self) -> bool {
        exists|i: int|
            0 <= i < self.fields@.len() && (#[trigger] self.fields@[i]).size
                == SizeStrategy::Remainder
    }

    /// The positions that field `i` refers to for its presence, its length or
    /// its tag.
    pub open spec fn refers_to(&self, i: int, j: int) -> bool {
        let f = self.fields@[i];
        ||| f.skip_if.is_some() && exists|k: int|
            0 <= k < f.skip_if.unwrap().terms@.len() && (#[trigger] f.skip_if.unwrap().terms@[k]).index
                == j
        ||| f.size == SizeStrategy::LengthFrom(j as usize)
        ||| match f.shape {
            Shape::Choice { source, .. } => source == Some(j as usize),
            _ => false,
        }
    }
}

/// In a well-formed plan every length, presence and tag reference points to a
/// field that stands strictly before the field that makes it.
pub proof fn references_point_backward(plan: LayoutPlan, i: int, j: int)
    requires
        plan.wf(),
        0 <= i < plan.fields@.len(),
        0 <= j <= usize::MAX,
        plan.refers_to(i, j),
    ensures
        0 <= j < i,
{
    assert(plan.field_wf(i));
}

/// The first of two faults.
pub open spec fn or_fault(a: Option<ConfigReason>, b: Option<ConfigReason>) -> Option<
    ConfigReason,
> {
    if a.is_some() {
        a
    } else {
        b
    }
}

/// Whether field `f` takes its length or its tag from the field called `name`.
pub open spec fn defines(f: FieldDescriptor, name: Seq<char>) -> bool {
    ||| f.len.is_some() && f.len.unwrap()@ == name
    ||| f.discriminant.is_some() && f.discriminant.unwrap()@ == name
}

/// Position of the first field from `from` on that takes its length or its tag
/// from the field called `name`.
pub open spec fn definer_from(fields: Seq<FieldDescriptor>, name: Seq<char>, from: int) -> Option<
    int,
>
    decreases fields.len() - from,
{
    if from < 0 || from >= fields.len() {
        None
    } else if defines(fields[from], name) {
        Some(from)
    } else {
        definer_from(fields, name, from + 1)
    }
}

/// What `definer_from` finds: the first field that takes its length or tag
/// from the name, if any does.
pub proof fn definer_from_spec(fields: Seq<FieldDescriptor>, name: Seq<char>, from: int)
    requires
        0 <= from,
    ensures
        match definer_from(fields, name, from) {
            Some(j) => from <= j < fields.len() && defines(fields[j], name) && forall|k: int|
                from <= k < j ==> !defines(fields[k], name),
            None => forall|k: int| from <= k < fields.len() ==> !defines(fields[k], name),
        },
    decreases fields.len() - from,
{
    if from < fields.len() && !defines(fields[from], name) {
        definer_from_spec(fields, name, from + 1);
    }
}

/// Whether a field before `i` already takes its length or tag from `name`.
pub open spec fn shared_before(fields: Seq<FieldDescriptor>, i: int, name: Seq<char>) -> bool {
    match definer_from(fields, name, 0) {
        Some(k) => k < i,
        None => false,
    }
}

/// The fault of a terminal field that is not the last field.
pub open spec fn terminal_fault(fields: Seq<FieldDescriptor>, i: int) -> Option<ConfigReason> {
    if fields[i].terminal && i + 1 != fields.len() {
        Some(ConfigReason::TerminalNotLast)
    } else {
        None
    }
}

/// Whether every declared tag can be written in `w`.
pub open spec fn tags_in_range(w: IntWidth, vs: Seq<VariantDescriptor>) -> bool {
    forall|k: int| 0 <= k < vs.len() ==> w.holds((#[trigger] vs[k]).tag)
}

/// Whether no two declared variants share a tag.
pub open spec fn tags_differ(vs: Seq<VariantDescriptor>) -> bool {
    forall|k: int, l: int|
        0 <= k < l < vs.len() ==> (#[trigger] vs[k]).tag != (#[trigger] vs[l]).tag
}

/// The fault of an enum's tags: one that does not fit, else two that are
/// equal.
pub open spec fn tag_fault(kind: FieldKind) -> Option<ConfigReason> {
    match kind {
        FieldKind::Choice(w, vs) => if !tags_in_range(w, vs@) {
            Some(ConfigReason::TagOutOfRange)
        } else if !tags_differ(vs@) {
            Some(ConfigReason::DuplicateTag)
        } else {
            None
        },
        _ => None,
    }
}

/// The size of a field whose kind fixes it; 0 for the other kinds.
pub open spec fn fixed_size(kind: FieldKind) -> nat {
    match kind {
        FieldKind::Scalar(w) => w.size(),
        FieldKind::Array(w, n) => w.size() * (n as nat),
        FieldKind::Nested { members, .. } => declared_total(members@, 0),
        _ => 0,
    }
}

/// The fault of a fixed size that no buffer can have.
pub open spec fn size_fault(kind: FieldKind) -> Option<ConfigReason> {
    if fixed_size(kind) > usize::MAX {
        Some(ConfigReason::SizeOverflow)
    } else {
        None
    }
}

/// The fault of a `length_of` that the named field's `len` does not answer.
pub open spec fn pair_fault(fields: Seq<FieldDescriptor>, i: int) -> Option<ConfigReason> {
    let f = fields[i];
    match f.length_of {
        Some(n) => match position(fields, n@) {
            Some(t) => if fields[t].len.is_some() && fields[t].len.unwrap()@ == f.name@ {
                None
            } else {
                Some(ConfigReason::LengthPairMismatch)
            },
            None => Some(ConfigReason::UnknownReference),
        },
        None => None,
    }
}

/// What is wrong with a reference from field `i` to the field called `name`.
pub open spec fn target_fault(fields: Seq<FieldDescriptor>, i: int, name: Seq<char>) -> Option<
    ConfigReason,
> {
    match position(fields, name) {
        Some(j) => if j >= i {
            Some(ConfigReason::ForwardReference)
        } else if !(fields[j].kind is Scalar) || fields[j].skip_if.is_some() {
            Some(ConfigReason::UnusableReference)
        } else {
            None
        },
        None => Some(ConfigReason::UnknownReference),
    }
}

/// The same for a reference that makes the target a length or a tag.
pub open spec fn defining_fault(fields: Seq<FieldDescriptor>, i: int, name: Seq<char>) -> Option<
    ConfigReason,
> {
    or_fault(
        target_fault(fields, i, name),
        if shared_before(fields, i, name) {
            Some(ConfigReason::SharedReference)
        } else {
            None
        },
    )
}

/// The fault of the field's `len`, if it has one.
pub open spec fn len_fault(fields: Seq<FieldDescriptor>, i: int) -> Option<ConfigReason> {
    match fields[i].len {
        Some(n) => defining_fault(fields, i, n@),
        None => None,
    }
}

/// What is wrong with the first of the comparisons `terms[from..]` of field
/// `i` that has a fault.
pub open spec fn terms_fault(
    fields: Seq<FieldDescriptor>,
    i: int,
    terms: Seq<Comparison>,
    from: int,
) -> Option<ConfigReason>
    decreases terms.len() - from,
{
    if from < 0 || from >= terms.len() {
        None
    } else {
        or_fault(
            target_fault(fields, i, terms[from].field@),
            terms_fault(fields, i, terms, from + 1),
        )
    }
}

/// No comparison from `from` on has a fault exactly when none is reported.
pub proof fn terms_fault_spec(
    fields: Seq<FieldDescriptor>,
    i: int,
    terms: Seq<Comparison>,
    from: int,
)
    requires
        0 <= from,
    ensures
        terms_fault(fields, i, terms, from).is_none() <==> forall|k: int|
            from <= k < terms.len() ==> target_fault(fields, i, (#[trigger] terms[k]).field@).is_none(),
    decreases terms.len() - from,
{
    if from < terms.len() {
        terms_fault_spec(fields, i, terms, from + 1);
    }
}

/// The fault of the field's `skip_if`, if it has one: that of its first faulty
/// comparison.
pub open spec fn presence_fault(fields: Seq<FieldDescriptor>, i: int) -> Option<ConfigReason> {
    match fields[i].skip_if {
        Some(p) => terms_fault(fields, i, p.terms@, 0),
        None => None,
    }
}

/// Whether the tag width of the enum `kind` is the width of the scalar `tag`.
pub open spec fn same_tag_width(kind: FieldKind, tag: FieldKind) -> bool {
    match (kind, tag) {
        (FieldKind::Choice(w, _), FieldKind::Scalar(t)) => w == t,
        _ => false,
    }
}

/// The fault of the field's `discriminant`, if it has one.
pub open spec fn discriminant_fault(fields: Seq<FieldDescriptor>, i: int) -> Option<ConfigReason> {
    match fields[i].discriminant {
        Some(n) => or_fault(
            defining_fault(fields, i, n@),
            if same_tag_width(fields[i].kind, fields[position(fields, n@).unwrap()].kind) {
                None
            } else {
                Some(ConfigReason::TagWidthMismatch)
            },
        ),
        None => None,
    }
}

/// What is wrong with the place of field `i` among the others: the first of
/// the listed faults that applies.
pub open spec fn layout_fault(fields: Seq<FieldDescriptor>, i: int) -> Option<ConfigReason> {
    or_fault(
        terminal_fault(fields, i),
        or_fault(
            tag_fault(fields[i].kind),
            or_fault(
                size_fault(fields[i].kind),
                or_fault(
                    pair_fault(fields, i),
                    or_fault(
                        len_fault(fields, i),
                        or_fault(presence_fault(fields, i), discriminant_fault(fields, i)),
                    ),
                ),
            ),
        ),
    )
}

/// The first layout fault at or after field `from`.
pub open spec fn layout_error_from(fields: Seq<FieldDescriptor>, from: int) -> Option<ConfigError>
    decreases fields.len() - from,
{
    if from < 0 || from >= fields.len() {
        None
    } else {
        match layout_fault(fields, from) {
            Some(reason) => Some(ConfigError { field: from as usize, reason }),
            None => layout_error_from(fields, from + 1),
        }
    }
}

/// No field at or after `from` has a layout fault exactly when none is
/// reported.
pub proof fn layout_error_from_spec(fields: Seq<FieldDescriptor>, from: int)
    requires
        0 <= from,
    ensures
        layout_error_from(fields, from).is_none() <==> forall|k: int|
            from <= k < fields.len() ==> layout_fault(fields, k).is_none(),
    decreases fields.len() - from,
{
    if from < fields.len() {
        layout_error_from_spec(fields, from + 1);
    }
}

/// The fault of a padded structure that ends in a terminal field.
pub open spec fn padding_error(desc: StructureDescriptor) -> Option<ConfigError> {
    let n = desc.fields@.len();
    if desc.padding() > 1 && n > 0 && desc.fields@[n - 1].terminal {
        Some(ConfigError { field: (n - 1) as usize, reason: ConfigReason::TerminalWithPadding })
    } else {
        None
    }
}

/// The error that resolution reports: the first annotation fault; where no
/// field has one, the first layout fault; where no field has one either, the
/// fault of the padding.
pub open spec fn resolution_error(desc: StructureDescriptor) -> Option<ConfigError> {
    match desc.annotation_error() {
        Some(e) => Some(e),
        None => match layout_error_from(desc.fields@, 0) {
            Some(e) => Some(e),
            None => padding_error(desc),
        },
    }
}

/// Finds the first field that takes its length or its tag from the field
/// called `name`.
pub fn find_definer(fields: &Vec<FieldDescriptor>, name: &String) -> (found: Option<usize>)
    ensures
        match found {
            Some(j) => definer_from(fields@, name@, 0) == Some(j as int),
            None => definer_from(fields@, name@, 0).is_none(),
        },
{
    let n: usize = fields.len();
    let mut k: usize = 0;
    while k < n
        invariant
            n == fields@.len(),
            k <= n,
            definer_from(fields@, name@, 0) == definer_from(fields@, name@, k as int),
        decreases n - k,
    {
        let by_len: bool = match &fields[k].len {
            Some(m) => *m == *name,
            None => false,
        };
        let by_tag: bool = match &fields[k].discriminant {
            Some(m) => *m == *name,
            None => false,
        };
        if by_len || by_tag {
            return Some(k);
        }
        k = k + 1;
    }
    None
}

fn check_tags(kind: &FieldKind) -> (fault: Option<ConfigReason>)
    ensures
        fault == tag_fault(*kind),
{
    match kind {
        FieldKind::Choice(w, vs) => {
            let n: usize = vs.len();
            let mut k: usize = 0;
            while k < n
                invariant
                    n == vs@.len(),
                    k <= n,
                    *kind == FieldKind::Choice(*w, *vs),
                    forall|j: int| 0 <= j < k ==> w.holds((#[trigger] vs@[j]).tag),
                decreases n - k,
            {
                if !w.fits(vs[k].tag) {
                    assert(!w.holds(vs@[k as int].tag));
                    assert(!tags_in_range(*w, vs@));
                    return Some(ConfigReason::TagOutOfRange);
                }
                k = k + 1;
            }
            assert(tags_in_range(*w, vs@));
            let mut l: usize = 0;
            while l < n
                invariant
                    n == vs@.len(),
                    l <= n,
                    tags_in_range(*w, vs@),
                    *kind == FieldKind::Choice(*w, *vs),
                    forall|a: int, b: int|
                        0 <= a < b < l ==> (#[trigger] vs@[a]).tag != (#[trigger] vs@[b]).tag,
                decreases n - l,
            {
                let mut a: usize = 0;
                while a < l
                    invariant
                        n == vs@.len(),
                        l < n,
                        a <= l,
                        tags_in_range(*w, vs@),
                        *kind == FieldKind::Choice(*w, *vs),
                        forall|j: int| 0 <= j < a ==> (#[trigger] vs@[j]).tag != vs@[l as int].tag,
                    decreases l - a,
                {
                    if vs[a].tag == vs[l].tag {
                        assert(vs@[a as int].tag == vs@[l as int].tag);
                        return Some(ConfigReason::DuplicateTag);
                    }
                    a = a + 1;
                }
                l = l + 1;
            }
            None
        },
        _ => None,
    }
}

/// The members from `k` on occupy no more than the members from `i` on.
pub proof fn declared_total_grows(ms: Seq<MemberDescriptor>, i: int, k: int)
    requires
        0 <= i <= k <= ms.len(),
    ensures
        declared_total(ms, k) <= declared_total(ms, i),
    decreases k - i,
{
    if i < k {
        declared_total_grows(ms, i + 1, k);
    }
}

fn size_of_member(kind: &MemberKind) -> (r: Option<usize>)
    ensures
        match r {
            Some(n) => n == declared_size(*kind),
            None => declared_size(*kind) > usize::MAX,
        },
    decreases kind,
{
    match kind {
        MemberKind::Scalar(w) => Some(w.bytes()),
        MemberKind::Array(w, n) => w.bytes().checked_mul(*n),
        MemberKind::Nested { byte_order: _, members } => size_of_members(members),
    }
}

fn size_of_members(ms: &Vec<MemberDescriptor>) -> (r: Option<usize>)
    ensures
        match r {
            Some(n) => n == declared_total(ms@, 0),
            None => declared_total(ms@, 0) > usize::MAX,
        },
    decreases ms@,
{
    let n: usize = ms.len();
    let mut total: usize = 0;
    let mut k: usize = n;
    while k > 0
        invariant
            n == ms@.len(),
            k <= n,
            total == declared_total(ms@, k as int),
        decreases k,
    {
        k = k - 1;
        proof {
            declared_total_grows(ms@, 0, k as int);
        }
        let one = size_of_member(&ms[k].kind);
        let next = match one {
            Some(size) => total.checked_add(size),
            None => None,
        };
        match next {
            Some(sum) => {
                total = sum;
            },
            None => {
                return None;
            },
        }
    }
    Some(total)
}

/// The size of a field whose kind fixes it, where a buffer can have it.
pub fn fixed_size_of(kind: &FieldKind) -> (r: Option<usize>)
    ensures
        match r {
            Some(n) => n == fixed_size(*kind),
            None => fixed_size(*kind) > usize::MAX,
        },
{
    match kind {
        FieldKind::Scalar(w) => Some(w.bytes()),
        FieldKind::Array(w, n) => w.bytes().checked_mul(*n),
        FieldKind::Nested { byte_order: _, members } => size_of_members(members),
        _ => Some(0),
    }
}

fn check_target(fields: &Vec<FieldDescriptor>, i: usize, name: &String) -> (fault: Option<
    ConfigReason,
>)
    requires
        i < fields@.len(),
    ensures
        fault == target_fault(fields@, i as int, name@),
{
    proof {
        position_spec(fields@, name@);
    }
    match find_field(fields, name) {
        Some(j) => {
            if j >= i {
                Some(ConfigReason::ForwardReference)
            } else {
                let scalar: bool = match fields[j].kind {
                    FieldKind::Scalar(_) => true,
                    _ => false,
                };
                if !scalar || fields[j].skip_if.is_some() {
                    Some(ConfigReason::UnusableReference)
                } else {
                    None
                }
            }
        },
        None => Some(ConfigReason::UnknownReference),
    }
}

fn check_defining(fields: &Vec<FieldDescriptor>, i: usize, name: &String) -> (fault: Option<
    ConfigReason,
>)
    requires
        i < fields@.len(),
    ensures
        fault == defining_fault(fields@, i as int, name@),
{
    match check_target(fields, i, name) {
        Some(reason) => Some(reason),
        None => match find_definer(fields, name) {
            Some(k) => if k < i {
                Some(ConfigReason::SharedReference)
            } else {
                None
            },
            None => None,
        },
    }
}

fn check_pair(fields: &Vec<FieldDescriptor>, i: usize) -> (fault: Option<ConfigReason>)
    requires
        i < fields@.len(),
    ensures
        fault == pair_fault(fields@, i as int),
{
    match &fields[i].length_of {
        Some(n) => {
            proof {
                position_spec(fields@, n@);
            }
            match find_field(fields, n) {
                Some(t) => {
                    let named: bool = match &fields[t].len {
                        Some(m) => *m == fields[i].name,
                        None => false,
                    };
                    if named {
                        None
                    } else {
                        Some(ConfigReason::LengthPairMismatch)
                    }
                },
                None => Some(ConfigReason::UnknownReference),
            }
        },
        None => None,
    }
}

fn check_discriminant(fields: &Vec<FieldDescriptor>, i: usize) -> (fault: Option<ConfigReason>)
    requires
        i < fields@.len(),
    ensures
        fault == discriminant_fault(fields@, i as int),
{
    match &fields[i].discriminant {
        Some(n) => match check_defining(fields, i, n) {
            Some(reason) => Some(reason),
            None => {
                proof {
                    position_spec(fields@, n@);
                }
                let j: usize = find_field(fields, n).unwrap();
                let same: bool = match (&fields[i].kind, &fields[j].kind) {
                    (FieldKind::Choice(w, _), FieldKind::Scalar(t)) => *w == *t,
                    _ => false,
                };
                if same {
                    None
                } else {
                    Some(ConfigReason::TagWidthMismatch)
                }
            },
        },
        None => None,
    }
}

fn check_terms(fields: &Vec<FieldDescriptor>, i: usize, terms: &Vec<Comparison>) -> (fault: Option<
    ConfigReason,
>)
    requires
        i < fields@.len(),
    ensures
        fault == terms_fault(fields@, i as int, terms@, 0),
{
    let n: usize = terms.len();
    let mut k: usize = 0;
    while k < n
        invariant
            n == terms@.len(),
            k <= n,
            i < fields@.len(),
            terms_fault(fields@, i as int, terms@, 0) == terms_fault(
                fields@,
                i as int,
                terms@,
                k as int,
            ),
        decreases n - k,
    {
        let fault = check_target(fields, i, &terms[k].field);
        if fault.is_some() {
            return fault;
        }
        k = k + 1;
    }
    None
}

/// Checks the place of field `i` among the others.
pub fn check_placement(fields: &Vec<FieldDescriptor>, i: usize) -> (fault: Option<ConfigReason>)
    requires
        i < fields@.len(),
    ensures
        fault == layout_fault(fields@, i as int),
{
    let f = &fields[i];
    if f.terminal && i != fields.len() - 1 {
        return Some(ConfigReason::TerminalNotLast);
    }
    let tags = check_tags(&f.kind);
    if tags.is_some() {
        return tags;
    }
    if fixed_size_of(&f.kind).is_none() {
        return Some(ConfigReason::SizeOverflow);
    }
    let pair = check_pair(fields, i);
    if pair.is_some() {
        return pair;
    }
    let len = match &f.len {
        Some(n) => check_defining(fields, i, n),
        None => None,
    };
    if len.is_some() {
        return len;
    }
    let presence = match &f.skip_if {
        Some(p) => check_terms(fields, i, &p.terms),
        None => None,
    };
    if presence.is_some() {
        return presence;
    }
    check_discriminant(fields, i)
}

/// Whether every term of the guard refers to a position below `bound`.
pub open spec fn guard_below(g: Option<Guard>, bound: int) -> bool {
    match g {
        Some(g) => forall|k: int| 0 <= k < g.terms@.len() ==> (#[trigger] g.terms@[k]).index < bound,
        None => true,
    }
}

/// Tests whether every term of the guard refers to a position below `bound`.
pub fn guard_is_below(g: &Option<Guard>, bound: usize) -> (r: bool)
    ensures
        r == guard_below(*g, bound as int),
{
    match g {
        Some(guard) => {
            let n: usize = guard.terms.len();
            let mut k: usize = 0;
            while k < n
                invariant
                    n == guard.terms@.len(),
                    k <= n,
                    *g == Some(*guard),
                    forall|j: int| 0 <= j < k ==> (#[trigger] guard.terms@[j]).index < bound,
                decreases n - k,
            {
                if guard.terms[k].index >= bound {
                    assert(!(guard.terms@[k as int].index < bound));
                    return false;
                }
                k = k + 1;
            }
            true
        },
        None => true,
    }
}

/// A copy of a guard.
pub fn copy_guard(g: &Option<Guard>) -> (out: Option<Guard>)
    ensures
        guard_view(out) == guard_view(*g),
{
    match g {
        Some(g) => {
            let n: usize = g.terms.len();
            let mut terms: Vec<Term> = Vec::new();
            let mut k: usize = 0;
            while k < n
                invariant
                    n == g.terms@.len(),
                    k <= n,
                    terms@ == g.terms@.take(k as int),
                decreases n - k,
            {
                terms.push(g.terms[k]);
                assert(g.terms@.take(k + 1) =~= g.terms@.take(k as int).push(g.terms@[k as int]));
                k = k + 1;
            }
            assert(g.terms@.take(n as int) =~= g.terms@);
            Some(Guard { connective: g.connective, terms })
        },
        None => None,
    }
}

impl Clone for Member {
    fn clone(&self) -> (out: Member)
        ensures
            out@ == self@,
    {
        copy_member(self)
    }
}

/// A copy of a member.
pub fn copy_member(m: &Member) -> (out: Member)
    ensures
        out@ == m@,
    decreases m,
{
    match m {
        Member::Int { width, order } => Member::Int { width: *width, order: *order },
        Member::Array { width, order, count } => Member::Array {
            width: *width,
            order: *order,
            count: *count,
        },
        Member::Record { members } => {
            let copied = copy_members(members);
            proof {
                record_view(*members);
                record_view(copied);
            }
            Member::Record { members: copied }
        },
    }
}

/// A copy of a member list.
pub fn copy_members(ms: &Vec<Member>) -> (out: Vec<Member>)
    ensures
        member_views(out@) == member_views(ms@),
    decreases ms@,
{
    let n: usize = ms.len();
    let mut out: Vec<Member> = Vec::new();
    let mut k: usize = 0;
    while k < n
        invariant
            n == ms@.len(),
            k <= n,
            out@.len() == k,
            forall|j: int| 0 <= j < k ==> (#[trigger] out@[j])@ == ms@[j]@,
        decreases n - k,
    {
        out.push(copy_member(&ms[k]));
        k = k + 1;
    }
    assert(member_views(out@) =~= member_views(ms@));
    out
}

/// A copy of a variant list.
pub fn copy_variants(vs: &Vec<Variant>) -> (out: Vec<Variant>)
    ensures
        variant_views(out@) == variant_views(vs@),
{
    let n: usize = vs.len();
    let mut out: Vec<Variant> = Vec::new();
    let mut k: usize = 0;
    while k < n
        invariant
            n == vs@.len(),
            k <= n,
            out@.len() == k,
            forall|j: int| 0 <= j < k ==> (#[trigger] out@[j])@ == vs@[j]@,
        decreases n - k,
    {
        out.push(Variant { tag: vs[k].tag, members: copy_members(&vs[k].members) });
        k = k + 1;
    }
    assert(variant_views(out@) =~= variant_views(vs@));
    out
}

} // verus!
