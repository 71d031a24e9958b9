//! The annotation model: a structure and its fields as declared, with their
//! byte-level options, and the check that the options of each field agree with
//! one another before any layout is resolved.

use crate::wire::{ByteOrder, IntWidth};
use vstd::prelude::*;

verus! {

/// How a presence predicate compares a field's value with its operand.
#[derive(Clone, Copy, PartialEq, Eq, Structural, Debug)]
pub enum Relation {
    Equal,
    NotEqual,
    Below,
    Above,
}

impl Relation {
    /// Whether `left` stands in this relation to `right`.
    pub open spec fn holds(self, left: u64, right: u64) -> bool {
        match self {
            Relation::Equal => left == right,
            Relation::NotEqual => left != right,
            Relation::Below => left < right,
            Relation::Above => left > right,
        }
    }

    /// Tests whether `left` stands in this relation to `right`.
    pub fn test(self, left: u64, right: u64) -> (r: bool)
        ensures
            r == self.holds(left, right),
    {
        match self {
            Relation::Equal => left == right,
            Relation::NotEqual => left != right,
            Relation::Below => left < right,
            Relation::Above => left > right,
        }
    }
}

/// One comparison of a predicate, over one earlier field:
/// `field relation operand`.
#[derive(Clone, PartialEq, Eq, Debug)]
pub struct Comparison {
    pub field: String,
    pub relation: Relation,
    pub operand: u64,
}

/// How the comparisons of a predicate combine.
#[derive(Clone, Copy, PartialEq, Eq, Structural, Debug)]
pub enum Connective {
    /// The predicate holds when every comparison does.
    All,
    /// The predicate holds when some comparison does.
    Any,
}

/// A predicate over earlier fields: comparisons, and how they combine.
#[derive(Clone, PartialEq, Eq, Debug)]
pub struct Predicate {
    pub connective: Connective,
    pub terms: Vec<Comparison>,
}

/// What a member of a nested structure or of an enum variant is on the wire.
#[derive(PartialEq, Eq, Debug)]
pub enum MemberKind {
    /// A fixed-width integer.
    Scalar(IntWidth),
    /// A fixed number of fixed-width integers.
    Array(IntWidth, usize),
    /// A nested structure, with its own default byte order.
    Nested { byte_order: Option<ByteOrder>, members: Vec<MemberDescriptor> },
}

/// One member of a nested structure or of an enum variant.
#[derive(PartialEq, Eq, Debug)]
pub struct MemberDescriptor {
    pub name: String,
    pub kind: MemberKind,
    pub byte_order: Option<ByteOrder>,
}

/// One variant of an enum field: its tag on the wire and its members.
#[derive(Clone, PartialEq, Eq, Debug)]
pub struct VariantDescriptor {
    pub name: String,
    pub tag: u64,
    pub members: Vec<MemberDescriptor>,
}

/// The binary representation kind that a field declares.
#[derive(Clone, PartialEq, Eq, Debug)]
pub enum FieldKind {
    /// A fixed-width integer.
    Scalar(IntWidth),
    /// A run of bytes; its size comes from `size`, `len` or `terminal`.
    Blob,
    /// A fixed number of fixed-width integers.
    Array(IntWidth, usize),
    /// A nested structure of statically known size, with its own default byte
    /// order.
    Nested { byte_order: Option<ByteOrder>, members: Vec<MemberDescriptor> },
    /// An enum: a tag of the given width selects one of the variants.
    Choice(IntWidth, Vec<VariantDescriptor>),
    /// A field that is computed elsewhere and never on the wire.
    Skipped,
}

/// Bytes that a member of this kind occupies.
pub open spec fn declared_size(kind: MemberKind) -> nat
    decreases kind,
{
    match kind {
        MemberKind::Scalar(w) => w.size(),
        MemberKind::Array(w, n) => w.size() * (n as nat),
        MemberKind::Nested { members, .. } => declared_total(members@, 0),
    }
}

/// Bytes that the declared members `ms[k..]` occupy together.
pub open spec fn declared_total(ms: Seq<MemberDescriptor>, k: int) -> nat
    decreases ms, ms.len() - k,
{
    if k < 0 || k >= ms.len() {
        0
    } else {
        declared_size(ms[k].kind) + declared_total(ms, k + 1)
    }
}

/// Whether no nested structure among the member and its members, at any
/// depth, has a byte-order override: a structure has no byte order to
/// override, only a default for its own members.
pub open spec fn order_applies(m: MemberDescriptor) -> bool
    decreases m,
{
    match m.kind {
        MemberKind::Nested { members, .. } => m.byte_order.is_none() && orders_apply(members@),
        _ => true,
    }
}

/// The same for every member of a list.
pub open spec fn orders_apply(ms: Seq<MemberDescriptor>) -> bool
    decreases ms,
{
    forall|k: int| 0 <= k < ms.len() ==> order_applies(#[trigger] ms[k])
}

impl FieldKind {
    /// Whether no nested structure among the members of this kind has a
    /// byte-order override.
    pub open spec fn member_orders_apply(&self) -> bool {
        match self {
            FieldKind::Nested { members, .. } => orders_apply(members@),
            FieldKind::Choice(_, variants) => forall|v: int|
                0 <= v < variants@.len() ==> orders_apply((#[trigger] variants@[v]).members@),
            _ => true,
        }
    }

    /// Whether a byte-order override means anything for this kind.
    pub open spec fn has_byte_order(&self) -> bool {
        self is Scalar || self is Array || self is Choice
    }

    /// Tests whether a byte-order override means anything for this kind.
    pub fn takes_byte_order(&self) -> (r: bool)
        ensures
            r == self.has_byte_order(),
    {
        match self {
            FieldKind::Scalar(_) => true,
            FieldKind::Array(_, _) => true,
            FieldKind::Choice(_, _) => true,
            _ => false,
        }
    }
}

/// One field as declared.
#[derive(Clone, PartialEq, Eq, Debug)]
pub struct FieldDescriptor {
    pub name: String,
    pub kind: FieldKind,
    /// Overrides the structure's byte order for this field.
    pub byte_order: Option<ByteOrder>,
    /// Explicit size of a blob, in bytes.
    pub size: Option<usize>,
    /// Names the earlier field whose value is this blob's length.
    pub len: Option<String>,
    /// Marks this field as the length of the named blob.
    pub length_of: Option<String>,
    /// The field is absent from the wire when the predicate holds.
    pub skip_if: Option<Predicate>,
    /// Names the earlier field that carries this enum's tag.
    pub discriminant: Option<String>,
    /// The field takes every byte that is left.
    pub terminal: bool,
}

/// A structure as declared: its fields in wire order.
#[derive(Clone, PartialEq, Eq, Debug)]
pub struct StructureDescriptor {
    pub name: String,
    pub byte_order: Option<ByteOrder>,
    /// The encoding is padded with zero bytes to a multiple of this many
    /// bytes; `None`, 0 and 1 all mean no padding.
    pub align: Option<usize>,
    pub fields: Vec<FieldDescriptor>,
}

/// Why a declaration was refused.
#[derive(Clone, Copy, PartialEq, Eq, Structural, Debug)]
pub enum ConfigReason {
    /// An earlier field has the same name.
    DuplicateName,
    /// A byte order on a blob, a nested structure or a skipped field.
    ByteOrderNotApplicable,
    /// More than one of `size`, `len` and `terminal`.
    ConflictingSize,
    /// Both `len` and `skip_if`.
    LengthWithPresence,
    /// Both `discriminant` and `skip_if`.
    TagWithPresence,
    /// `size`, `len` or `terminal` on a field that is no blob.
    SizeNotApplicable,
    /// A blob with none of `size`, `len` and `terminal`.
    MissingSize,
    /// `length_of` on a field that is no scalar.
    LengthSourceNotApplicable,
    /// `discriminant` on a field that is no enum.
    DiscriminantNotApplicable,
    /// A name that no field of the structure has.
    UnknownReference,
    /// `len`, `skip_if` or `discriminant` names this field or a later one.
    ForwardReference,
    /// The referenced field is no scalar, or may be absent.
    UnusableReference,
    /// The referenced field already supplies another field's length or tag.
    SharedReference,
    /// `length_of` names a field whose `len` does not name this field.
    LengthPairMismatch,
    /// The tag field's width differs from the enum's tag width.
    TagWidthMismatch,
    /// A terminal field that is not the last field.
    TerminalNotLast,
    /// Two variants with the same tag.
    DuplicateTag,
    /// A tag that does not fit the tag width.
    TagOutOfRange,
    /// A fixed size that no buffer can have.
    SizeOverflow,
    /// A terminal field in a structure that is padded.
    TerminalWithPadding,
}

/// A refused declaration: the offending field, by position, and the reason.
#[derive(Clone, Copy, PartialEq, Eq, Structural, Debug)]
pub struct ConfigError {
    pub field: usize,
    pub reason: ConfigReason,
}

/// Position of the first field from `from` on that is called `name`.
pub open spec fn position_from(fields: Seq<FieldDescriptor>, name: Seq<char>, from: int) -> Option<
    int,
>
    decreases fields.len() - from,
{
    if from < 0 || from >= fields.len() {
        None
    } else if fields[from].name@ == name {
        Some(from)
    } else {
        position_from(fields, name, from + 1)
    }
}

/// Position of the first field that is called `name`.
pub open spec fn position(fields: Seq<FieldDescriptor>, name: Seq<char>) -> Option<int> {
    position_from(fields, name, 0)
}

/// What `position_from` finds: the first field from `from` on with the name,
/// if any has it.
pub proof fn position_from_spec(fields: Seq<FieldDescriptor>, name: Seq<char>, from: int)
    requires
        0 <= from,
    ensures
        match position_from(fields, name, from) {
            Some(j) => from <= j < fields.len() && fields[j].name@ == name && forall|k: int|
                from <= k < j ==> fields[k].name@ != name,
            None => forall|k: int| from <= k < fields.len() ==> fields[k].name@ != name,
        },
    decreases fields.len() - from,
{
    if from < fields.len() && fields[from].name@ != name {
        position_from_spec(fields, name, from + 1);
    }
}

/// What `position` finds: the first field with the name, if any has it.
pub proof fn position_spec(fields: Seq<FieldDescriptor>, name: Seq<char>)
    ensures
        match position(fields, name) {
            Some(j) => 0 <= j < fields.len() && fields[j].name@ == name && forall|k: int|
                0 <= k < j ==> fields[k].name@ != name,
            None => forall|k: int| 0 <= k < fields.len() ==> fields[k].name@ != name,
        },
{
    position_from_spec(fields, name, 0);
}

/// Finds the first field that is called `name`.
pub fn find_field(fields: &Vec<FieldDescriptor>, name: &String) -> (found: Option<usize>)
    ensures
        match found {
            Some(j) => position(fields@, name@) == Some(j as int),
            None => position(fields@, name@).is_none(),
        },
{
    let n: usize = fields.len();
    let mut k: usize = 0;
    while k < n
        invariant
            n == fields@.len(),
            k <= n,
            position(fields@, name@) == position_from(fields@, name@, k as int),
        decreases n - k,
    {
        if fields[k].name == *name {
            return Some(k);
        }
        k = k + 1;
    }
    None
}

impl Comparison {
    /// The comparison `field relation operand`.
    pub fn new(field: &str, relation: Relation, operand: u64) -> (c: Comparison)
        ensures
            c.field@ == field@,
            c.relation == relation,
            c.operand == operand,
    {
        Comparison { field: field.to_owned(), relation, operand }
    }
}

impl Predicate {
    /// The predicate of a single comparison.
    pub fn new(field: &str, relation: Relation, operand: u64) -> (p: Predicate)
        ensures
            p.connective == Connective::Any,
            p.terms@.len() == 1,
            p.terms@[0].field@ == field@,
            p.terms@[0].relation == relation,
            p.terms@[0].operand == operand,
    {
        let mut terms: Vec<Comparison> = Vec::new();
        terms.push(Comparison::new(field, relation, operand));
        Predicate { connective: Connective::Any, terms }
    }

    /// The predicate that holds when every one of `terms` does.
    pub fn all(terms: Vec<Comparison>) -> (p: Predicate)
        ensures
            p.connective == Connective::All,
            p.terms == terms,
    {
        Predicate { connective: Connective::All, terms }
    }

    /// The predicate that holds when one of `terms` does.
    pub fn any(terms: Vec<Comparison>) -> (p: Predicate)
        ensures
            p.connective == Connective::Any,
            p.terms == terms,
    {
        Predicate { connective: Connective::Any, terms }
    }
}

/// Whether two member kinds say the same, at every depth.
pub open spec fn same_kind(a: MemberKind, b: MemberKind) -> bool
    decreases a,
{
    match (a, b) {
        (MemberKind::Scalar(w), MemberKind::Scalar(v)) => w == v,
        (MemberKind::Array(w, n), MemberKind::Array(v, m)) => w == v && n == m,
        (
            MemberKind::Nested { byte_order: own, members: ms },
            MemberKind::Nested { byte_order: other, members: ns },
        ) => {
            &&& own == other
            &&& ms@.len() == ns@.len()
            &&& forall|k: int| 0 <= k < ms@.len() ==> same_declared(#[trigger] ms@[k], ns@[k])
        },
        _ => false,
    }
}

/// Whether two declared members say the same, at every depth.
pub open spec fn same_declared(a: MemberDescriptor, b: MemberDescriptor) -> bool
    decreases a,
{
    &&& a.name@ == b.name@
    &&& a.byte_order == b.byte_order
    &&& same_kind(a.kind, b.kind)
}

impl Clone for MemberKind {
    fn clone(&self) -> (out: MemberKind)
        ensures
            same_kind(*self, out),
    {
        copy_kind(self)
    }
}

impl Clone for MemberDescriptor {
    fn clone(&self) -> (out: MemberDescriptor)
        ensures
            same_declared(*self, out),
    {
        copy_declared(self)
    }
}

/// A copy of a member kind.
pub fn copy_kind(kind: &MemberKind) -> (out: MemberKind)
    ensures
        same_kind(*kind, out),
    decreases kind,
{
    match kind {
        MemberKind::Scalar(w) => MemberKind::Scalar(*w),
        MemberKind::Array(w, n) => MemberKind::Array(*w, *n),
        MemberKind::Nested { byte_order, members } => {
            let n: usize = members.len();
            let mut copied: Vec<MemberDescriptor> = Vec::new();
            let mut k: usize = 0;
            while k < n
                invariant
                    n == members@.len(),
                    k <= n,
                    copied@.len() == k,
                    decreases_to!(*kind => members@),
                    forall|j: int| 0 <= j < k ==> same_declared(#[trigger] members@[j], copied@[j]),
                decreases n - k,
            {
                copied.push(copy_declared(&members[k]));
                k = k + 1;
            }
            MemberKind::Nested { byte_order: *byte_order, members: copied }
        },
    }
}

/// A copy of a declared member.
pub fn copy_declared(m: &MemberDescriptor) -> (out: MemberDescriptor)
    ensures
        same_declared(*m, out),
    decreases m,
{
    MemberDescriptor { name: m.name.clone(), kind: copy_kind(&m.kind), byte_order: m.byte_order }
}

impl MemberDescriptor {
    /// A member of a nested structure or of a variant.
    pub fn new(name: &str, kind: MemberKind, byte_order: Option<ByteOrder>) -> (m: MemberDescriptor)
        ensures
            m.name@ == name@,
            m.kind == kind,
            m.byte_order == byte_order,
    {
        MemberDescriptor { name: name.to_owned(), kind, byte_order }
    }
}

impl VariantDescriptor {
    /// A variant with its tag and its members.
    pub fn new(name: &str, tag: u64, members: Vec<MemberDescriptor>) -> (v: VariantDescriptor)
        ensures
            v.name@ == name@,
            v.tag == tag,
            v.members == members,
    {
        VariantDescriptor { name: name.to_owned(), tag, members }
    }
}

impl FieldDescriptor {
    /// A field with no option set.
    pub fn new(name: &str, kind: FieldKind) -> (f: FieldDescriptor)
        ensures
            f.name@ == name@,
            f.kind == kind,
            f.byte_order.is_none(),
            f.size.is_none(),
            f.len.is_none(),
            f.length_of.is_none(),
            f.skip_if.is_none(),
            f.discriminant.is_none(),
            !f.terminal,
    {
        FieldDescriptor {
            name: name.to_owned(),
            kind,
            byte_order: None,
            size: None,
            len: None,
            length_of: None,
            skip_if: None,
            discriminant: None,
            terminal: false,
        }
    }

    /// Overrides the byte order.
    pub fn byte_order(self, order: ByteOrder) -> (f: FieldDescriptor)
        ensures
            f == (FieldDescriptor { byte_order: Some(order), ..self }),
    {
        FieldDescriptor { byte_order: Some(order), ..self }
    }

    /// Gives a blob its size in bytes.
    pub fn size(self, bytes: usize) -> (f: FieldDescriptor)
        ensures
            f == (FieldDescriptor { size: Some(bytes), ..self }),
    {
        FieldDescriptor { size: Some(bytes), ..self }
    }

    /// Names the field that holds this blob's length.
    pub fn len(self, field: &str) -> (f: FieldDescriptor)
        ensures
            f.len.is_some(),
            f.len.unwrap()@ == field@,
            f == (FieldDescriptor { len: f.len, ..self }),
    {
        FieldDescriptor { len: Some(field.to_owned()), ..self }
    }

    /// Marks the field as the length of the named blob.
    pub fn length_of(self, field: &str) -> (f: FieldDescriptor)
        ensures
            f.length_of.is_some(),
            f.length_of.unwrap()@ == field@,
            f == (FieldDescriptor { length_of: f.length_of, ..self }),
    {
        FieldDescriptor { length_of: Some(field.to_owned()), ..self }
    }

    /// Leaves the field out when the predicate holds.
    pub fn skip_if(self, predicate: Predicate) -> (f: FieldDescriptor)
        ensures
            f == (FieldDescriptor { skip_if: Some(predicate), ..self }),
    {
        FieldDescriptor { skip_if: Some(predicate), ..self }
    }

    /// Names the field that holds this enum's tag.
    pub fn discriminant(self, field: &str) -> (f: FieldDescriptor)
        ensures
            f.discriminant.is_some(),
            f.discriminant.unwrap()@ == field@,
            f == (FieldDescriptor { discriminant: f.discriminant, ..self }),
    {
        FieldDescriptor { discriminant: Some(field.to_owned()), ..self }
    }

    /// Lets the field take every byte that is left.
    pub fn terminal(self) -> (f: FieldDescriptor)
        ensures
            f == (FieldDescriptor { terminal: true, ..self }),
    {
        FieldDescriptor { terminal: true, ..self }
    }

    /// Whether the field says how many bytes it takes.
    pub open spec fn sized(&self) -> bool {
        self.size.is_some() || self.len.is_some() || self.terminal
    }

    /// Whether the field says so more than once.
    pub open spec fn oversized(&self) -> bool {
        ||| self.size.is_some() && self.len.is_some()
        ||| self.size.is_some() && self.terminal
        ||| self.len.is_some() && self.terminal
    }
}

/// Whether `name`, where it is given, is the name of a field.
pub open spec fn known(fields: Seq<FieldDescriptor>, name: Option<String>) -> bool {
    name.is_some() ==> position(fields, name.unwrap()@).is_some()
}

/// Whether every comparison of `terms` is over a field.
pub open spec fn terms_known(fields: Seq<FieldDescriptor>, terms: Seq<Comparison>) -> bool {
    forall|k: int| 0 <= k < terms.len() ==> position(fields, (#[trigger] terms[k]).field@).is_some()
}

/// Whether every name that `f` mentions is the name of a field.
pub open spec fn names_known(fields: Seq<FieldDescriptor>, f: FieldDescriptor) -> bool {
    &&& known(fields, f.len)
    &&& known(fields, f.length_of)
    &&& known(fields, f.discriminant)
    &&& f.skip_if.is_some() ==> terms_known(fields, f.skip_if.unwrap().terms@)
}

/// What is wrong with the options of field `i`, taken by themselves: the first
/// of the listed conflicts that applies.
pub open spec fn annotation_fault(fields: Seq<FieldDescriptor>, i: int) -> Option<ConfigReason> {
    let f = fields[i];
    if position(fields, f.name@) != Some(i) {
        Some(ConfigReason::DuplicateName)
    } else if f.byte_order.is_some() && !f.kind.has_byte_order() {
        Some(ConfigReason::ByteOrderNotApplicable)
    } else if !f.kind.member_orders_apply() {
        Some(ConfigReason::ByteOrderNotApplicable)
    } else if f.oversized() {
        Some(ConfigReason::ConflictingSize)
    } else if f.len.is_some() && f.skip_if.is_some() {
        Some(ConfigReason::LengthWithPresence)
    } else if f.discriminant.is_some() && f.skip_if.is_some() {
        Some(ConfigReason::TagWithPresence)
    } else if f.sized() && !(f.kind is Blob) {
        Some(ConfigReason::SizeNotApplicable)
    } else if f.kind is Blob && !f.sized() {
        Some(ConfigReason::MissingSize)
    } else if f.length_of.is_some() && !(f.kind is Scalar) {
        Some(ConfigReason::LengthSourceNotApplicable)
    } else if f.discriminant.is_some() && !(f.kind is Choice) {
        Some(ConfigReason::DiscriminantNotApplicable)
    } else if !names_known(fields, f) {
        Some(ConfigReason::UnknownReference)
    } else {
        None
    }
}

/// The first annotation fault at or after field `from`.
pub open spec fn annotation_error_from(fields: Seq<FieldDescriptor>, from: int) -> Option<
    ConfigError,
>
    decreases fields.len() - from,
{
    if from < 0 || from >= fields.len() {
        None
    } else {
        match annotation_fault(fields, from) {
            Some(reason) => Some(ConfigError { field: from as usize, reason }),
            None => annotation_error_from(fields, from + 1),
        }
    }
}

/// No field at or after `from` has a fault exactly when none is reported.
pub proof fn annotation_error_from_spec(fields: Seq<FieldDescriptor>, from: int)
    requires
        0 <= from,
    ensures
        annotation_error_from(fields, from).is_none() <==> forall|k: int|
            from <= k < fields.len() ==> annotation_fault(fields, k).is_none(),
    decreases fields.len() - from,
{
    if from < fields.len() {
        annotation_error_from_spec(fields, from + 1);
    }
}

fn is_known(fields: &Vec<FieldDescriptor>, name: &Option<String>) -> (r: bool)
    ensures
        r == known(fields@, *name),
{
    match name {
        Some(n) => find_field(fields, n).is_some(),
        None => true,
    }
}

fn all_terms_known(fields: &Vec<FieldDescriptor>, terms: &Vec<Comparison>) -> (r: bool)
    ensures
        r == terms_known(fields@, terms@),
{
    let n: usize = terms.len();
    let mut k: usize = 0;
    while k < n
        invariant
            n == terms@.len(),
            k <= n,
            forall|j: int| 0 <= j < k ==> position(fields@, (#[trigger] terms@[j]).field@).is_some(),
        decreases n - k,
    {
        if find_field(fields, &terms[k].field).is_none() {
            assert(position(fields@, terms@[k as int].field@).is_none());
            return false;
        }
        k = k + 1;
    }
    true
}

fn all_names_known(fields: &Vec<FieldDescriptor>, f: &FieldDescriptor) -> (r: bool)
    ensures
        r == names_known(fields@, *f),
{
    let presence: bool = match &f.skip_if {
        Some(p) => all_terms_known(fields, &p.terms),
        None => true,
    };
    is_known(fields, &f.len) && is_known(fields, &f.length_of) && is_known(
        fields,
        &f.discriminant,
    ) && presence
}

fn check_order(m: &MemberDescriptor) -> (ok: bool)
    ensures
        ok == order_applies(*m),
    decreases m,
{
    match &m.kind {
        MemberKind::Nested { byte_order: _, members } => m.byte_order.is_none() && check_orders(
            members,
        ),
        _ => true,
    }
}

fn check_orders(ms: &Vec<MemberDescriptor>) -> (ok: bool)
    ensures
        ok == orders_apply(ms@),
    decreases ms@,
{
    let n: usize = ms.len();
    let mut k: usize = 0;
    while k < n
        invariant
            n == ms@.len(),
            k <= n,
            forall|j: int| 0 <= j < k ==> order_applies(#[trigger] ms@[j]),
        decreases n - k,
    {
        if !check_order(&ms[k]) {
            assert(!order_applies(ms@[k as int]));
            return false;
        }
        k = k + 1;
    }
    true
}

fn check_member_orders(kind: &FieldKind) -> (ok: bool)
    ensures
        ok == kind.member_orders_apply(),
{
    match kind {
        FieldKind::Nested { byte_order: _, members } => check_orders(members),
        FieldKind::Choice(_, variants) => {
            let n: usize = variants.len();
            let mut v: usize = 0;
            while v < n
                invariant
                    n == variants@.len(),
                    v <= n,
                    *kind is Choice,
                    kind->Choice_1 == *variants,
                    forall|j: int| 0 <= j < v ==> orders_apply((#[trigger] variants@[j]).members@),
                decreases n - v,
            {
                if !check_orders(&variants[v].members) {
                    assert(!orders_apply(variants@[v as int].members@));
                    return false;
                }
                v = v + 1;
            }
            true
        },
        _ => true,
    }
}

/// Checks the options of field `i` against one another.
pub fn check_field(fields: &Vec<FieldDescriptor>, i: usize) -> (fault: Option<ConfigReason>)
    requires
        i < fields@.len(),
    ensures
        fault == annotation_fault(fields@, i as int),
{
    let f = &fields[i];
    let first = find_field(fields, &f.name);
    let is_blob: bool = match f.kind {
        FieldKind::Blob => true,
        _ => false,
    };
    let is_scalar: bool = match f.kind {
        FieldKind::Scalar(_) => true,
        _ => false,
    };
    let is_choice: bool = match f.kind {
        FieldKind::Choice(_, _) => true,
        _ => false,
    };
    let sized: bool = f.size.is_some() || f.len.is_some() || f.terminal;
    let oversized: bool = (f.size.is_some() && f.len.is_some()) || (f.size.is_some() && f.terminal)
        || (f.len.is_some() && f.terminal);
    if first != Some(i) {
        Some(ConfigReason::DuplicateName)
    } else if f.byte_order.is_some() && !f.kind.takes_byte_order() {
        Some(ConfigReason::ByteOrderNotApplicable)
    } else if !check_member_orders(&f.kind) {
        Some(ConfigReason::ByteOrderNotApplicable)
    } else if oversized {
        Some(ConfigReason::ConflictingSize)
    } else if f.len.is_some() && f.skip_if.is_some() {
        Some(ConfigReason::LengthWithPresence)
    } else if f.discriminant.is_some() && f.skip_if.is_some() {
        Some(ConfigReason::TagWithPresence)
    } else if sized && !is_blob {
        Some(ConfigReason::SizeNotApplicable)
    } else if is_blob && !sized {
        Some(ConfigReason::MissingSize)
    } else if f.length_of.is_some() && !is_scalar {
        Some(ConfigReason::LengthSourceNotApplicable)
    } else if f.discriminant.is_some() && !is_choice {
        Some(ConfigReason::DiscriminantNotApplicable)
    } else if !all_names_known(fields, f) {
        Some(ConfigReason::UnknownReference)
    } else {
        None
    }
}

impl StructureDescriptor {
    /// A structure without padding.
    pub fn new(name: &str, byte_order: Option<ByteOrder>, fields: Vec<FieldDescriptor>) -> (d:
        StructureDescriptor)
        ensures
            d.name@ == name@,
            d.byte_order == byte_order,
            d.align.is_none(),
            d.fields == fields,
    {
        StructureDescriptor { name: name.to_owned(), byte_order, align: None, fields }
    }

    /// Pads the encoding to a multiple of `bytes` bytes.
    pub fn align(self, bytes: usize) -> (d: StructureDescriptor)
        ensures
            d == (StructureDescriptor { align: Some(bytes), ..self }),
    {
        StructureDescriptor { align: Some(bytes), ..self }
    }

    /// The alignment in effect: at least 1, and 1 where none was asked for.
    pub open spec fn padding(&self) -> usize {
        match self.align {
            Some(n) => if n > 1 {
                n
            } else {
                1
            },
            None => 1,
        }
    }

    /// The alignment in effect: at least 1, and 1 where none was asked for.
    pub fn alignment(&self) -> (n: usize)
        ensures
            n == self.padding(),
    {
        match self.align {
            Some(n) => if n > 1 {
                n
            } else {
                1
            },
            None => 1,
        }
    }

    /// The first field whose options conflict, with the reason.
    pub open spec fn annotation_error(&self) -> Option<ConfigError> {
        annotation_error_from(self.fields@, 0)
    }

    /// Checks every field's options against one another, in declaration order.
    pub fn check(&self) -> (r: Result<(), ConfigError>)
        ensures
            match r {
                Ok(_) => self.annotation_error().is_none(),
                Err(e) => self.annotation_error() == Some(e),
            },
    {
        let n: usize = self.fields.len();
        let mut i: usize = 0;
        while i < n
            invariant
                n == self.fields@.len(),
                i <= n,
                self.annotation_error() == annotation_error_from(self.fields@, i as int),
            decreases n - i,
        {
            match check_field(&self.fields, i) {
                Some(reason) => {
                    return Err(ConfigError { field: i, reason });
                },
                None => {},
            }
            i = i + 1;
        }
        Ok(())
    }
}

impl ConfigReason {
    /// The reason in words.
    pub open spec fn text(self) -> Seq<char> {
        match self {
            ConfigReason::DuplicateName => "an earlier field has the same name"@,
            ConfigReason::ByteOrderNotApplicable => "the field's kind has no byte order"@,
            ConfigReason::ConflictingSize => "more than one of size, len and terminal"@,
            ConfigReason::LengthWithPresence => "both len and skip_if"@,
            ConfigReason::TagWithPresence => "both discriminant and skip_if"@,
            ConfigReason::SizeNotApplicable => "size, len or terminal on a field that is no blob"@,
            ConfigReason::MissingSize => "a blob needs one of size, len and terminal"@,
            ConfigReason::LengthSourceNotApplicable => "length_of on a field that is no scalar"@,
            ConfigReason::DiscriminantNotApplicable => "discriminant on a field that is no enum"@,
            ConfigReason::UnknownReference => "no field has the referenced name"@,
            ConfigReason::ForwardReference => "the referenced field is not declared earlier"@,
            ConfigReason::UnusableReference => "the referenced field is no scalar, or may be absent"@,
            ConfigReason::SharedReference =>
                "the referenced field already supplies another length or tag"@,
            ConfigReason::LengthPairMismatch =>
                "length_of names a field whose len does not name this field"@,
            ConfigReason::TagWidthMismatch => "the tag field's width is not the enum's tag width"@,
            ConfigReason::TerminalNotLast => "a terminal field must be the last field"@,
            ConfigReason::DuplicateTag => "two variants have the same tag"@,
            ConfigReason::TagOutOfRange => "a tag does not fit the tag width"@,
            ConfigReason::SizeOverflow => "the fixed size is larger than any buffer"@,
            ConfigReason::TerminalWithPadding => "a padded structure cannot end in a terminal field"@,
        }
    }

    /// The reason in words, for a message to whoever wrote the declaration.
    pub fn message(self) -> (text: &'static str)
        ensures
            text@ == self.text(),
    {
        match self {
            ConfigReason::DuplicateName => "an earlier field has the same name",
            ConfigReason::ByteOrderNotApplicable => "the field's kind has no byte order",
            ConfigReason::ConflictingSize => "more than one of size, len and terminal",
            ConfigReason::LengthWithPresence => "both len and skip_if",
            ConfigReason::TagWithPresence => "both discriminant and skip_if",
            ConfigReason::SizeNotApplicable => "size, len or terminal on a field that is no blob",
            ConfigReason::MissingSize => "a blob needs one of size, len and terminal",
            ConfigReason::LengthSourceNotApplicable => "length_of on a field that is no scalar",
            ConfigReason::DiscriminantNotApplicable => "discriminant on a field that is no enum",
            ConfigReason::UnknownReference => "no field has the referenced name",
            ConfigReason::ForwardReference => "the referenced field is not declared earlier",
            ConfigReason::UnusableReference => "the referenced field is no scalar, or may be absent",
            ConfigReason::SharedReference =>
                "the referenced field already supplies another length or tag",
            ConfigReason::LengthPairMismatch =>
                "length_of names a field whose len does not name this field",
            ConfigReason::TagWidthMismatch => "the tag field's width is not the enum's tag width",
            ConfigReason::TerminalNotLast => "a terminal field must be the last field",
            ConfigReason::DuplicateTag => "two variants have the same tag",
            ConfigReason::TagOutOfRange => "a tag does not fit the tag width",
            ConfigReason::SizeOverflow => "the fixed size is larger than any buffer",
            ConfigReason::TerminalWithPadding => "a padded structure cannot end in a terminal field",
        }
    }
}

} // verus!
