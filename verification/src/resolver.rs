//! Resolution proper: what each declared field becomes in the plan, and the
//! proof that a declaration without faults gives a well-formed plan.

use crate::layout::{
    check_placement, definer_from, definer_from_spec, defines, distinct_tags, find_definer,
    fixed_size, fixed_size_of, layout_error_from, layout_error_from_spec, layout_fault,
    member_size, member_views, members_size, record_view,
    guard_view, resolution_error, tags_fit, variant_views, Guard, GuardView, LayoutPlan, Member,
    MemberView, ResolvedField, Role, Shape, SizeStrategy, Term, Variant, VariantView,
};
use crate::schema::{
    annotation_error_from_spec, annotation_fault, declared_size, declared_total, find_field,
    position, position_spec,
    Comparison, ConfigError, ConfigReason, FieldDescriptor, FieldKind, MemberDescriptor,
    MemberKind, Predicate,
    StructureDescriptor, VariantDescriptor,
};
use crate::wire::ByteOrder;
use vstd::prelude::*;

verus! {

/// The byte order of a field: its own, else the one it inherits, else big
/// endian.
pub open spec fn settled_order(own: Option<ByteOrder>, inherited: Option<ByteOrder>) -> ByteOrder {
    match own {
        Some(o) => o,
        None => match inherited {
            Some(o) => o,
            None => ByteOrder::Big,
        },
    }
}

/// Settles a byte order: the field's own, else the inherited one, else big
/// endian.
pub fn settle_order(own: Option<ByteOrder>, inherited: Option<ByteOrder>) -> (order: ByteOrder)
    ensures
        order == settled_order(own, inherited),
{
    match own {
        Some(o) => o,
        None => match inherited {
            Some(o) => o,
            None => ByteOrder::Big,
        },
    }
}

/// What a declared member becomes where it inherits `inherited`. The members
/// of a nested structure inherit the nested structure's own default, never
/// that of the structure around it.
pub open spec fn resolved_member(m: MemberDescriptor, inherited: ByteOrder) -> MemberView
    decreases m,
{
    let order = settled_order(m.byte_order, Some(inherited));
    match m.kind {
        MemberKind::Scalar(w) => MemberView::Int { width: w, order },
        MemberKind::Array(w, n) => MemberView::Array { width: w, order, count: n },
        MemberKind::Nested { byte_order, members } => MemberView::Record {
            members: resolved_members(members@, settled_order(byte_order, None)),
        },
    }
}

/// What declared members become, one by one.
pub open spec fn resolved_members(ms: Seq<MemberDescriptor>, inherited: ByteOrder) -> Seq<
    MemberView,
>
    decreases ms,
{
    Seq::new(
        ms.len(),
        |k: int|
            if 0 <= k < ms.len() {
                resolved_member(ms[k], inherited)
            } else {
                MemberView::Record { members: Seq::empty() }
            },
    )
}

/// What declared variants become: the tag as declared, the members resolved.
pub open spec fn resolved_variants(vs: Seq<VariantDescriptor>, inherited: ByteOrder) -> Seq<
    VariantView,
> {
    Seq::new(
        vs.len(),
        |k: int| VariantView { tag: vs[k].tag, members: resolved_members(vs[k].members@, inherited) },
    )
}

/// What the integer at position `i` stands for: the length or the tag of the
/// first field that takes it from there, else its own value.
pub open spec fn role_of(fields: Seq<FieldDescriptor>, i: int) -> Role {
    match definer_from(fields, fields[i].name@, 0) {
        Some(t) => if fields[t].len.is_some() && fields[t].len.unwrap()@ == fields[i].name@ {
            Role::LengthOf(t as usize)
        } else {
            Role::TagOf(t as usize)
        },
        None => Role::Plain,
    }
}

/// What a declared comparison becomes.
pub open spec fn term_of(fields: Seq<FieldDescriptor>, c: Comparison) -> Term {
    Term {
        index: position(fields, c.field@).unwrap() as usize,
        relation: c.relation,
        operand: c.operand,
    }
}

/// What a declared predicate becomes.
pub open spec fn guard_of(fields: Seq<FieldDescriptor>, p: Predicate) -> GuardView {
    GuardView {
        connective: p.connective,
        terms: Seq::new(p.terms@.len(), |k: int| term_of(fields, p.terms@[k])),
    }
}

/// The size strategy of field `i`.
pub open spec fn strategy_of(fields: Seq<FieldDescriptor>, i: int) -> SizeStrategy {
    let f = fields[i];
    match f.kind {
        FieldKind::Scalar(_) => SizeStrategy::FixedScalar(fixed_size(f.kind) as usize),
        FieldKind::Blob => if f.size.is_some() {
            SizeStrategy::FixedCompound(f.size.unwrap())
        } else if f.len.is_some() {
            SizeStrategy::LengthFrom(position(fields, f.len.unwrap()@).unwrap() as usize)
        } else {
            SizeStrategy::Remainder
        },
        FieldKind::Choice(_, _) => SizeStrategy::Tagged,
        _ => SizeStrategy::FixedCompound(fixed_size(f.kind) as usize),
    }
}

/// Whether `shape` is what field `i` of `desc` resolves to.
pub open spec fn shape_resolves(desc: StructureDescriptor, i: int, shape: Shape) -> bool {
    let fields = desc.fields@;
    let f = fields[i];
    let order = settled_order(f.byte_order, desc.byte_order);
    match f.kind {
        FieldKind::Scalar(w) => shape == (Shape::Int { width: w, order, role: role_of(fields, i) }),
        FieldKind::Blob => shape == Shape::Blob,
        FieldKind::Array(w, n) => shape == (Shape::Array { width: w, order, count: n }),
        FieldKind::Nested { byte_order, members } => match shape {
            Shape::Record { members: resolved } => member_views(resolved@) == resolved_members(
                members@,
                settled_order(byte_order, None),
            ),
            _ => false,
        },
        FieldKind::Choice(w, vs) => match shape {
            Shape::Choice { width, order: tag_order, source, variants } => {
                &&& width == w
                &&& tag_order == order
                &&& source == match f.discriminant {
                    Some(n) => Some(position(fields, n@).unwrap() as usize),
                    None => None,
                }
                &&& variant_views(variants@) == resolved_variants(vs@, order)
            },
            _ => false,
        },
        FieldKind::Skipped => shape == Shape::Nothing,
    }
}

/// Whether `rf` is what field `i` of `desc` resolves to.
pub open spec fn resolves(desc: StructureDescriptor, i: int, rf: ResolvedField) -> bool {
    let fields = desc.fields@;
    let f = fields[i];
    &&& rf.name@ == f.name@
    &&& guard_view(rf.skip_if) == match f.skip_if {
        Some(p) => Some(guard_of(fields, p)),
        None => None,
    }
    &&& rf.size == strategy_of(fields, i)
    &&& shape_resolves(desc, i, rf.shape)
}

/// Whether `plan` is the plan of `desc`: one resolved field per declared
/// field, in declaration order.
pub open spec fn realizes(desc: StructureDescriptor, plan: LayoutPlan) -> bool {
    &&& plan.align == desc.padding()
    &&& plan.fields@.len() == desc.fields@.len()
    &&& forall|i: int| 0 <= i < desc.fields@.len() ==> resolves(desc, i, #[trigger] plan.fields@[i])
}

fn resolve_member(m: &MemberDescriptor, inherited: ByteOrder) -> (out: Member)
    ensures
        out@ == resolved_member(*m, inherited),
    decreases m,
{
    let order = settle_order(m.byte_order, Some(inherited));
    match &m.kind {
        MemberKind::Scalar(w) => Member::Int { width: *w, order },
        MemberKind::Array(w, n) => Member::Array { width: *w, order, count: *n },
        MemberKind::Nested { byte_order, members } => {
            let resolved = resolve_members(members, settle_order(*byte_order, None));
            proof {
                record_view(resolved);
            }
            Member::Record { members: resolved }
        },
    }
}

fn resolve_members(ms: &Vec<MemberDescriptor>, inherited: ByteOrder) -> (out: Vec<Member>)
    ensures
        member_views(out@) == resolved_members(ms@, inherited),
    decreases ms@,
{
    let n: usize = ms.len();
    let mut out: Vec<Member> = Vec::new();
    let mut k: usize = 0;
    while k < n
        invariant
            n == ms@.len(),
            k <= n,
            out@.len() == k,
            forall|j: int| 0 <= j < k ==> (#[trigger] out@[j])@ == resolved_member(ms@[j], inherited),
        decreases n - k,
    {
        out.push(resolve_member(&ms[k], inherited));
        k = k + 1;
    }
    assert(member_views(out@) =~= resolved_members(ms@, inherited));
    out
}

fn resolve_variants(vs: &Vec<VariantDescriptor>, inherited: ByteOrder) -> (out: Vec<Variant>)
    ensures
        variant_views(out@) == resolved_variants(vs@, inherited),
{
    let n: usize = vs.len();
    let mut out: Vec<Variant> = Vec::new();
    let mut k: usize = 0;
    while k < n
        invariant
            n == vs@.len(),
            k <= n,
            out@.len() == k,
            forall|j: int|
                0 <= j < k ==> (#[trigger] out@[j])@ == (VariantView {
                    tag: vs@[j].tag,
                    members: resolved_members(vs@[j].members@, inherited),
                }),
        decreases n - k,
    {
        let members = resolve_members(&vs[k].members, inherited);
        out.push(Variant { tag: vs[k].tag, members });
        k = k + 1;
    }
    assert(variant_views(out@) =~= resolved_variants(vs@, inherited));
    out
}

fn resolve_role(fields: &Vec<FieldDescriptor>, i: usize) -> (role: Role)
    requires
        i < fields@.len(),
    ensures
        role == role_of(fields@, i as int),
{
    proof {
        definer_from_spec(fields@, fields@[i as int].name@, 0);
    }
    match find_definer(fields, &fields[i].name) {
        Some(t) => {
            let by_len: bool = match &fields[t].len {
                Some(m) => *m == fields[i].name,
                None => false,
            };
            if by_len {
                Role::LengthOf(t)
            } else {
                Role::TagOf(t)
            }
        },
        None => Role::Plain,
    }
}

fn resolve_shape(desc: &StructureDescriptor, i: usize) -> (shape: Shape)
    requires
        i < desc.fields@.len(),
        annotation_fault(desc.fields@, i as int).is_none(),
    ensures
        shape_resolves(*desc, i as int, shape),
{
    let f = &desc.fields[i];
    let order = settle_order(f.byte_order, desc.byte_order);
    match &f.kind {
        FieldKind::Scalar(w) => Shape::Int { width: *w, order, role: resolve_role(&desc.fields, i) },
        FieldKind::Blob => Shape::Blob,
        FieldKind::Array(w, n) => Shape::Array { width: *w, order, count: *n },
        FieldKind::Nested { byte_order, members } => Shape::Record {
            members: resolve_members(members, settle_order(*byte_order, None)),
        },
        FieldKind::Choice(w, vs) => {
            let source: Option<usize> = match &f.discriminant {
                Some(n) => Some(find_field(&desc.fields, n).unwrap()),
                None => None,
            };
            Shape::Choice { width: *w, order, source, variants: resolve_variants(vs, order) }
        },
        FieldKind::Skipped => Shape::Nothing,
    }
}

fn resolve_strategy(fields: &Vec<FieldDescriptor>, i: usize) -> (size: SizeStrategy)
    requires
        i < fields@.len(),
        annotation_fault(fields@, i as int).is_none(),
        layout_fault(fields@, i as int).is_none(),
    ensures
        size == strategy_of(fields@, i as int),
{
    let f = &fields[i];
    match &f.kind {
        FieldKind::Scalar(_) => SizeStrategy::FixedScalar(fixed_size_of(&f.kind).unwrap()),
        FieldKind::Blob => match f.size {
            Some(n) => SizeStrategy::FixedCompound(n),
            None => match &f.len {
                Some(n) => SizeStrategy::LengthFrom(find_field(fields, n).unwrap()),
                None => SizeStrategy::Remainder,
            },
        },
        FieldKind::Choice(_, _) => SizeStrategy::Tagged,
        _ => SizeStrategy::FixedCompound(fixed_size_of(&f.kind).unwrap()),
    }
}

fn resolve_guard(fields: &Vec<FieldDescriptor>, p: &Predicate) -> (g: Guard)
    requires
        crate::schema::terms_known(fields@, p.terms@),
    ensures
        g@ == guard_of(fields@, *p),
{
    let n: usize = p.terms.len();
    let mut terms: Vec<Term> = Vec::new();
    let mut k: usize = 0;
    while k < n
        invariant
            n == p.terms@.len(),
            k <= n,
            terms@.len() == k,
            crate::schema::terms_known(fields@, p.terms@),
            forall|j: int| 0 <= j < k ==> terms@[j] == term_of(fields@, p.terms@[j]),
        decreases n - k,
    {
        let c = &p.terms[k];
        assert(position(fields@, p.terms@[k as int].field@).is_some());
        terms.push(
            Term {
                index: find_field(fields, &c.field).unwrap(),
                relation: c.relation,
                operand: c.operand,
            },
        );
        k = k + 1;
    }
    assert(terms@ =~= guard_of(fields@, *p).terms);
    Guard { connective: p.connective, terms }
}

/// Resolves one field of a declaration that has no fault at that field.
pub fn resolve_field(desc: &StructureDescriptor, i: usize) -> (rf: ResolvedField)
    requires
        i < desc.fields@.len(),
        annotation_fault(desc.fields@, i as int).is_none(),
        layout_fault(desc.fields@, i as int).is_none(),
    ensures
        resolves(*desc, i as int, rf),
{
    let f = &desc.fields[i];
    let skip_if: Option<Guard> = match &f.skip_if {
        Some(p) => Some(resolve_guard(&desc.fields, p)),
        None => None,
    };
    ResolvedField {
        name: f.name.clone(),
        shape: resolve_shape(desc, i),
        size: resolve_strategy(&desc.fields, i),
        skip_if,
    }
}

/// A resolved member occupies as many bytes as was declared.
pub proof fn resolved_member_size(m: MemberDescriptor, inherited: ByteOrder)
    ensures
        member_size(resolved_member(m, inherited)) == declared_size(m.kind),
    decreases m,
{
    match m.kind {
        MemberKind::Nested { byte_order, members } => {
            resolved_members_total(members@, settled_order(byte_order, None), 0);
        },
        _ => {},
    }
}

/// Resolved members occupy as many bytes as were declared.
pub proof fn resolved_members_total(ms: Seq<MemberDescriptor>, inherited: ByteOrder, k: int)
    requires
        0 <= k <= ms.len(),
    ensures
        members_size(resolved_members(ms, inherited), k) == declared_total(ms, k),
    decreases ms, ms.len() - k,
{
    if k < ms.len() {
        resolved_member_size(ms[k], inherited);
        resolved_members_total(ms, inherited, k + 1);
    }
}

/// The field that takes its length or tag from field `j` is the one that the
/// role of field `j` names.
proof fn definer_is_unique(fields: Seq<FieldDescriptor>, i: int, j: int)
    requires
        0 <= j < i < fields.len(),
        position(fields, fields[j].name@) == Some(j),
        defines(fields[i], fields[j].name@),
        !crate::layout::shared_before(fields, i, fields[j].name@),
    ensures
        definer_from(fields, fields[j].name@, 0) == Some(i),
{
    definer_from_spec(fields, fields[j].name@, 0);
}

proof fn resolved_field_wf(desc: StructureDescriptor, plan: LayoutPlan, i: int)
    requires
        resolution_error(desc).is_none(),
        realizes(desc, plan),
        0 <= i < desc.fields@.len(),
    ensures
        plan.field_wf(i),
{
    let fields = desc.fields@;
    let f = fields[i];
    let rf = plan.fields@[i];
    annotation_error_from_spec(fields, 0);
    layout_error_from_spec(fields, 0);
    assert(annotation_fault(fields, i).is_none());
    assert(layout_fault(fields, i).is_none());
    assert(resolves(desc, i, rf));
    assert(fields.len() <= usize::MAX) by {
        assert(desc.fields.len() == fields.len());
    }
    if f.skip_if.is_some() {
        let p = f.skip_if.unwrap();
        let g = rf.skip_if.unwrap();
        assert(g@ == guard_of(fields, p));
        crate::layout::terms_fault_spec(fields, i, p.terms@, 0);
        assert forall|k: int| 0 <= k < g.terms@.len() implies (#[trigger] g.terms@[k]).index < i
            && plan.scalar_at(g.terms@[k].index as int) by {
            let c = p.terms@[k];
            assert(g.terms@[k] == term_of(fields, c));
            assert(crate::layout::target_fault(fields, i, c.field@).is_none());
            position_spec(fields, c.field@);
            let j = position(fields, c.field@).unwrap();
            assert(resolves(desc, j, plan.fields@[j]));
        }
    }
    match f.kind {
        FieldKind::Scalar(w) => {
            definer_from_spec(fields, f.name@, 0);
            match definer_from(fields, f.name@, 0) {
                Some(t) => {
                    assert(annotation_fault(fields, t).is_none());
                    assert(layout_fault(fields, t).is_none());
                    assert(resolves(desc, t, plan.fields@[t]));
                    position_spec(fields, f.name@);
                },
                None => {},
            }
        },
        FieldKind::Blob => {
            if f.size.is_none() && f.len.is_some() {
                let n = f.len.unwrap();
                position_spec(fields, n@);
                let j = position(fields, n@).unwrap();
                assert(annotation_fault(fields, j).is_none());
                assert(resolves(desc, j, plan.fields@[j]));
                definer_is_unique(fields, i, j);
            }
        },
        FieldKind::Array(w, n) => {},
        FieldKind::Nested { byte_order, members } => {
            resolved_members_total(members@, settled_order(byte_order, None), 0);
        },
        FieldKind::Choice(w, vs) => {
            match rf.shape {
                Shape::Choice { width, order, source, variants } => {
                    let views = variant_views(variants@);
                    assert(views == resolved_variants(vs@, order));
                    assert(distinct_tags(views)) by {
                        assert forall|k: int, l: int| 0 <= k < l < views.len() implies (
                        #[trigger] views[k]).tag != (#[trigger] views[l]).tag by {
                            assert(vs@[k].tag != vs@[l].tag);
                        }
                    }
                    assert(tags_fit(width, views)) by {
                        assert forall|k: int| 0 <= k < views.len() implies width.holds(
                            (#[trigger] views[k]).tag,
                        ) by {
                            assert(w.holds(vs@[k].tag));
                        }
                    }
                },
                _ => {},
            }
            if f.discriminant.is_some() {
                let n = f.discriminant.unwrap();
                position_spec(fields, n@);
                let j = position(fields, n@).unwrap();
                assert(annotation_fault(fields, j).is_none());
                assert(resolves(desc, j, plan.fields@[j]));
                definer_is_unique(fields, i, j);
            }
        },
        FieldKind::Skipped => {},
    }
}

/// A declaration without faults resolves to a well-formed plan.
pub proof fn resolved_plan_wf(desc: StructureDescriptor, plan: LayoutPlan)
    requires
        resolution_error(desc).is_none(),
        realizes(desc, plan),
    ensures
        plan.wf(),
{
    assert forall|i: int| 0 <= i < plan.fields@.len() implies plan.field_wf(i) by {
        resolved_field_wf(desc, plan, i);
    }
    if plan.align > 1 && plan.takes_remainder() {
        let fields = desc.fields@;
        let i = choose|i: int|
            0 <= i < plan.fields@.len() && (#[trigger] plan.fields@[i]).size
                == SizeStrategy::Remainder;
        annotation_error_from_spec(fields, 0);
        layout_error_from_spec(fields, 0);
        assert(resolves(desc, i, plan.fields@[i]));
        assert(annotation_fault(fields, i).is_none());
        assert(layout_fault(fields, i).is_none());
        assert(fields[i].terminal);
    }
}

/// Turns a declared structure into its layout plan, or reports the first
/// fault: no plan is produced for a declaration that has one.
pub fn resolve(desc: &StructureDescriptor) -> (r: Result<LayoutPlan, ConfigError>)
    ensures
        match r {
            Ok(plan) => resolution_error(*desc).is_none() && realizes(*desc, plan) && plan.wf(),
            Err(e) => resolution_error(*desc) == Some(e),
        },
{
    match desc.check() {
        Err(e) => {
            return Err(e);
        },
        Ok(_) => {},
    }
    let n: usize = desc.fields.len();
    let mut i: usize = 0;
    while i < n
        invariant
            n == desc.fields@.len(),
            i <= n,
            desc.annotation_error().is_none(),
            layout_error_from(desc.fields@, 0) == layout_error_from(desc.fields@, i as int),
        decreases n - i,
    {
        match check_placement(&desc.fields, i) {
            Some(reason) => {
                return Err(ConfigError { field: i, reason });
            },
            None => {},
        }
        i = i + 1;
    }
    proof {
        annotation_error_from_spec(desc.fields@, 0);
        layout_error_from_spec(desc.fields@, 0);
    }
    if desc.alignment() > 1 && n > 0 && desc.fields[n - 1].terminal {
        return Err(ConfigError { field: n - 1, reason: ConfigReason::TerminalWithPadding });
    }
    let mut fields: Vec<ResolvedField> = Vec::new();
    let mut k: usize = 0;
    while k < n
        invariant
            n == desc.fields@.len(),
            k <= n,
            fields@.len() == k,
            forall|j: int| 0 <= j < n ==> annotation_fault(desc.fields@, j).is_none(),
            forall|j: int| 0 <= j < n ==> layout_fault(desc.fields@, j).is_none(),
            forall|j: int| 0 <= j < k ==> resolves(*desc, j, #[trigger] fields@[j]),
        decreases n - k,
    {
        fields.push(resolve_field(desc, k));
        k = k + 1;
    }
    let plan = LayoutPlan { fields, align: desc.alignment() };
    proof {
        resolved_plan_wf(*desc, plan);
    }
    Ok(plan)
}

/// Whether field `f` refers to the field called `name` for its length, its
/// presence or its tag.
pub open spec fn refers_by_name(f: FieldDescriptor, name: Seq<char>) -> bool {
    ||| f.len.is_some() && f.len.unwrap()@ == name
    ||| f.skip_if.is_some() && exists|k: int|
        0 <= k < f.skip_if.unwrap().terms@.len() && (#[trigger] f.skip_if.unwrap().terms@[k]).field@
            == name
    ||| f.discriminant.is_some() && f.discriminant.unwrap()@ == name
}

/// A field with a fault makes resolution fail.
pub proof fn fault_is_refused(desc: StructureDescriptor, i: int)
    requires
        0 <= i < desc.fields@.len(),
        annotation_fault(desc.fields@, i).is_some() || layout_fault(desc.fields@, i).is_some(),
    ensures
        resolution_error(desc).is_some(),
{
    annotation_error_from_spec(desc.fields@, 0);
    layout_error_from_spec(desc.fields@, 0);
}

/// A structure in which a field refers to itself, to a later field or to no
/// field at all has no plan: resolution fails.
pub proof fn forward_reference_is_refused(desc: StructureDescriptor, i: int, name: Seq<char>)
    requires
        0 <= i < desc.fields@.len(),
        refers_by_name(desc.fields@[i], name),
        match position(desc.fields@, name) {
            Some(j) => j >= i,
            None => true,
        },
    ensures
        resolution_error(desc).is_some(),
{
    let fields = desc.fields@;
    let f = fields[i];
    if annotation_fault(fields, i).is_none() {
        assert(crate::layout::target_fault(fields, i, name).is_some());
        if f.skip_if.is_some() {
            crate::layout::terms_fault_spec(fields, i, f.skip_if.unwrap().terms@, 0);
        }
        assert(layout_fault(fields, i).is_some());
    }
    fault_is_refused(desc, i);
}

/// A structure with a terminal field that is not its last field has no plan:
/// resolution fails.
pub proof fn misplaced_terminal_is_refused(desc: StructureDescriptor, i: int)
    requires
        0 <= i,
        i + 1 < desc.fields@.len(),
        desc.fields@[i].terminal,
    ensures
        resolution_error(desc).is_some(),
{
    assert(layout_fault(desc.fields@, i) == Some(ConfigReason::TerminalNotLast));
    fault_is_refused(desc, i);
}

/// A structure in which two variants of an enum share a tag has no plan:
/// resolution fails.
pub proof fn duplicate_tag_is_refused(desc: StructureDescriptor, i: int, k: int, l: int)
    requires
        0 <= i < desc.fields@.len(),
        desc.fields@[i].kind is Choice,
        0 <= k < l < desc.fields@[i].kind->Choice_1@.len(),
        desc.fields@[i].kind->Choice_1@[k].tag == desc.fields@[i].kind->Choice_1@[l].tag,
    ensures
        resolution_error(desc).is_some(),
{
    let vs = desc.fields@[i].kind->Choice_1@;
    assert(!crate::layout::tags_differ(vs));
    assert(crate::layout::tag_fault(desc.fields@[i].kind).is_some());
    if !desc.fields@[i].terminal {
        assert(layout_fault(desc.fields@, i).is_some());
    }
    fault_is_refused(desc, i);
}

} // verus!
