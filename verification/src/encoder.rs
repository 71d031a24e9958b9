//! The encode synthesizer: from a layout plan to an encode program, one step
//! per field in wire order, and the routine that runs such a program.

use crate::layout::{
    copy_guard, copy_members, copy_variants, guard_below, guard_is_below, guard_view,
    member_views, variant_views, Guard, LayoutPlan, Member, ResolvedField, Role, Shape,
    SizeStrategy, Term, Variant,
};
use crate::schema::Connective;
use crate::members::{
    clip_absorbs, ints_accepted, ints_bytes, ints_fit, members_accepted, members_bytes,
    members_fit, put_int, put_ints, put_members,
};
use crate::value::{atom_views, value_views, Value, ValueView};
use crate::wire::{
    clip, int_bytes, int_bytes_len, pad_len, padded, padding_for, zero_bytes, zeros, ByteOrder,
    ByteSink, IntWidth,
};
use vstd::prelude::*;

verus! {

/// What an encode step writes.
#[derive(Clone, PartialEq, Eq, Debug)]
pub enum Emit {
    /// The field's own integer.
    Int { width: IntWidth, order: ByteOrder },
    /// The byte length of the blob at position `target`.
    LengthOf { target: usize, width: IntWidth, order: ByteOrder },
    /// The tag of the variant that the enum at position `target` holds.
    TagOf { target: usize, width: IntWidth, order: ByteOrder },
    /// The field's bytes; with `exact`, there must be that many.
    Blob { exact: Option<usize> },
    /// The field's integers.
    Array { width: IntWidth, order: ByteOrder, count: usize },
    /// The members of a nested structure.
    Record { members: Vec<Member> },
    /// The members of the variant that the field holds, after its tag where
    /// the tag is `inline`.
    Choice { width: IntWidth, order: ByteOrder, inline: bool, variants: Vec<Variant> },
    /// Nothing.
    Nothing,
}

/// One step of an encode program: what to write for one field, and when to
/// leave it out.
#[derive(Clone, PartialEq, Eq, Debug)]
pub struct EncodeStep {
    pub skip_if: Option<Guard>,
    pub emit: Emit,
}

/// The synthesized encode logic of a structure: one step per field, in wire
/// order.
#[derive(Clone, PartialEq, Eq, Debug)]
pub struct EncodeProgram {
    pub steps: Vec<EncodeStep>,
    /// The encoding is padded with zero bytes to a multiple of this many
    /// bytes; 1 means no padding.
    pub align: usize,
}

/// Why a structure value was not encoded.
#[derive(Clone, Copy, PartialEq, Eq, Structural, Debug)]
pub enum EncodeError {
    /// There is not one value per field.
    ArityMismatch,
    /// The value of the field at this position is not one that the field can
    /// hold.
    FieldMismatch(usize),
    /// The sink has no room for the whole encoding.
    SinkFull,
}

/// The tag of the variant that `v` holds, where `emit` is an enum with such a
/// variant.
pub open spec fn tag_of(emit: Emit, v: ValueView) -> Option<u64> {
    match (emit, v) {
        (Emit::Choice { variants, .. }, ValueView::Variant { index, .. }) => if index
            < variants@.len() {
            Some(variants@[index as int].tag)
        } else {
            None
        },
        _ => None,
    }
}

/// The integer that step `j` puts on the wire, where the values allow one: the
/// field's own value, the length of the blob it measures or the tag of the
/// enum it discriminates, if that fits the step's width.
pub open spec fn carried(steps: Seq<EncodeStep>, values: Seq<ValueView>, j: int) -> Option<u64> {
    match steps[j].emit {
        Emit::Int { width, .. } => match values[j] {
            ValueView::Int(v) => if width.holds(v) {
                Some(v)
            } else {
                None
            },
            _ => None,
        },
        Emit::LengthOf { target, width, .. } => match values[target as int] {
            ValueView::Bytes(b) => if b.len() < width.limit() {
                Some(b.len() as u64)
            } else {
                None
            },
            _ => None,
        },
        Emit::TagOf { target, width, .. } => match tag_of(
            steps[target as int].emit,
            values[target as int],
        ) {
            Some(tag) => if width.holds(tag) {
                Some(tag)
            } else {
                None
            },
            None => None,
        },
        _ => None,
    }
}

/// Whether the term holds of the integer that goes on the wire at its
/// position.
pub open spec fn term_met(steps: Seq<EncodeStep>, values: Seq<ValueView>, t: Term) -> bool {
    match carried(steps, values, t.index as int) {
        Some(v) => t.relation.holds(v, t.operand),
        None => false,
    }
}

/// Whether field `i` is left out: its guard holds of the integers it refers
/// to.
pub open spec fn skipped(steps: Seq<EncodeStep>, values: Seq<ValueView>, i: int) -> bool {
    match steps[i].skip_if {
        Some(g) => match g.connective {
            Connective::All => forall|k: int|
                0 <= k < g.terms@.len() ==> term_met(steps, values, #[trigger] g.terms@[k]),
            Connective::Any => exists|k: int|
                0 <= k < g.terms@.len() && term_met(steps, values, #[trigger] g.terms@[k]),
        },
        None => false,
    }
}

/// Whether the value of field `i` is one that step `i` can write.
pub open spec fn accepts_at(steps: Seq<EncodeStep>, values: Seq<ValueView>, i: int) -> bool {
    skipped(steps, values, i) || match steps[i].emit {
        Emit::Int { .. } => carried(steps, values, i).is_some(),
        Emit::LengthOf { .. } => carried(steps, values, i).is_some(),
        Emit::TagOf { .. } => carried(steps, values, i).is_some(),
        Emit::Blob { exact } => match values[i] {
            ValueView::Bytes(b) => exact.is_some() ==> b.len() == exact.unwrap(),
            _ => false,
        },
        Emit::Array { width, count, .. } => match values[i] {
            ValueView::Array(xs) => xs.len() == count && ints_fit(xs, width),
            _ => false,
        },
        Emit::Record { members } => match values[i] {
            ValueView::Record(atoms) => members_fit(member_views(members@), atoms),
            _ => false,
        },
        Emit::Choice { variants, width, .. } => match values[i] {
            ValueView::Variant { index, members } => index < variants@.len() && width.holds(
                variants@[index as int].tag,
            ) && members_fit(variants@[index as int]@.members, members),
            _ => false,
        },
        Emit::Nothing => true,
    }
}

/// The bytes that step `i` writes for acceptable values.
pub open spec fn step_bytes(steps: Seq<EncodeStep>, values: Seq<ValueView>, i: int) -> Seq<u8> {
    if skipped(steps, values, i) {
        Seq::empty()
    } else {
        match steps[i].emit {
            Emit::Int { width, order } => match carried(steps, values, i) {
                Some(v) => int_bytes(v as nat, width.size(), order),
                None => Seq::empty(),
            },
            Emit::LengthOf { width, order, .. } => match carried(steps, values, i) {
                Some(v) => int_bytes(v as nat, width.size(), order),
                None => Seq::empty(),
            },
            Emit::TagOf { width, order, .. } => match carried(steps, values, i) {
                Some(v) => int_bytes(v as nat, width.size(), order),
                None => Seq::empty(),
            },
            Emit::Blob { .. } => match values[i] {
                ValueView::Bytes(b) => b,
                _ => Seq::empty(),
            },
            Emit::Array { width, order, .. } => match values[i] {
                ValueView::Array(xs) => ints_bytes(xs, width, order, 0),
                _ => Seq::empty(),
            },
            Emit::Record { members } => match values[i] {
                ValueView::Record(atoms) => members_bytes(member_views(members@), atoms, 0),
                _ => Seq::empty(),
            },
            Emit::Choice { width, order, inline, variants } => match values[i] {
                ValueView::Variant { index, members } => if index < variants@.len() {
                    let v = variants@[index as int];
                    let tag = if inline {
                        int_bytes(v.tag as nat, width.size(), order)
                    } else {
                        Seq::empty()
                    };
                    tag + members_bytes(v@.members, members, 0)
                } else {
                    Seq::empty()
                },
                _ => Seq::empty(),
            },
            Emit::Nothing => Seq::empty(),
        }
    }
}

/// The value that a decoder gives back for field `i`: absent where the field
/// is left out or never on the wire, the integer on the wire for a length or
/// tag field, else the value as it is.
pub open spec fn canonical_at(steps: Seq<EncodeStep>, values: Seq<ValueView>, i: int) -> ValueView {
    if skipped(steps, values, i) {
        ValueView::Absent
    } else {
        match steps[i].emit {
            Emit::Int { .. } => values[i],
            Emit::LengthOf { .. } => ValueView::Int(carried(steps, values, i).unwrap()),
            Emit::TagOf { .. } => ValueView::Int(carried(steps, values, i).unwrap()),
            Emit::Nothing => ValueView::Absent,
            _ => values[i],
        }
    }
}

/// The structure value that a decoder gives back for `values`.
pub open spec fn canonical(steps: Seq<EncodeStep>, values: Seq<ValueView>) -> Seq<ValueView> {
    Seq::new(steps.len(), |i: int| canonical_at(steps, values, i))
}

/// The first field at or after `from` whose value its step cannot write.
pub open spec fn first_misfit(steps: Seq<EncodeStep>, values: Seq<ValueView>, from: int) -> Option<
    int,
>
    decreases steps.len() - from,
{
    if from < 0 || from >= steps.len() {
        None
    } else if !accepts_at(steps, values, from) {
        Some(from)
    } else {
        first_misfit(steps, values, from + 1)
    }
}

/// Whether the program can write `values`: one acceptable value per field.
pub open spec fn accepts(steps: Seq<EncodeStep>, values: Seq<ValueView>) -> bool {
    &&& values.len() == steps.len()
    &&& forall|i: int| 0 <= i < steps.len() ==> accepts_at(steps, values, i)
}

/// The bytes of the fields from `i` on, in wire order.
pub open spec fn wire_from(steps: Seq<EncodeStep>, values: Seq<ValueView>, i: int) -> Seq<u8>
    decreases steps.len() - i,
{
    if i < 0 || i >= steps.len() {
        Seq::empty()
    } else {
        step_bytes(steps, values, i) + wire_from(steps, values, i + 1)
    }
}

/// The encoding of `values`.
pub open spec fn wire(steps: Seq<EncodeStep>, values: Seq<ValueView>) -> Seq<u8> {
    wire_from(steps, values, 0)
}

/// The encoding of `values` with its padding.
pub open spec fn encoding(steps: Seq<EncodeStep>, align: nat, values: Seq<ValueView>) -> Seq<u8> {
    padded(wire(steps, values), align)
}

/// How encoding `values` into a sink that holds `used` bytes of `capacity`
/// ends.
pub open spec fn outcome(
    steps: Seq<EncodeStep>,
    align: nat,
    values: Seq<ValueView>,
    used: nat,
    capacity: nat,
) -> Result<(), EncodeError> {
    if values.len() != steps.len() {
        Err(EncodeError::ArityMismatch)
    } else {
        match first_misfit(steps, values, 0) {
            Some(i) => Err(EncodeError::FieldMismatch(i as usize)),
            None => if used + encoding(steps, align, values).len() > capacity {
                Err(EncodeError::SinkFull)
            } else {
                Ok(())
            },
        }
    }
}

/// What `first_misfit` finds: the first field whose value its step cannot
/// write, if there is one.
pub proof fn first_misfit_spec(steps: Seq<EncodeStep>, values: Seq<ValueView>, from: int)
    requires
        0 <= from,
    ensures
        match first_misfit(steps, values, from) {
            Some(i) => from <= i < steps.len() && !accepts_at(steps, values, i) && forall|k: int|
                from <= k < i ==> accepts_at(steps, values, k),
            None => forall|k: int| from <= k < steps.len() ==> accepts_at(steps, values, k),
        },
    decreases steps.len() - from,
{
    if from < steps.len() && accepts_at(steps, values, from) {
        first_misfit_spec(steps, values, from + 1);
    }
}

/// Whether `step` is the encode step of the resolved field `f`.
pub open spec fn encodes_field(f: ResolvedField, step: EncodeStep) -> bool {
    &&& guard_view(step.skip_if) == guard_view(f.skip_if)
    &&& match f.shape {
        Shape::Int { width, order, role } => step.emit == match role {
            Role::Plain => Emit::Int { width, order },
            Role::LengthOf(target) => Emit::LengthOf { target, width, order },
            Role::TagOf(target) => Emit::TagOf { target, width, order },
        },
        Shape::Blob => step.emit == (Emit::Blob {
            exact: match f.size {
                SizeStrategy::FixedCompound(n) => Some(n),
                _ => None,
            },
        }),
        Shape::Array { width, order, count } => step.emit == (Emit::Array { width, order, count }),
        Shape::Record { members } => match step.emit {
            Emit::Record { members: copied } => member_views(copied@) == member_views(members@),
            _ => false,
        },
        Shape::Choice { width, order, source, variants } => match step.emit {
            Emit::Choice { width: w, order: o, inline, variants: copied } => {
                &&& w == width
                &&& o == order
                &&& inline == source.is_none()
                &&& variant_views(copied@) == variant_views(variants@)
            },
            _ => false,
        },
        Shape::Nothing => step.emit == Emit::Nothing,
    }
}

impl EncodeProgram {
    /// Every position that a step names is the position of a step.
    pub open spec fn steps_wf(&self) -> bool {
        forall|i: int|
            0 <= i < self.steps@.len() ==> {
                &&& guard_below((#[trigger] self.steps@[i]).skip_if, self.steps@.len() as int)
                &&& match self.steps@[i].emit {
                    Emit::LengthOf { target, .. } => target < self.steps@.len(),
                    Emit::TagOf { target, .. } => target < self.steps@.len(),
                    _ => true,
                }
            }
    }

    /// The invariant of an encode program.
    pub open spec fn wf(&self) -> bool {
        &&& self.steps_wf()
        &&& self.align >= 1
    }

    /// Whether this is the encode program of `plan`: step `i` writes field `i`.
    pub open spec fn lowers(&self, plan: LayoutPlan) -> bool {
        &&& self.align == plan.align
        &&& self.steps@.len() == plan.fields@.len()
        &&& forall|i: int|
            0 <= i < plan.fields@.len() ==> encodes_field(plan.fields@[i], #[trigger] self.steps@[i])
    }
}

fn encode_step(f: &ResolvedField) -> (step: EncodeStep)
    ensures
        encodes_field(*f, step),
{
    let emit = match &f.shape {
        Shape::Int { width, order, role } => match role {
            Role::Plain => Emit::Int { width: *width, order: *order },
            Role::LengthOf(target) => Emit::LengthOf {
                target: *target,
                width: *width,
                order: *order,
            },
            Role::TagOf(target) => Emit::TagOf { target: *target, width: *width, order: *order },
        },
        Shape::Blob => Emit::Blob {
            exact: match f.size {
                SizeStrategy::FixedCompound(n) => Some(n),
                _ => None,
            },
        },
        Shape::Array { width, order, count } => Emit::Array {
            width: *width,
            order: *order,
            count: *count,
        },
        Shape::Record { members } => Emit::Record { members: copy_members(members) },
        Shape::Choice { width, order, source, variants } => Emit::Choice {
            width: *width,
            order: *order,
            inline: source.is_none(),
            variants: copy_variants(variants),
        },
        Shape::Nothing => Emit::Nothing,
    };
    EncodeStep { skip_if: copy_guard(&f.skip_if), emit }
}

/// Synthesizes the encode program of a plan: one step per field, in
/// declaration order.
pub fn synthesize_encode(plan: &LayoutPlan) -> (program: EncodeProgram)
    requires
        plan.wf(),
    ensures
        program.lowers(*plan),
        program.wf(),
{
    let n: usize = plan.fields.len();
    let mut steps: Vec<EncodeStep> = Vec::new();
    let mut i: usize = 0;
    while i < n
        invariant
            n == plan.fields@.len(),
            i <= n,
            steps@.len() == i,
            forall|j: int| 0 <= j < i ==> encodes_field(plan.fields@[j], #[trigger] steps@[j]),
        decreases n - i,
    {
        steps.push(encode_step(&plan.fields[i]));
        i = i + 1;
    }
    let program = EncodeProgram { steps, align: plan.align };
    proof {
        assert forall|j: int| 0 <= j < n implies {
            &&& guard_below((#[trigger] program.steps@[j]).skip_if, n as int)
            &&& match program.steps@[j].emit {
                Emit::LengthOf { target, .. } => target < n,
                Emit::TagOf { target, .. } => target < n,
                _ => true,
            }
        } by {
            assert(plan.field_wf(j));
            assert(encodes_field(plan.fields@[j], program.steps@[j]));
        }
    }
    program
}

impl EncodeProgram {
    /// Tests the invariant: what `encode` asks of a program built by hand.
    pub fn is_wf(&self) -> (ok: bool)
        ensures
            ok == self.wf(),
    {
        if self.align < 1 {
            return false;
        }
        let n: usize = self.steps.len();
        let mut i: usize = 0;
        while i < n
            invariant
                n == self.steps@.len(),
                i <= n,
                forall|j: int|
                    0 <= j < i ==> {
                        &&& guard_below((#[trigger] self.steps@[j]).skip_if, n as int)
                        &&& match self.steps@[j].emit {
                            Emit::LengthOf { target, .. } => target < n,
                            Emit::TagOf { target, .. } => target < n,
                            _ => true,
                        }
                    },
            decreases n - i,
        {
            let guard_ok: bool = guard_is_below(&self.steps[i].skip_if, n);
            let emit_ok: bool = match &self.steps[i].emit {
                Emit::LengthOf { target, width: _, order: _ } => *target < n,
                Emit::TagOf { target, width: _, order: _ } => *target < n,
                _ => true,
            };
            if !guard_ok || !emit_ok {
                assert(!({
                    &&& guard_below(self.steps@[i as int].skip_if, n as int)
                    &&& match self.steps@[i as int].emit {
                        Emit::LengthOf { target, .. } => target < n,
                        Emit::TagOf { target, .. } => target < n,
                        _ => true,
                    }
                }));
                return false;
            }
            i = i + 1;
        }
        true
    }

    fn carried_at(&self, values: &Vec<Value>, j: usize) -> (r: Option<u64>)
        requires
            self.wf(),
            j < self.steps@.len(),
            values@.len() == self.steps@.len(),
        ensures
            r == carried(self.steps@, value_views(values@), j as int),
    {
        match &self.steps[j].emit {
            Emit::Int { width, order: _ } => match &values[j] {
                Value::Int(v) => if width.fits(*v) {
                    Some(*v)
                } else {
                    None
                },
                _ => None,
            },
            Emit::LengthOf { target, width, order: _ } => match &values[*target] {
                Value::Bytes(b) => {
                    let len: u64 = b.len() as u64;
                    if width.fits(len) {
                        Some(len)
                    } else {
                        None
                    }
                },
                _ => None,
            },
            Emit::TagOf { target, width, order: _ } => match (
                &self.steps[*target].emit,
                &values[*target],
            ) {
                (
                    Emit::Choice { width: _, order: _, inline: _, variants },
                    Value::Variant { index, members: _ },
                ) => {
                    if *index < variants.len() && width.fits(variants[*index].tag) {
                        Some(variants[*index].tag)
                    } else {
                        None
                    }
                },
                _ => None,
            },
            _ => None,
        }
    }

    fn is_skipped(&self, values: &Vec<Value>, i: usize) -> (r: bool)
        requires
            self.wf(),
            i < self.steps@.len(),
            values@.len() == self.steps@.len(),
        ensures
            r == skipped(self.steps@, value_views(values@), i as int),
    {
        match &self.steps[i].skip_if {
            Some(g) => {
                let n: usize = g.terms.len();
                let all: bool = match g.connective {
                    Connective::All => true,
                    Connective::Any => false,
                };
                let ghost steps = self.steps@;
                let ghost views = value_views(values@);
                let mut k: usize = 0;
                while k < n
                    invariant
                        n == g.terms@.len(),
                        k <= n,
                        self.wf(),
                        i < self.steps@.len(),
                        values@.len() == self.steps@.len(),
                        steps == self.steps@,
                        views == value_views(values@),
                        self.steps@[i as int].skip_if == Some(*g),
                        all == (g.connective == Connective::All),
                        forall|j: int|
                            0 <= j < k ==> term_met(steps, views, #[trigger] g.terms@[j]) == all,
                    decreases n - k,
                {
                    let t = g.terms[k];
                    assert(guard_below(self.steps@[i as int].skip_if, self.steps@.len() as int));
                    assert(g.terms@[k as int].index < self.steps@.len());
                    let met: bool = match self.carried_at(values, t.index) {
                        Some(v) => t.relation.test(v, t.operand),
                        None => false,
                    };
                    if met != all {
                        assert(term_met(steps, views, g.terms@[k as int]) != all);
                        return met;
                    }
                    k = k + 1;
                }
                all
            },
            None => false,
        }
    }

    fn accepts_field(&self, values: &Vec<Value>, i: usize) -> (r: bool)
        requires
            self.wf(),
            i < self.steps@.len(),
            values@.len() == self.steps@.len(),
        ensures
            r == accepts_at(self.steps@, value_views(values@), i as int),
    {
        if self.is_skipped(values, i) {
            return true;
        }
        match &self.steps[i].emit {
            Emit::Int { .. } => self.carried_at(values, i).is_some(),
            Emit::LengthOf { .. } => self.carried_at(values, i).is_some(),
            Emit::TagOf { .. } => self.carried_at(values, i).is_some(),
            Emit::Blob { exact } => match &values[i] {
                Value::Bytes(b) => match exact {
                    Some(n) => b.len() == *n,
                    None => true,
                },
                _ => false,
            },
            Emit::Array { width, order: _, count } => match &values[i] {
                Value::Array(xs) => xs.len() == *count && ints_accepted(xs, *width),
                _ => false,
            },
            Emit::Record { members } => match &values[i] {
                Value::Record(atoms) => members_accepted(members, atoms),
                _ => false,
            },
            Emit::Choice { width, order: _, inline: _, variants } => match &values[i] {
                Value::Variant { index, members } => *index < variants.len() && width.fits(
                    variants[*index].tag,
                ) && members_accepted(&variants[*index].members, members),
                _ => false,
            },
            Emit::Nothing => true,
        }
    }

    fn write_field(&self, values: &Vec<Value>, i: usize, sink: &mut ByteSink) -> (ok: bool)
        requires
            self.wf(),
            i < self.steps@.len(),
            values@.len() == self.steps@.len(),
            accepts_at(self.steps@, value_views(values@), i as int),
            old(sink).wf(),
        ensures
            final(sink).wf(),
            final(sink).capacity() == old(sink).capacity(),
            final(sink)@ == clip(
                old(sink)@ + step_bytes(self.steps@, value_views(values@), i as int),
                old(sink).capacity(),
            ),
            ok == (old(sink)@.len() + step_bytes(self.steps@, value_views(values@), i as int).len()
                <= old(sink).capacity()),
    {
        assert(sink@ + Seq::<u8>::empty() =~= sink@);
        if self.is_skipped(values, i) {
            return true;
        }
        match &self.steps[i].emit {
            Emit::Int { width, order } => {
                let v: u64 = self.carried_at(values, i).unwrap();
                proof {
                    int_bytes_len(v as nat, width.size(), *order);
                }
                put_int(sink, v, *width, *order)
            },
            Emit::LengthOf { target: _, width, order } => {
                let v: u64 = self.carried_at(values, i).unwrap();
                proof {
                    int_bytes_len(v as nat, width.size(), *order);
                }
                put_int(sink, v, *width, *order)
            },
            Emit::TagOf { target: _, width, order } => {
                let v: u64 = self.carried_at(values, i).unwrap();
                proof {
                    int_bytes_len(v as nat, width.size(), *order);
                }
                put_int(sink, v, *width, *order)
            },
            Emit::Blob { exact: _ } => match &values[i] {
                Value::Bytes(b) => sink.write(b.as_slice()),
                _ => true,
            },
            Emit::Array { width, order, count: _ } => match &values[i] {
                Value::Array(xs) => put_ints(sink, xs, *width, *order),
                _ => true,
            },
            Emit::Record { members } => match &values[i] {
                Value::Record(atoms) => put_members(sink, members, atoms),
                _ => true,
            },
            Emit::Choice { width, order, inline, variants } => match &values[i] {
                Value::Variant { index, members } => {
                    let v = &variants[*index];
                    let ghost before = sink@;
                    let ghost tag = if *inline {
                        int_bytes(v.tag as nat, width.size(), *order)
                    } else {
                        Seq::<u8>::empty()
                    };
                    let ghost body = members_bytes(v@.members, atom_views(members@), 0);
                    proof {
                        int_bytes_len(v.tag as nat, width.size(), *order);
                        assert((before + tag) + body =~= before + (tag + body));
                    }
                    if *inline {
                        if !put_int(sink, v.tag, *width, *order) {
                            proof {
                                clip_absorbs(before + tag, body, sink.capacity());
                            }
                            return false;
                        }
                    }
                    put_members(sink, &v.members, members)
                },
                _ => true,
            },
            Emit::Nothing => true,
        }
    }

    /// Encodes `values`, one per field, into `sink`, in wire order.
    ///
    /// Nothing is written unless every value is acceptable. A sink that is too
    /// small is filled to its capacity with the front of the encoding.
    pub fn encode(&self, values: &Vec<Value>, sink: &mut ByteSink) -> (r: Result<(), EncodeError>)
        requires
            self.wf(),
            old(sink).wf(),
        ensures
            final(sink).wf(),
            final(sink).capacity() == old(sink).capacity(),
            r == outcome(
                self.steps@,
                self.align as nat,
                value_views(values@),
                old(sink)@.len(),
                old(sink).capacity(),
            ),
            final(sink)@ == match r {
                Err(EncodeError::ArityMismatch) => old(sink)@,
                Err(EncodeError::FieldMismatch(_)) => old(sink)@,
                _ => clip(
                    old(sink)@ + encoding(self.steps@, self.align as nat, value_views(values@)),
                    old(sink).capacity(),
                ),
            },
    {
        let n: usize = self.steps.len();
        if values.len() != n {
            return Err(EncodeError::ArityMismatch);
        }
        let ghost views = value_views(values@);
        let mut i: usize = 0;
        while i < n
            invariant
                n == self.steps@.len(),
                n == values@.len(),
                views == value_views(values@),
                self.wf(),
                i <= n,
                *sink == *old(sink),
                sink.wf(),
                first_misfit(self.steps@, views, 0) == first_misfit(self.steps@, views, i as int),
            decreases n - i,
        {
            if !self.accepts_field(values, i) {
                return Err(EncodeError::FieldMismatch(i));
            }
            i = i + 1;
        }
        proof {
            first_misfit_spec(self.steps@, views, 0);
        }
        let start: usize = sink.len();
        let ghost whole = encoding(self.steps@, self.align as nat, views);
        let ghost pad = zeros(pad_len(wire(self.steps@, views).len(), self.align as nat));
        let mut k: usize = 0;
        while k < n
            invariant
                n == self.steps@.len(),
                n == values@.len(),
                views == value_views(values@),
                self.wf(),
                k <= n,
                first_misfit(self.steps@, views, 0).is_none(),
                forall|j: int| 0 <= j < n ==> accepts_at(self.steps@, views, j),
                sink.wf(),
                sink.capacity() == old(sink).capacity(),
                start == old(sink)@.len(),
                whole == encoding(self.steps@, self.align as nat, views),
                pad == zeros(pad_len(wire(self.steps@, views).len(), self.align as nat)),
                sink@ + wire_from(self.steps@, views, k as int) == old(sink)@ + wire(
                    self.steps@,
                    views,
                ),
            decreases n - k,
        {
            let ghost before = sink@;
            let ghost head = step_bytes(self.steps@, views, k as int);
            let ghost rest = wire_from(self.steps@, views, k + 1) + pad;
            proof {
                let later = wire_from(self.steps@, views, k + 1);
                assert(whole == wire(self.steps@, views) + pad);
                assert(old(sink)@ + whole =~= (old(sink)@ + wire(self.steps@, views)) + pad);
                assert((before + (head + later)) + pad =~= (before + head) + (later + pad));
            }
            if !self.write_field(values, k, sink) {
                proof {
                    clip_absorbs(before + head, rest, sink.capacity());
                }
                return Err(EncodeError::SinkFull);
            }
            k = k + 1;
        }
        assert(sink@ + wire_from(self.steps@, views, n as int) =~= sink@);
        let written: usize = sink.len() - start;
        let filler = zero_bytes(padding_for(written, self.align));
        assert(whole == wire(self.steps@, views) + pad);
        assert(old(sink)@ + whole =~= sink@ + pad);
        if !sink.write(filler.as_slice()) {
            return Err(EncodeError::SinkFull);
        }
        Ok(())
    }
}

} // verus!
