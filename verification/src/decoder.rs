//! The decode synthesizer: from a layout plan to a decode program, one step
//! per field in wire order, and the routine that runs such a program.

use crate::layout::{
    copy_guard, copy_members, copy_variants, guard_below, guard_is_below, guard_view,
    member_views, variant_views, Guard, LayoutPlan, Member, ResolvedField, Shape, SizeStrategy,
    Term, Variant,
};
use crate::schema::Connective;
use crate::members::{
    leading_int, parse_ints, parse_ints_needs, parse_members, parse_members_takes, take_int,
    take_ints, take_members,
};
use crate::value::{value_views, Value, ValueView};
use crate::wire::{pad_len, padding_for, ByteOrder, ByteSource, IntWidth};
use vstd::prelude::*;

verus! {

/// How many bytes a blob takes from the input.
#[derive(Clone, Copy, PartialEq, Eq, Structural, Debug)]
pub enum BlobSize {
    /// This many.
    Exact(usize),
    /// As many as the integer decoded at this position says.
    Counted(usize),
    /// All that are left.
    Rest,
}

/// What a decode step reads.
#[derive(Clone, PartialEq, Eq, Debug)]
pub enum Take {
    Int { width: IntWidth, order: ByteOrder },
    Blob { size: BlobSize },
    Array { width: IntWidth, order: ByteOrder, count: usize },
    Record { members: Vec<Member> },
    /// The tag is the integer decoded at position `source`, or where there is
    /// none, an integer in front of the members.
    Choice { width: IntWidth, order: ByteOrder, source: Option<usize>, variants: Vec<Variant> },
    Nothing,
}

/// One step of a decode program: what to read for one field, and when to
/// leave it absent.
#[derive(Clone, PartialEq, Eq, Debug)]
pub struct DecodeStep {
    pub skip_if: Option<Guard>,
    pub take: Take,
}

/// The synthesized decode logic of a structure: one step per field, in wire
/// order.
#[derive(Clone, PartialEq, Eq, Debug)]
pub struct DecodeProgram {
    pub steps: Vec<DecodeStep>,
    /// The encoding is padded to a multiple of this many bytes; 1 means no
    /// padding.
    pub align: usize,
}

/// Why a run of bytes was not decoded.
#[derive(Clone, Copy, PartialEq, Eq, Structural, Debug)]
pub enum DecodeError {
    /// The input ends before the field at this position does; for the padding
    /// after the last field, the position is the number of fields.
    Truncated { field: usize },
    /// The enum at this position has no variant with this tag.
    UnknownVariant { field: usize, tag: u64 },
}

/// The integer decoded at position `j`; 0 where there is none.
pub open spec fn int_at(earlier: Seq<ValueView>, j: int) -> u64 {
    match earlier[j] {
        ValueView::Int(v) => v,
        _ => 0,
    }
}

/// Position of the first variant from `from` on that has the tag `tag`.
pub open spec fn variant_with_tag(vs: Seq<Variant>, tag: u64, from: int) -> Option<int>
    decreases vs.len() - from,
{
    if from < 0 || from >= vs.len() {
        None
    } else if vs[from].tag == tag {
        Some(from)
    } else {
        variant_with_tag(vs, tag, from + 1)
    }
}

/// What `variant_with_tag` finds: the first variant with the tag, if any has
/// it.
pub proof fn variant_with_tag_spec(vs: Seq<Variant>, tag: u64, from: int)
    requires
        0 <= from,
    ensures
        match variant_with_tag(vs, tag, from) {
            Some(k) => from <= k < vs.len() && vs[k].tag == tag && forall|j: int|
                from <= j < k ==> vs[j].tag != tag,
            None => forall|j: int| from <= j < vs.len() ==> vs[j].tag != tag,
        },
    decreases vs.len() - from,
{
    if from < vs.len() && vs[from].tag != tag {
        variant_with_tag_spec(vs, tag, from + 1);
    }
}

/// Whether the term holds of the integer decoded at its position.
pub open spec fn term_seen(earlier: Seq<ValueView>, t: Term) -> bool {
    t.relation.holds(int_at(earlier, t.index as int), t.operand)
}

/// Whether the guard, if there is one, holds of the values decoded so far.
pub open spec fn guard_seen(guard: Option<Guard>, earlier: Seq<ValueView>) -> bool {
    match guard {
        Some(g) => match g.connective {
            Connective::All => forall|k: int|
                0 <= k < g.terms@.len() ==> term_seen(earlier, #[trigger] g.terms@[k]),
            Connective::Any => exists|k: int|
                0 <= k < g.terms@.len() && term_seen(earlier, #[trigger] g.terms@[k]),
        },
        None => false,
    }
}

/// Whether the step's guard holds of the values decoded so far.
pub open spec fn guarded(step: DecodeStep, earlier: Seq<ValueView>) -> bool {
    guard_seen(step.skip_if, earlier)
}

/// A blob of `n` bytes at the front of `input`.
pub open spec fn parse_blob(i: int, input: Seq<u8>, n: nat) -> Result<(ValueView, nat), DecodeError> {
    if input.len() < n {
        Err(DecodeError::Truncated { field: i as usize })
    } else {
        Ok((ValueView::Bytes(input.take(n as int)), n))
    }
}

/// The members of the variant with the tag `tag`, at the front of `input`.
pub open spec fn parse_variant(i: int, vs: Seq<Variant>, tag: u64, input: Seq<u8>) -> Result<
    (ValueView, nat),
    DecodeError,
> {
    match variant_with_tag(vs, tag, 0) {
        Some(k) => match parse_members(vs[k]@.members, 0, input) {
            Some((atoms, used)) => Ok((ValueView::Variant { index: k as usize, members: atoms }, used)),
            None => Err(DecodeError::Truncated { field: i as usize }),
        },
        None => Err(DecodeError::UnknownVariant { field: i as usize, tag }),
    }
}

/// What step `i` makes of `input`, given the values decoded before it: the
/// field's value and the number of bytes it takes, or the error.
pub open spec fn parse_step(step: DecodeStep, i: int, earlier: Seq<ValueView>, input: Seq<u8>) -> Result<
    (ValueView, nat),
    DecodeError,
> {
    if guarded(step, earlier) {
        Ok((ValueView::Absent, 0))
    } else {
        match step.take {
            Take::Int { width, order } => if input.len() < width.size() {
                Err(DecodeError::Truncated { field: i as usize })
            } else {
                Ok((ValueView::Int(leading_int(input, width, order)), width.size()))
            },
            Take::Blob { size } => match size {
                BlobSize::Exact(n) => parse_blob(i, input, n as nat),
                BlobSize::Counted(j) => parse_blob(i, input, int_at(earlier, j as int) as nat),
                BlobSize::Rest => Ok((ValueView::Bytes(input), input.len())),
            },
            Take::Array { width, order, count } => match parse_ints(
                input,
                width,
                order,
                count as nat,
            ) {
                Some(xs) => Ok((ValueView::Array(xs), width.size() * (count as nat))),
                None => Err(DecodeError::Truncated { field: i as usize }),
            },
            Take::Record { members } => match parse_members(member_views(members@), 0, input) {
                Some((atoms, used)) => Ok((ValueView::Record(atoms), used)),
                None => Err(DecodeError::Truncated { field: i as usize }),
            },
            Take::Choice { width, order, source, variants } => match source {
                Some(j) => parse_variant(i, variants@, int_at(earlier, j as int), input),
                None => if input.len() < width.size() {
                    Err(DecodeError::Truncated { field: i as usize })
                } else {
                    match parse_variant(
                        i,
                        variants@,
                        leading_int(input, width, order),
                        input.skip(width.size() as int),
                    ) {
                        Ok((v, used)) => Ok((v, width.size() + used)),
                        Err(e) => Err(e),
                    }
                },
            },
            Take::Nothing => Ok((ValueView::Absent, 0)),
        }
    }
}

/// What the steps from `i` on make of `input`, given the values decoded before
/// them: all the values and the number of bytes taken from `input`, or the
/// first error.
pub open spec fn parse_from(
    steps: Seq<DecodeStep>,
    i: int,
    earlier: Seq<ValueView>,
    input: Seq<u8>,
) -> Result<(Seq<ValueView>, nat), DecodeError>
    decreases steps.len() - i,
{
    if i < 0 || i >= steps.len() {
        Ok((earlier, 0))
    } else {
        match parse_step(steps[i], i, earlier, input) {
            Ok((v, used)) => match parse_from(steps, i + 1, earlier.push(v), input.skip(used as int)) {
                Ok((values, more)) => Ok((values, used + more)),
                Err(e) => Err(e),
            },
            Err(e) => Err(e),
        }
    }
}

/// What the program makes of `input`.
pub open spec fn parse(steps: Seq<DecodeStep>, input: Seq<u8>) -> Result<
    (Seq<ValueView>, nat),
    DecodeError,
> {
    parse_from(steps, 0, Seq::empty(), input)
}

/// What the program makes of `input`, padding included: the values of the
/// fields and the number of bytes taken, or the first error. The padding is
/// taken whatever it holds.
pub open spec fn decoding(steps: Seq<DecodeStep>, align: nat, input: Seq<u8>) -> Result<
    (Seq<ValueView>, nat),
    DecodeError,
> {
    match parse(steps, input) {
        Ok((values, used)) => if input.len() < used + pad_len(used, align) {
            Err(DecodeError::Truncated { field: steps.len() as usize })
        } else {
            Ok((values, used + pad_len(used, align)))
        },
        Err(e) => Err(e),
    }
}

/// A step that succeeds takes no more than the input holds.
pub proof fn parse_step_takes(step: DecodeStep, i: int, earlier: Seq<ValueView>, input: Seq<u8>)
    ensures
        match parse_step(step, i, earlier, input) {
            Ok((v, used)) => used <= input.len(),
            Err(e) => true,
        },
{
    if !guarded(step, earlier) {
        match step.take {
            Take::Array { width, order, count } => {
                parse_ints_needs(input, width, order, count as nat);
            },
            Take::Record { members } => {
                parse_members_takes(member_views(members@), 0, input);
            },
            Take::Choice { width, order, source, variants } => {
                let tag = match source {
                    Some(j) => int_at(earlier, j as int),
                    None => leading_int(input, width, order),
                };
                let rest = match source {
                    Some(j) => input,
                    None => input.skip(width.size() as int),
                };
                variant_with_tag_spec(variants@, tag, 0);
                if variant_with_tag(variants@, tag, 0).is_some() && (source.is_some() || input.len()
                    >= width.size()) {
                    let k = variant_with_tag(variants@, tag, 0).unwrap();
                    parse_members_takes(variants@[k]@.members, 0, rest);
                }
            },
            _ => {},
        }
    }
}

/// Whether `step` is the decode step of the resolved field `f`.
pub open spec fn decodes_field(f: ResolvedField, step: DecodeStep) -> bool {
    &&& guard_view(step.skip_if) == guard_view(f.skip_if)
    &&& match f.shape {
        Shape::Int { width, order, .. } => step.take == (Take::Int { width, order }),
        Shape::Blob => step.take == (Take::Blob {
            size: match f.size {
                SizeStrategy::FixedCompound(n) => BlobSize::Exact(n),
                SizeStrategy::LengthFrom(j) => BlobSize::Counted(j),
                _ => BlobSize::Rest,
            },
        }),
        Shape::Array { width, order, count } => step.take == (Take::Array { width, order, count }),
        Shape::Record { members } => match step.take {
            Take::Record { members: copied } => member_views(copied@) == member_views(members@),
            _ => false,
        },
        Shape::Choice { width, order, source, variants } => match step.take {
            Take::Choice { width: w, order: o, source: s, variants: copied } => {
                &&& w == width
                &&& o == order
                &&& s == source
                &&& variant_views(copied@) == variant_views(variants@)
            },
            _ => false,
        },
        Shape::Nothing => step.take == Take::Nothing,
    }
}

impl DecodeProgram {
    /// Every position that a step names is the position of an earlier step.
    pub open spec fn steps_wf(&self) -> bool {
        forall|i: int|
            0 <= i < self.steps@.len() ==> {
                &&& guard_below((#[trigger] self.steps@[i]).skip_if, i)
                &&& match self.steps@[i].take {
                    Take::Blob { size: BlobSize::Counted(j) } => j < i,
                    Take::Choice { source: Some(j), .. } => j < i,
                    _ => true,
                }
            }
    }

    /// The invariant of a decode program.
    pub open spec fn wf(&self) -> bool {
        &&& self.steps_wf()
        &&& self.align >= 1
    }

    /// Whether this is the decode program of `plan`: step `i` reads field `i`.
    pub open spec fn lowers(&self, plan: LayoutPlan) -> bool {
        &&& self.align == plan.align
        &&& self.steps@.len() == plan.fields@.len()
        &&& forall|i: int|
            0 <= i < plan.fields@.len() ==> decodes_field(plan.fields@[i], #[trigger] self.steps@[i])
    }
}

fn decode_step(f: &ResolvedField) -> (step: DecodeStep)
    ensures
        decodes_field(*f, step),
{
    let take = match &f.shape {
        Shape::Int { width, order, role: _ } => Take::Int { width: *width, order: *order },
        Shape::Blob => Take::Blob {
            size: match f.size {
                SizeStrategy::FixedCompound(n) => BlobSize::Exact(n),
                SizeStrategy::LengthFrom(j) => BlobSize::Counted(j),
                _ => BlobSize::Rest,
            },
        },
        Shape::Array { width, order, count } => Take::Array {
            width: *width,
            order: *order,
            count: *count,
        },
        Shape::Record { members } => Take::Record { members: copy_members(members) },
        Shape::Choice { width, order, source, variants } => Take::Choice {
            width: *width,
            order: *order,
            source: *source,
            variants: copy_variants(variants),
        },
        Shape::Nothing => Take::Nothing,
    };
    DecodeStep { skip_if: copy_guard(&f.skip_if), take }
}

/// Synthesizes the decode program of a plan: one step per field, in
/// declaration order.
pub fn synthesize_decode(plan: &LayoutPlan) -> (program: DecodeProgram)
    requires
        plan.wf(),
    ensures
        program.lowers(*plan),
        program.wf(),
{
    let n: usize = plan.fields.len();
    let mut steps: Vec<DecodeStep> = Vec::new();
    let mut i: usize = 0;
    while i < n
        invariant
            n == plan.fields@.len(),
            i <= n,
            steps@.len() == i,
            forall|j: int| 0 <= j < i ==> decodes_field(plan.fields@[j], #[trigger] steps@[j]),
        decreases n - i,
    {
        steps.push(decode_step(&plan.fields[i]));
        i = i + 1;
    }
    let program = DecodeProgram { steps, align: plan.align };
    proof {
        assert forall|j: int| 0 <= j < n implies {
            &&& guard_below((#[trigger] program.steps@[j]).skip_if, j)
            &&& match program.steps@[j].take {
                Take::Blob { size: BlobSize::Counted(t) } => t < j,
                Take::Choice { source: Some(t), .. } => t < j,
                _ => true,
            }
        } by {
            assert(plan.field_wf(j));
            assert(decodes_field(plan.fields@[j], program.steps@[j]));
        }
    }
    program
}

fn int_decoded(earlier: &Vec<Value>, j: usize) -> (v: u64)
    requires
        j < earlier@.len(),
    ensures
        v == int_at(value_views(earlier@), j as int),
{
    match &earlier[j] {
        Value::Int(v) => *v,
        _ => 0,
    }
}

fn guard_holds(guard: &Option<Guard>, earlier: &Vec<Value>) -> (r: bool)
    requires
        guard_below(*guard, earlier@.len() as int),
    ensures
        r == guard_seen(*guard, value_views(earlier@)),
{
    match guard {
        Some(g) => {
            let n: usize = g.terms.len();
            let all: bool = match g.connective {
                Connective::All => true,
                Connective::Any => false,
            };
            let ghost views = value_views(earlier@);
            let mut k: usize = 0;
            while k < n
                invariant
                    n == g.terms@.len(),
                    k <= n,
                    views == value_views(earlier@),
                    *guard == Some(*g),
                    guard_below(Some(*g), earlier@.len() as int),
                    all == (g.connective == Connective::All),
                    forall|j: int| 0 <= j < k ==> term_seen(views, #[trigger] g.terms@[j]) == all,
                decreases n - k,
            {
                let t = g.terms[k];
                assert(g.terms@[k as int].index < earlier@.len());
                let seen: bool = t.relation.test(int_decoded(earlier, t.index), t.operand);
                if seen != all {
                    assert(term_seen(views, g.terms@[k as int]) != all);
                    return seen;
                }
                k = k + 1;
            }
            all
        },
        None => false,
    }
}

fn find_variant(vs: &Vec<Variant>, tag: u64) -> (found: Option<usize>)
    ensures
        match found {
            Some(k) => variant_with_tag(vs@, tag, 0) == Some(k as int),
            None => variant_with_tag(vs@, tag, 0).is_none(),
        },
{
    let n: usize = vs.len();
    let mut k: usize = 0;
    while k < n
        invariant
            n == vs@.len(),
            k <= n,
            variant_with_tag(vs@, tag, 0) == variant_with_tag(vs@, tag, k as int),
        decreases n - k,
    {
        if vs[k].tag == tag {
            return Some(k);
        }
        k = k + 1;
    }
    None
}

fn take_blob(source: &mut ByteSource, i: usize, n: u64) -> (r: Result<Value, DecodeError>)
    requires
        old(source).wf(),
    ensures
        final(source).wf(),
        final(source).whole() == old(source).whole(),
        final(source).consumed() >= old(source).consumed(),
        match parse_blob(i as int, old(source)@, n as nat) {
            Ok((v, used)) => r.is_ok() && r.unwrap()@ == v && final(source)@ == old(source)@.skip(
                used as int,
            ),
            Err(e) => r == Err::<Value, DecodeError>(e),
        },
{
    if n > source.remaining() as u64 {
        return Err(DecodeError::Truncated { field: i });
    }
    match source.take(n as usize) {
        Some(bytes) => Ok(Value::Bytes(bytes)),
        None => Err(DecodeError::Truncated { field: i }),
    }
}

fn take_variant(source: &mut ByteSource, i: usize, vs: &Vec<Variant>, tag: u64) -> (r: Result<
    Value,
    DecodeError,
>)
    requires
        old(source).wf(),
    ensures
        final(source).wf(),
        final(source).whole() == old(source).whole(),
        final(source).consumed() >= old(source).consumed(),
        match parse_variant(i as int, vs@, tag, old(source)@) {
            Ok((v, used)) => r.is_ok() && r.unwrap()@ == v && final(source)@ == old(source)@.skip(
                used as int,
            ),
            Err(e) => r == Err::<Value, DecodeError>(e),
        },
{
    proof {
        variant_with_tag_spec(vs@, tag, 0);
    }
    match find_variant(vs, tag) {
        Some(k) => match take_members(source, &vs[k].members) {
            Some(members) => Ok(Value::Variant { index: k, members }),
            None => Err(DecodeError::Truncated { field: i }),
        },
        None => Err(DecodeError::UnknownVariant { field: i, tag }),
    }
}

impl DecodeProgram {
    /// Tests the invariant: what `decode` asks of a program built by hand.
    pub fn is_wf(&self) -> (ok: bool)
        ensures
            ok == self.wf(),
    {
        if self.align < 1 {
            return false;
        }
        let n: usize = self.steps.len();
        let mut i: usize = 0;
        while i < n
            invariant
                n == self.steps@.len(),
                i <= n,
                forall|j: int|
                    0 <= j < i ==> {
                        &&& guard_below((#[trigger] self.steps@[j]).skip_if, j)
                        &&& match self.steps@[j].take {
                            Take::Blob { size: BlobSize::Counted(t) } => t < j,
                            Take::Choice { source: Some(t), .. } => t < j,
                            _ => true,
                        }
                    },
            decreases n - i,
        {
            let guard_ok: bool = guard_is_below(&self.steps[i].skip_if, i);
            let take_ok: bool = match &self.steps[i].take {
                Take::Blob { size: BlobSize::Counted(t) } => *t < i,
                Take::Choice { width: _, order: _, source: Some(t), variants: _ } => *t < i,
                _ => true,
            };
            if !guard_ok || !take_ok {
                assert(!({
                    &&& guard_below(self.steps@[i as int].skip_if, i as int)
                    &&& match self.steps@[i as int].take {
                        Take::Blob { size: BlobSize::Counted(t) } => t < i,
                        Take::Choice { source: Some(t), .. } => t < i,
                        _ => true,
                    }
                }));
                return false;
            }
            i = i + 1;
        }
        true
    }

    fn take_field(&self, i: usize, earlier: &Vec<Value>, source: &mut ByteSource) -> (r: Result<
        Value,
        DecodeError,
    >)
        requires
            self.wf(),
            i < self.steps@.len(),
            earlier@.len() == i,
            old(source).wf(),
        ensures
            final(source).wf(),
            final(source).whole() == old(source).whole(),
            final(source).consumed() >= old(source).consumed(),
            match parse_step(self.steps@[i as int], i as int, value_views(earlier@), old(source)@) {
                Ok((v, used)) => {
                    &&& r.is_ok()
                    &&& r.unwrap()@ == v
                    &&& final(source)@ == old(source)@.skip(used as int)
                },
                Err(e) => r == Err::<Value, DecodeError>(e),
            },
    {
        let step = &self.steps[i];
        assert(source@.skip(0) =~= source@);
        let absent: bool = guard_holds(&step.skip_if, earlier);
        if absent {
            return Ok(Value::Absent);
        }
        match &step.take {
            Take::Int { width, order } => match take_int(source, *width, *order) {
                Some(v) => Ok(Value::Int(v)),
                None => Err(DecodeError::Truncated { field: i }),
            },
            Take::Blob { size } => match size {
                BlobSize::Exact(n) => take_blob(source, i, *n as u64),
                BlobSize::Counted(j) => take_blob(source, i, int_decoded(earlier, *j)),
                BlobSize::Rest => Ok(Value::Bytes(source.take_rest())),
            },
            Take::Array { width, order, count } => {
                proof {
                    parse_ints_needs(source@, *width, *order, *count as nat);
                }
                match take_ints(source, *width, *order, *count) {
                    Some(xs) => Ok(Value::Array(xs)),
                    None => Err(DecodeError::Truncated { field: i }),
                }
            },
            Take::Record { members } => match take_members(source, members) {
                Some(atoms) => Ok(Value::Record(atoms)),
                None => Err(DecodeError::Truncated { field: i }),
            },
            Take::Choice { width, order, source: tag_source, variants } => match tag_source {
                Some(j) => take_variant(source, i, variants, int_decoded(earlier, *j)),
                None => {
                    let ghost before = source@;
                    match take_int(source, *width, *order) {
                        Some(tag) => {
                            proof {
                                let rest = before.skip(width.size() as int);
                                variant_with_tag_spec(variants@, tag, 0);
                                match variant_with_tag(variants@, tag, 0) {
                                    Some(k) => {
                                        parse_members_takes(variants@[k]@.members, 0, rest);
                                        match parse_members(variants@[k]@.members, 0, rest) {
                                            Some((atoms, used)) => {
                                                assert(rest.skip(used as int) =~= before.skip(
                                                    (width.size() + used) as int,
                                                ));
                                            },
                                            None => {},
                                        }
                                    },
                                    None => {},
                                }
                            }
                            take_variant(source, i, variants, tag)
                        },
                        None => Err(DecodeError::Truncated { field: i }),
                    }
                },
            },
            Take::Nothing => Ok(Value::Absent),
        }
    }

    /// Decodes one structure from the front of `source`: one value per field,
    /// in wire order, and then the padding.
    pub fn decode(&self, source: &mut ByteSource) -> (r: Result<Vec<Value>, DecodeError>)
        requires
            self.wf(),
            old(source).wf(),
        ensures
            final(source).wf(),
            final(source).whole() == old(source).whole(),
            match decoding(self.steps@, self.align as nat, old(source)@) {
                Ok((values, used)) => {
                    &&& r.is_ok()
                    &&& value_views(r.unwrap()@) == values
                    &&& final(source)@ == old(source)@.skip(used as int)
                },
                Err(e) => r == Err::<Vec<Value>, DecodeError>(e) && final(source)@ == old(source)@,
            },
    {
        let n: usize = self.steps.len();
        let mark: usize = source.position();
        let available: usize = source.remaining();
        let mut values: Vec<Value> = Vec::new();
        let ghost mut taken: nat = 0;
        let mut i: usize = 0;
        assert(source@.skip(0) =~= source@);
        assert(value_views(values@) =~= Seq::<ValueView>::empty());
        while i < n
            invariant
                n == self.steps@.len(),
                self.wf(),
                i <= n,
                source.wf(),
                source.whole() == old(source).whole(),
                source.consumed() >= old(source).consumed(),
                mark == old(source).consumed(),
                values@.len() == i,
                available == old(source)@.len(),
                taken <= old(source)@.len(),
                source@ == old(source)@.skip(taken as int),
                parse(self.steps@, old(source)@) == match parse_from(
                    self.steps@,
                    i as int,
                    value_views(values@),
                    source@,
                ) {
                    Ok((all, more)) => Ok::<(Seq<ValueView>, nat), DecodeError>((all, taken + more)),
                    Err(e) => Err(e),
                },
            decreases n - i,
        {
            let ghost before = source@;
            let ghost earlier = value_views(values@);
            proof {
                parse_step_takes(self.steps@[i as int], i as int, earlier, before);
            }
            match self.take_field(i, &values, source) {
                Ok(v) => {
                    values.push(v);
                    proof {
                        let used = parse_step(self.steps@[i as int], i as int, earlier, before).unwrap().1;
                        assert(value_views(values@) =~= earlier.push(v@));
                        assert(source@ =~= old(source)@.skip((taken + used) as int));
                        taken = taken + used;
                    }
                },
                Err(e) => {
                    source.rewind(mark);
                    return Err(e);
                },
            }
            i = i + 1;
        }
        let used: usize = available - source.remaining();
        let pad: usize = padding_for(used, self.align);
        match source.take(pad) {
            Some(_) => {
                assert(source@ =~= old(source)@.skip((taken + pad) as int));
                Ok(values)
            },
            None => {
                source.rewind(mark);
                Err(DecodeError::Truncated { field: n })
            },
        }
    }
}

} // verus!
