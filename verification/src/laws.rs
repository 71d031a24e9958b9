//! What holds between a plan's encode program and its decode program.

use crate::decoder::{
    decoding, guarded, int_at, parse, parse_from, parse_step, parse_step_takes, term_seen,
    variant_with_tag, variant_with_tag_spec, BlobSize, DecodeError, DecodeProgram, DecodeStep,
    Take,
};
use crate::encoder::{
    accepts, accepts_at, canonical, canonical_at, carried, encoding, skipped, step_bytes,
    term_met, wire, wire_from, EncodeProgram, EncodeStep,
};
use crate::layout::{
    distinct_tags, member_views, variant_views, LayoutPlan, Shape, SizeStrategy, Variant,
};
use crate::members::{
    ints_bytes_len, ints_round_trip, leading_int, leading_int_inverse, leading_int_round_trip,
    members_bytes, members_round_trip,
};
use crate::derive::{decoder_of, encoder_of};
use crate::layout::resolution_error;
use crate::resolver::{realizes, resolved_plan_wf, resolves};
use crate::schema::{
    annotation_error_from_spec, annotation_fault, Connective, StructureDescriptor,
};
use crate::value::ValueView;
use crate::wire::{int_bytes, pad_len, zeros};
use vstd::prelude::*;

verus! {

/// The setting of the laws: a well-formed plan and the two programs
/// synthesized from it.
pub open spec fn paired(plan: LayoutPlan, enc: EncodeProgram, dec: DecodeProgram) -> bool {
    &&& plan.wf()
    &&& enc.lowers(plan)
    &&& dec.lowers(plan)
}

proof fn variants_agree(a: Seq<Variant>, b: Seq<Variant>, k: int)
    requires
        variant_views(a) == variant_views(b),
        0 <= k < a.len(),
    ensures
        a.len() == b.len(),
        a[k].tag == b[k].tag,
        a[k]@.members == b[k]@.members,
{
    assert(variant_views(a).len() == a.len());
    assert(variant_views(b).len() == b.len());
    assert(variant_views(a)[k] == a[k]@);
    assert(variant_views(b)[k] == b[k]@);
}

/// Among variants with distinct tags, a variant's tag selects that variant.
pub proof fn tag_selects(vs: Seq<Variant>, k: int)
    requires
        distinct_tags(variant_views(vs)),
        0 <= k < vs.len(),
    ensures
        variant_with_tag(vs, vs[k].tag, 0) == Some(k),
{
    variant_with_tag_spec(vs, vs[k].tag, 0);
    let views = variant_views(vs);
    match variant_with_tag(vs, vs[k].tag, 0) {
        Some(j) => {
            if j < k {
                assert(views[j].tag != views[k].tag);
            }
        },
        None => {},
    }
}

/// An integer field that is always on the wire carries an integer, and that
/// integer is what a decoder gives back for it.
proof fn scalar_carries(plan: LayoutPlan, enc: EncodeProgram, values: Seq<ValueView>, j: int)
    requires
        plan.wf(),
        enc.lowers(plan),
        accepts(enc.steps@, values),
        plan.scalar_at(j),
    ensures
        !skipped(enc.steps@, values, j),
        carried(enc.steps@, values, j).is_some(),
        canonical_at(enc.steps@, values, j) == ValueView::Int(
            carried(enc.steps@, values, j).unwrap(),
        ),
{
    let steps = enc.steps@;
    assert(plan.field_wf(j));
    assert(crate::encoder::encodes_field(plan.fields@[j], steps[j]));
    assert(accepts_at(steps, values, j));
}

/// The decoder leaves a field absent exactly when the encoder left it out.
proof fn guard_agrees(
    plan: LayoutPlan,
    enc: EncodeProgram,
    dec: DecodeProgram,
    values: Seq<ValueView>,
    i: int,
)
    requires
        paired(plan, enc, dec),
        accepts(enc.steps@, values),
        0 <= i < plan.fields@.len(),
    ensures
        guarded(dec.steps@[i], canonical(enc.steps@, values).take(i)) == skipped(
            enc.steps@,
            values,
            i,
        ),
{
    let f = plan.fields@[i];
    let es = enc.steps@;
    let earlier = canonical(es, values).take(i);
    assert(plan.field_wf(i));
    assert(crate::encoder::encodes_field(f, es[i]));
    assert(crate::decoder::decodes_field(f, dec.steps@[i]));
    match f.skip_if {
        Some(g) => {
            let written = es[i].skip_if.unwrap();
            let read = dec.steps@[i].skip_if.unwrap();
            assert(written@ == g@);
            assert(read@ == g@);
            assert forall|k: int| 0 <= k < g.terms@.len() implies term_met(es, values, g.terms@[k])
                == term_seen(earlier, g.terms@[k]) by {
                earlier_int(plan, enc, values, i, g.terms@[k].index as int);
            }
            assert(written.terms@ == read.terms@);
            match g.connective {
                Connective::All => {
                    if skipped(es, values, i) {
                        assert forall|k: int| 0 <= k < read.terms@.len() implies term_seen(
                            earlier,
                            #[trigger] read.terms@[k],
                        ) by {
                            assert(term_met(es, values, written.terms@[k]));
                        }
                    } else {
                        let k = choose|k: int|
                            0 <= k < written.terms@.len() && !term_met(
                                es,
                                values,
                                #[trigger] written.terms@[k],
                            );
                        assert(!term_seen(earlier, read.terms@[k]));
                    }
                },
                Connective::Any => {
                    if skipped(es, values, i) {
                        let k = choose|k: int|
                            0 <= k < written.terms@.len() && term_met(
                                es,
                                values,
                                #[trigger] written.terms@[k],
                            );
                        assert(term_seen(earlier, read.terms@[k]));
                    } else {
                        assert forall|k: int| 0 <= k < read.terms@.len() implies !term_seen(
                            earlier,
                            #[trigger] read.terms@[k],
                        ) by {
                            assert(!term_met(es, values, written.terms@[k]));
                        }
                    }
                },
            }
        },
        None => {},
    }
}

/// What the decoder finds at an earlier position that holds an integer which
/// is always on the wire: the integer that the encoder put there.
proof fn earlier_int(
    plan: LayoutPlan,
    enc: EncodeProgram,
    values: Seq<ValueView>,
    i: int,
    j: int,
)
    requires
        plan.wf(),
        enc.lowers(plan),
        accepts(enc.steps@, values),
        0 <= j < i <= plan.fields@.len(),
        plan.scalar_at(j),
    ensures
        carried(enc.steps@, values, j).is_some(),
        int_at(canonical(enc.steps@, values).take(i), j) == carried(enc.steps@, values, j).unwrap(),
{
    scalar_carries(plan, enc, values, j);
    assert(canonical(enc.steps@, values).take(i)[j] == canonical_at(enc.steps@, values, j));
}

/// The variant that an enum value holds is read back from its members' bytes
/// once its tag is known.
proof fn variant_round_trip(
    written: Seq<Variant>,
    read: Seq<Variant>,
    index: int,
    atoms: Seq<crate::value::AtomView>,
    i: int,
    rest: Seq<u8>,
)
    requires
        variant_views(written) == variant_views(read),
        distinct_tags(variant_views(read)),
        0 <= index < written.len(),
        index <= usize::MAX,
        crate::members::members_fit(written[index]@.members, atoms),
    ensures
        crate::decoder::parse_variant(
            i,
            read,
            written[index].tag,
            members_bytes(written[index]@.members, atoms, 0) + rest,
        ) == Ok::<(ValueView, nat), DecodeError>(
            (
                ValueView::Variant { index: index as usize, members: atoms },
                members_bytes(written[index]@.members, atoms, 0).len(),
            ),
        ),
{
    variants_agree(written, read, index);
    tag_selects(read, index);
    members_round_trip(read[index]@.members, atoms, 0, rest);
    assert(atoms.skip(0) =~= atoms);
}

/// One field that is an enum: the decode step reads back what the encode step
/// wrote.
proof fn choice_round_trip(
    plan: LayoutPlan,
    enc: EncodeProgram,
    dec: DecodeProgram,
    values: Seq<ValueView>,
    i: int,
    rest: Seq<u8>,
)
    requires
        paired(plan, enc, dec),
        accepts(enc.steps@, values),
        0 <= i < plan.fields@.len(),
        plan.fields@[i].shape is Choice,
        !skipped(enc.steps@, values, i),
    ensures
        parse_step(
            dec.steps@[i],
            i,
            canonical(enc.steps@, values).take(i),
            step_bytes(enc.steps@, values, i) + rest,
        ) == Ok::<(ValueView, nat), DecodeError>(
            (canonical_at(enc.steps@, values, i), step_bytes(enc.steps@, values, i).len()),
        ),
{
    let es = enc.steps@;
    let ds = dec.steps@;
    let f = plan.fields@[i];
    let bytes = step_bytes(es, values, i);
    assert(plan.field_wf(i));
    assert(crate::encoder::encodes_field(f, es[i]));
    assert(crate::decoder::decodes_field(f, ds[i]));
    assert(accepts_at(es, values, i));
    guard_agrees(plan, enc, dec, values, i);
    let index = values[i]->Variant_index;
    let atoms = values[i]->Variant_members;
    let evs = es[i].emit->Choice_variants;
    let dvs = ds[i].take->Choice_variants;
    let width = f.shape->Choice_width;
    let order = f.shape->Choice_order;
    let tag = evs@[index as int].tag;
    let body = members_bytes(evs@[index as int]@.members, atoms, 0);
    match f.shape->Choice_source {
        Some(j) => {
            assert(plan.field_wf(j as int));
            assert(crate::encoder::encodes_field(plan.fields@[j as int], es[j as int]));
            assert(plan.fields@.len() <= usize::MAX) by {
                assert(plan.fields.len() == plan.fields@.len());
            }
            earlier_int(plan, enc, values, i, j as int);
            assert(carried(es, values, j as int) == Some(tag));
            variant_round_trip(evs@, dvs@, index as int, atoms, i, rest);
            assert(bytes =~= body);
        },
        None => {
            let head = int_bytes(tag as nat, width.size(), order);
            assert(bytes + rest =~= head + (body + rest));
            leading_int_round_trip(tag, width, order, body + rest);
            variant_round_trip(evs@, dvs@, index as int, atoms, i, rest);
        },
    }
}

/// One field that is a blob: the decode step reads back what the encode step
/// wrote.
proof fn blob_round_trip(
    plan: LayoutPlan,
    enc: EncodeProgram,
    dec: DecodeProgram,
    values: Seq<ValueView>,
    i: int,
    rest: Seq<u8>,
)
    requires
        paired(plan, enc, dec),
        accepts(enc.steps@, values),
        0 <= i < plan.fields@.len(),
        plan.fields@[i].shape is Blob,
        !skipped(enc.steps@, values, i),
        plan.fields@[i].size == SizeStrategy::Remainder ==> rest.len() == 0,
    ensures
        parse_step(
            dec.steps@[i],
            i,
            canonical(enc.steps@, values).take(i),
            step_bytes(enc.steps@, values, i) + rest,
        ) == Ok::<(ValueView, nat), DecodeError>(
            (canonical_at(enc.steps@, values, i), step_bytes(enc.steps@, values, i).len()),
        ),
{
    let es = enc.steps@;
    let ds = dec.steps@;
    let f = plan.fields@[i];
    assert(plan.field_wf(i));
    assert(crate::encoder::encodes_field(f, es[i]));
    assert(crate::decoder::decodes_field(f, ds[i]));
    assert(accepts_at(es, values, i));
    guard_agrees(plan, enc, dec, values, i);
    let b = values[i]->Bytes_0;
    let input = b + rest;
    assert(input.take(b.len() as int) =~= b);
    match f.size {
        SizeStrategy::LengthFrom(j) => {
            assert(plan.field_wf(j as int));
            assert(crate::encoder::encodes_field(plan.fields@[j as int], es[j as int]));
            assert(plan.fields@.len() <= usize::MAX) by {
                assert(plan.fields.len() == plan.fields@.len());
            }
            earlier_int(plan, enc, values, i, j as int);
            assert(carried(es, values, j as int) == Some(b.len() as u64));
        },
        SizeStrategy::Remainder => {
            assert(input =~= b);
        },
        _ => {},
    }
}

/// One field: the decode step reads back what the encode step wrote.
proof fn step_round_trip(
    plan: LayoutPlan,
    enc: EncodeProgram,
    dec: DecodeProgram,
    values: Seq<ValueView>,
    i: int,
    rest: Seq<u8>,
)
    requires
        paired(plan, enc, dec),
        accepts(enc.steps@, values),
        0 <= i < plan.fields@.len(),
        plan.fields@[i].size == SizeStrategy::Remainder ==> rest.len() == 0,
    ensures
        parse_step(
            dec.steps@[i],
            i,
            canonical(enc.steps@, values).take(i),
            step_bytes(enc.steps@, values, i) + rest,
        ) == Ok::<(ValueView, nat), DecodeError>(
            (canonical_at(enc.steps@, values, i), step_bytes(enc.steps@, values, i).len()),
        ),
{
    let es = enc.steps@;
    let ds = dec.steps@;
    let f = plan.fields@[i];
    assert(plan.field_wf(i));
    assert(crate::encoder::encodes_field(f, es[i]));
    assert(crate::decoder::decodes_field(f, ds[i]));
    assert(accepts_at(es, values, i));
    guard_agrees(plan, enc, dec, values, i);
    if !skipped(es, values, i) {
        match f.shape {
            Shape::Int { width, order, role } => {
                let v = carried(es, values, i).unwrap();
                leading_int_round_trip(v, width, order, rest);
            },
            Shape::Blob => {
                blob_round_trip(plan, enc, dec, values, i, rest);
            },
            Shape::Array { width, order, count } => {
                let xs = values[i]->Array_0;
                ints_round_trip(xs, width, order, 0, rest);
                ints_bytes_len(xs, width, order, 0);
                assert(xs.skip(0) =~= xs);
            },
            Shape::Record { members } => {
                let atoms = values[i]->Record_0;
                let ms = es[i].emit->Record_members;
                members_round_trip(member_views(ms@), atoms, 0, rest);
                assert(atoms.skip(0) =~= atoms);
            },
            Shape::Choice { width, order, source, variants } => {
                choice_round_trip(plan, enc, dec, values, i, rest);
            },
            Shape::Nothing => {},
        }
    }
}

/// The fields from `i` on: the decode steps read back what the encode steps
/// wrote.
proof fn round_trip_from(
    plan: LayoutPlan,
    enc: EncodeProgram,
    dec: DecodeProgram,
    values: Seq<ValueView>,
    i: int,
    tail: Seq<u8>,
)
    requires
        paired(plan, enc, dec),
        accepts(enc.steps@, values),
        0 <= i <= plan.fields@.len(),
        tail.len() == 0 || !plan.takes_remainder(),
    ensures
        parse_from(
            dec.steps@,
            i,
            canonical(enc.steps@, values).take(i),
            wire_from(enc.steps@, values, i) + tail,
        ) == Ok::<(Seq<ValueView>, nat), DecodeError>(
            (canonical(enc.steps@, values), wire_from(enc.steps@, values, i).len()),
        ),
    decreases plan.fields@.len() - i,
{
    let es = enc.steps@;
    let ds = dec.steps@;
    let canon = canonical(es, values);
    let n = plan.fields@.len();
    if i < n {
        let head = step_bytes(es, values, i);
        let later = wire_from(es, values, i + 1);
        let rest = later + tail;
        assert(wire_from(es, values, i) + tail =~= head + rest);
        if plan.fields@[i].size == SizeStrategy::Remainder {
            assert(plan.field_wf(i));
            assert(plan.takes_remainder());
            assert(later.len() == 0) by {
                reveal_with_fuel(wire_from, 2);
            }
        }
        step_round_trip(plan, enc, dec, values, i, rest);
        assert((head + rest).skip(head.len() as int) =~= rest);
        assert(canon.take(i).push(canonical_at(es, values, i)) =~= canon.take(i + 1));
        round_trip_from(plan, enc, dec, values, i + 1, tail);
    } else {
        assert(canon.take(i) =~= canon);
    }
}

/// Round trip of the fields, padding aside: the decode steps read back from
/// the fields' bytes what the encode steps wrote, whatever follows those
/// bytes, unless the structure ends in a field that takes the remainder.
pub proof fn fields_round_trip(
    plan: LayoutPlan,
    enc: EncodeProgram,
    dec: DecodeProgram,
    values: Seq<ValueView>,
    tail: Seq<u8>,
)
    requires
        paired(plan, enc, dec),
        accepts(enc.steps@, values),
        tail.len() == 0 || !plan.takes_remainder(),
    ensures
        parse(dec.steps@, wire(enc.steps@, values) + tail) == Ok::<
            (Seq<ValueView>, nat),
            DecodeError,
        >((canonical(enc.steps@, values), wire(enc.steps@, values).len())),
{
    round_trip_from(plan, enc, dec, values, 0, tail);
    assert(canonical(enc.steps@, values).take(0) =~= Seq::<ValueView>::empty());
}

/// The bytes of an encoding are the fields' bytes and then the padding.
proof fn encoding_unfolds(enc: EncodeProgram, values: Seq<ValueView>)
    ensures
        encoding(enc.steps@, enc.align as nat, values) == wire(enc.steps@, values) + zeros(
            pad_len(wire(enc.steps@, values).len(), enc.align as nat),
        ),
        encoding(enc.steps@, enc.align as nat, values).len() == wire(enc.steps@, values).len()
            + pad_len(wire(enc.steps@, values).len(), enc.align as nat),
{
}

/// Round trip. Decoding the encoding of acceptable values succeeds, takes
/// exactly the encoding, padding included, and gives the values back in
/// canonical form: length and tag fields hold what was written for them, and
/// fields that were left out are absent. Bytes that follow the encoding are
/// left alone, unless the structure ends in a field that takes the remainder.
pub proof fn round_trip(
    plan: LayoutPlan,
    enc: EncodeProgram,
    dec: DecodeProgram,
    values: Seq<ValueView>,
    tail: Seq<u8>,
)
    requires
        paired(plan, enc, dec),
        accepts(enc.steps@, values),
        tail.len() == 0 || !plan.takes_remainder(),
    ensures
        decoding(
            dec.steps@,
            dec.align as nat,
            encoding(enc.steps@, enc.align as nat, values) + tail,
        ) == Ok::<(Seq<ValueView>, nat), DecodeError>(
            (
                canonical(enc.steps@, values),
                encoding(enc.steps@, enc.align as nat, values).len(),
            ),
        ),
{
    let w = wire(enc.steps@, values);
    let pad = zeros(pad_len(w.len(), enc.align as nat));
    encoding_unfolds(enc, values);
    assert(encoding(enc.steps@, enc.align as nat, values) + tail =~= w + (pad + tail));
    fields_round_trip(plan, enc, dec, values, pad + tail);
}

/// Round trip for values that are canonical already: decoding the encoding
/// gives back the very same values.
pub proof fn round_trip_exact(
    plan: LayoutPlan,
    enc: EncodeProgram,
    dec: DecodeProgram,
    values: Seq<ValueView>,
    tail: Seq<u8>,
)
    requires
        paired(plan, enc, dec),
        accepts(enc.steps@, values),
        canonical(enc.steps@, values) == values,
        tail.len() == 0 || !plan.takes_remainder(),
    ensures
        decoding(
            dec.steps@,
            dec.align as nat,
            encoding(enc.steps@, enc.align as nat, values) + tail,
        ) == Ok::<(Seq<ValueView>, nat), DecodeError>(
            (values, encoding(enc.steps@, enc.align as nat, values).len()),
        ),
{
    round_trip(plan, enc, dec, values, tail);
}

/// The integer that a step puts on the wire is the same for values and for
/// their canonical form.
proof fn carried_is_stable(plan: LayoutPlan, enc: EncodeProgram, values: Seq<ValueView>, j: int)
    requires
        plan.wf(),
        enc.lowers(plan),
        accepts(enc.steps@, values),
        0 <= j < plan.fields@.len(),
        !skipped(enc.steps@, values, j),
    ensures
        carried(enc.steps@, canonical(enc.steps@, values), j) == carried(enc.steps@, values, j),
{
    let es = enc.steps@;
    let c = canonical(es, values);
    assert(plan.fields@.len() <= usize::MAX) by {
        assert(plan.fields.len() == plan.fields@.len());
    }
    assert(plan.field_wf(j));
    assert(crate::encoder::encodes_field(plan.fields@[j], es[j]));
    assert(c[j] == canonical_at(es, values, j));
    match plan.fields@[j].shape {
        Shape::Int { width, order, role } => {
            match role {
                crate::layout::Role::LengthOf(t) => {
                    assert(plan.field_wf(t as int));
                    assert(crate::encoder::encodes_field(plan.fields@[t as int], es[t as int]));
                    assert(c[t as int] == canonical_at(es, values, t as int));
                },
                crate::layout::Role::TagOf(t) => {
                    assert(plan.field_wf(t as int));
                    assert(crate::encoder::encodes_field(plan.fields@[t as int], es[t as int]));
                    assert(c[t as int] == canonical_at(es, values, t as int));
                },
                crate::layout::Role::Plain => {},
            }
        },
        _ => {},
    }
}

/// A field is left out for values exactly when it is left out for their
/// canonical form.
proof fn skipped_is_stable(plan: LayoutPlan, enc: EncodeProgram, values: Seq<ValueView>, i: int)
    requires
        plan.wf(),
        enc.lowers(plan),
        accepts(enc.steps@, values),
        0 <= i < plan.fields@.len(),
    ensures
        skipped(enc.steps@, canonical(enc.steps@, values), i) == skipped(enc.steps@, values, i),
{
    let es = enc.steps@;
    let c = canonical(es, values);
    assert(plan.field_wf(i));
    assert(crate::encoder::encodes_field(plan.fields@[i], es[i]));
    match es[i].skip_if {
        Some(g) => {
            let declared = plan.fields@[i].skip_if.unwrap();
            assert(g@ == declared@);
            assert forall|k: int| 0 <= k < g.terms@.len() implies term_met(es, c, g.terms@[k])
                == term_met(es, values, g.terms@[k]) by {
                let j = g.terms@[k].index as int;
                assert(declared.terms@[k] == g.terms@[k]);
                scalar_carries(plan, enc, values, j);
                carried_is_stable(plan, enc, values, j);
            }
            match g.connective {
                Connective::All => {
                    if skipped(es, values, i) {
                        assert forall|k: int| 0 <= k < g.terms@.len() implies term_met(
                            es,
                            c,
                            #[trigger] g.terms@[k],
                        ) by {
                            assert(term_met(es, values, g.terms@[k]));
                        }
                    } else {
                        let k = choose|k: int|
                            0 <= k < g.terms@.len() && !term_met(es, values, #[trigger] g.terms@[k]);
                        assert(!term_met(es, c, g.terms@[k]));
                    }
                },
                Connective::Any => {
                    if skipped(es, values, i) {
                        let k = choose|k: int|
                            0 <= k < g.terms@.len() && term_met(es, values, #[trigger] g.terms@[k]);
                        assert(term_met(es, c, g.terms@[k]));
                    } else {
                        assert forall|k: int| 0 <= k < g.terms@.len() implies !term_met(
                            es,
                            c,
                            #[trigger] g.terms@[k],
                        ) by {
                            assert(!term_met(es, values, g.terms@[k]));
                        }
                    }
                },
            }
        },
        None => {},
    }
}

/// One field of the canonical form: it is acceptable, has the same bytes and
/// is canonical already.
proof fn canonical_field_is_stable(
    plan: LayoutPlan,
    enc: EncodeProgram,
    values: Seq<ValueView>,
    i: int,
)
    requires
        plan.wf(),
        enc.lowers(plan),
        accepts(enc.steps@, values),
        0 <= i < plan.fields@.len(),
    ensures
        accepts_at(enc.steps@, canonical(enc.steps@, values), i),
        step_bytes(enc.steps@, canonical(enc.steps@, values), i) == step_bytes(
            enc.steps@,
            values,
            i,
        ),
        canonical_at(enc.steps@, canonical(enc.steps@, values), i) == canonical_at(
            enc.steps@,
            values,
            i,
        ),
{
    let es = enc.steps@;
    let c = canonical(es, values);
    skipped_is_stable(plan, enc, values, i);
    assert(accepts_at(es, values, i));
    assert(c[i] == canonical_at(es, values, i));
    if !skipped(es, values, i) {
        carried_is_stable(plan, enc, values, i);
    }
}

proof fn canonical_wire_from(plan: LayoutPlan, enc: EncodeProgram, values: Seq<ValueView>, i: int)
    requires
        plan.wf(),
        enc.lowers(plan),
        accepts(enc.steps@, values),
        0 <= i <= plan.fields@.len(),
    ensures
        wire_from(enc.steps@, canonical(enc.steps@, values), i) == wire_from(
            enc.steps@,
            values,
            i,
        ),
    decreases plan.fields@.len() - i,
{
    if i < plan.fields@.len() {
        canonical_field_is_stable(plan, enc, values, i);
        canonical_wire_from(plan, enc, values, i + 1);
    }
}

/// Canonical values. The canonical form of acceptable values is acceptable,
/// has the same encoding and is its own canonical form: what a decoder gives
/// back can be encoded again, to the same bytes, and then comes back
/// unchanged.
pub proof fn canonical_is_stable(plan: LayoutPlan, enc: EncodeProgram, values: Seq<ValueView>)
    requires
        plan.wf(),
        enc.lowers(plan),
        accepts(enc.steps@, values),
    ensures
        accepts(enc.steps@, canonical(enc.steps@, values)),
        encoding(enc.steps@, enc.align as nat, canonical(enc.steps@, values)) == encoding(
            enc.steps@,
            enc.align as nat,
            values,
        ),
        canonical(enc.steps@, canonical(enc.steps@, values)) == canonical(enc.steps@, values),
{
    let es = enc.steps@;
    let c = canonical(es, values);
    assert forall|i: int| 0 <= i < es.len() implies accepts_at(es, c, i) && canonical_at(es, c, i)
        == c[i] by {
        canonical_field_is_stable(plan, enc, values, i);
    }
    canonical_wire_from(plan, enc, values, 0);
    assert(canonical(es, c) =~= c);
}

/// Encodings tell values apart: two structure values with the same encoding
/// have the same canonical form.
pub proof fn encoding_is_injective(
    plan: LayoutPlan,
    enc: EncodeProgram,
    dec: DecodeProgram,
    one: Seq<ValueView>,
    other: Seq<ValueView>,
)
    requires
        paired(plan, enc, dec),
        accepts(enc.steps@, one),
        accepts(enc.steps@, other),
        encoding(enc.steps@, enc.align as nat, one) == encoding(enc.steps@, enc.align as nat, other),
    ensures
        canonical(enc.steps@, one) == canonical(enc.steps@, other),
{
    round_trip(plan, enc, dec, one, Seq::empty());
    round_trip(plan, enc, dec, other, Seq::empty());
}

/// Length fidelity. For a blob whose length stands in field `i`: the encoder
/// writes the blob's byte count into field `i`, and the decoder gives back that
/// count for field `i` and a blob of exactly that many bytes, the same bytes.
pub proof fn length_fidelity(
    plan: LayoutPlan,
    enc: EncodeProgram,
    dec: DecodeProgram,
    values: Seq<ValueView>,
    j: int,
    i: int,
)
    requires
        paired(plan, enc, dec),
        accepts(enc.steps@, values),
        0 <= j < plan.fields@.len(),
        0 <= i <= usize::MAX,
        plan.fields@[j].size == SizeStrategy::LengthFrom(i as usize),
    ensures
        0 <= i < j,
        values[j] is Bytes,
        enc.steps@[i].emit is LengthOf,
        step_bytes(enc.steps@, values, i) == int_bytes(
            values[j]->Bytes_0.len(),
            enc.steps@[i].emit->LengthOf_width.size(),
            enc.steps@[i].emit->LengthOf_order,
        ),
        decoding(dec.steps@, dec.align as nat, encoding(enc.steps@, enc.align as nat, values)).is_ok(),
        decoding(
            dec.steps@,
            dec.align as nat,
            encoding(enc.steps@, enc.align as nat, values),
        ).unwrap().0[j] == values[j],
        decoding(
            dec.steps@,
            dec.align as nat,
            encoding(enc.steps@, enc.align as nat, values),
        ).unwrap().0[i] == ValueView::Int(values[j]->Bytes_0.len() as u64),
        values[j]->Bytes_0.len() as u64 == values[j]->Bytes_0.len(),
{
    let es = enc.steps@;
    let whole = encoding(es, enc.align as nat, values);
    round_trip(plan, enc, dec, values, Seq::empty());
    assert(whole + Seq::<u8>::empty() =~= whole);
    assert(plan.fields@.len() <= usize::MAX) by {
        assert(plan.fields.len() == plan.fields@.len());
    }
    assert(plan.field_wf(j));
    assert(plan.field_wf(i));
    assert(crate::encoder::encodes_field(plan.fields@[j], es[j]));
    assert(crate::encoder::encodes_field(plan.fields@[i], es[i]));
    assert(accepts_at(es, values, j));
    assert(accepts_at(es, values, i));
    scalar_carries(plan, enc, values, i);
}

/// Discriminant, on encode: the tag that goes on the wire for an enum value is
/// the declared tag of the variant it holds. It stands in front of the
/// variant's members, or in the tag field where the enum names one.
pub proof fn variant_tag_is_written(
    plan: LayoutPlan,
    enc: EncodeProgram,
    values: Seq<ValueView>,
    i: int,
)
    requires
        plan.wf(),
        enc.lowers(plan),
        accepts(enc.steps@, values),
        0 <= i < plan.fields@.len(),
        plan.fields@[i].shape is Choice,
        !skipped(enc.steps@, values, i),
    ensures
        values[i] is Variant,
        values[i]->Variant_index < plan.fields@[i].shape->Choice_variants@.len(),
        ({
            let width = plan.fields@[i].shape->Choice_width;
            let order = plan.fields@[i].shape->Choice_order;
            let declared = plan.fields@[i].shape->Choice_variants@[values[i]->Variant_index as int];
            match plan.fields@[i].shape->Choice_source {
                Some(j) => j < i && plan.fields@[j as int].shape is Int && step_bytes(
                    enc.steps@,
                    values,
                    j as int,
                ) == int_bytes(
                    declared.tag as nat,
                    width.size(),
                    plan.fields@[j as int].shape->Int_order,
                ),
                None => step_bytes(enc.steps@, values, i).len() >= width.size() && step_bytes(
                    enc.steps@,
                    values,
                    i,
                ).take(width.size() as int) == int_bytes(declared.tag as nat, width.size(), order),
            }
        }),
{
    let es = enc.steps@;
    assert(plan.fields@.len() <= usize::MAX) by {
        assert(plan.fields.len() == plan.fields@.len());
    }
    assert(plan.field_wf(i));
    assert(crate::encoder::encodes_field(plan.fields@[i], es[i]));
    assert(accepts_at(es, values, i));
    let index = values[i]->Variant_index;
    let evs = es[i].emit->Choice_variants;
    let variants = plan.fields@[i].shape->Choice_variants;
    let width = plan.fields@[i].shape->Choice_width;
    let order = plan.fields@[i].shape->Choice_order;
    variants_agree(evs@, variants@, index as int);
    let tag = int_bytes(variants@[index as int].tag as nat, width.size(), order);
    crate::wire::int_bytes_len(variants@[index as int].tag as nat, width.size(), order);
    match plan.fields@[i].shape->Choice_source {
        Some(j) => {
            assert(plan.field_wf(j as int));
            assert(crate::encoder::encodes_field(plan.fields@[j as int], es[j as int]));
            scalar_carries(plan, enc, values, j as int);
        },
        None => {
            let body = members_bytes(evs@[index as int]@.members, values[i]->Variant_members, 0);
            assert((tag + body).take(width.size() as int) =~= tag);
        },
    }
}

/// Discriminant, on decode: a tag that no variant declares is refused as an
/// unknown variant, whatever follows it.
pub proof fn undeclared_tag_is_refused(
    steps: Seq<DecodeStep>,
    i: int,
    earlier: Seq<ValueView>,
    input: Seq<u8>,
    tag: u64,
)
    requires
        0 <= i < steps.len(),
        steps[i].take is Choice,
        !guarded(steps[i], earlier),
        match steps[i].take->Choice_source {
            Some(j) => tag == int_at(earlier, j as int),
            None => input.len() >= steps[i].take->Choice_width.size() && tag
                == crate::members::leading_int(
                input,
                steps[i].take->Choice_width,
                steps[i].take->Choice_order,
            ),
        },
        forall|k: int|
            0 <= k < steps[i].take->Choice_variants@.len() ==> (
            #[trigger] steps[i].take->Choice_variants@[k]).tag != tag,
    ensures
        parse_from(steps, i, earlier, input) == Err::<(Seq<ValueView>, nat), DecodeError>(
            DecodeError::UnknownVariant { field: i as usize, tag },
        ),
{
    variant_with_tag_spec(steps[i].take->Choice_variants@, tag, 0);
}

/// Terminal field: a field that takes the remainder takes every byte that is
/// left, however many there are, and never fails.
pub proof fn remainder_takes_all(
    steps: Seq<DecodeStep>,
    i: int,
    earlier: Seq<ValueView>,
    input: Seq<u8>,
)
    requires
        0 <= i < steps.len(),
        steps[i].take == (Take::Blob { size: BlobSize::Rest }),
        !guarded(steps[i], earlier),
    ensures
        parse_step(steps[i], i, earlier, input) == Ok::<(ValueView, nat), DecodeError>(
            (ValueView::Bytes(input), input.len()),
        ),
{
}

/// One field: a decode step that gets only a strict prefix of what the encode
/// step wrote reports truncation.
proof fn step_truncated(
    plan: LayoutPlan,
    enc: EncodeProgram,
    dec: DecodeProgram,
    values: Seq<ValueView>,
    i: int,
    k: int,
)
    requires
        paired(plan, enc, dec),
        accepts(enc.steps@, values),
        0 <= i < plan.fields@.len(),
        plan.fields@[i].size != SizeStrategy::Remainder,
        0 <= k < step_bytes(enc.steps@, values, i).len(),
    ensures
        parse_step(
            dec.steps@[i],
            i,
            canonical(enc.steps@, values).take(i),
            step_bytes(enc.steps@, values, i).take(k),
        ) == Err::<(ValueView, nat), DecodeError>(DecodeError::Truncated { field: i as usize }),
{
    let es = enc.steps@;
    let ds = dec.steps@;
    let f = plan.fields@[i];
    let earlier = canonical(es, values).take(i);
    let bytes = step_bytes(es, values, i);
    let input = bytes.take(k);
    assert(plan.field_wf(i));
    assert(crate::encoder::encodes_field(f, es[i]));
    assert(crate::decoder::decodes_field(f, ds[i]));
    assert(accepts_at(es, values, i));
    guard_agrees(plan, enc, dec, values, i);
    assert(plan.fields@.len() <= usize::MAX) by {
        assert(plan.fields.len() == plan.fields@.len());
    }
    match f.shape {
        Shape::Int { width, order, role } => {
            let v = carried(es, values, i).unwrap();
            crate::wire::int_bytes_len(v as nat, width.size(), order);
        },
        Shape::Blob => {
            match f.size {
                SizeStrategy::LengthFrom(j) => {
                    scalar_carries(plan, enc, values, j as int);
                    assert(plan.field_wf(j as int));
                    assert(crate::encoder::encodes_field(plan.fields@[j as int], es[j as int]));
                    assert(earlier[j as int] == canonical_at(es, values, j as int));
                },
                _ => {},
            }
        },
        Shape::Array { width, order, count } => {
            let xs = values[i]->Array_0;
            ints_bytes_len(xs, width, order, 0);
            crate::members::parse_ints_needs(input, width, order, count as nat);
        },
        Shape::Record { members } => {
            let atoms = values[i]->Record_0;
            let ms = es[i].emit->Record_members;
            crate::members::members_bytes_len(member_views(ms@), atoms, 0);
            crate::members::parse_members_needs(member_views(ms@), 0, input);
        },
        Shape::Choice { width, order, source, variants } => {
            let index = values[i]->Variant_index;
            let atoms = values[i]->Variant_members;
            let evs = es[i].emit->Choice_variants;
            let dvs = ds[i].take->Choice_variants;
            variants_agree(evs@, variants@, index as int);
            variants_agree(variants@, dvs@, index as int);
            assert(distinct_tags(variant_views(dvs@)));
            tag_selects(dvs@, index as int);
            let tag = evs@[index as int].tag;
            let ms = dvs@[index as int]@.members;
            let body = members_bytes(ms, atoms, 0);
            crate::members::members_bytes_len(ms, atoms, 0);
            match source {
                Some(j) => {
                    scalar_carries(plan, enc, values, j as int);
                    assert(plan.field_wf(j as int));
                    assert(crate::encoder::encodes_field(plan.fields@[j as int], es[j as int]));
                    assert(earlier[j as int] == canonical_at(es, values, j as int));
                    assert(bytes =~= body);
                    crate::members::parse_members_needs(ms, 0, input);
                },
                None => {
                    let head = int_bytes(tag as nat, width.size(), order);
                    crate::wire::int_bytes_len(tag as nat, width.size(), order);
                    if k >= width.size() {
                        let cut = body.take(k - width.size());
                        assert(input =~= head + cut);
                        leading_int_round_trip(tag, width, order, cut);
                        crate::members::parse_members_needs(ms, 0, cut);
                    }
                },
            }
        },
        Shape::Nothing => {},
    }
}

/// The bytes of the fields from `i` on begin with the bytes of field `i`.
proof fn wire_from_unfolds(steps: Seq<EncodeStep>, values: Seq<ValueView>, i: int)
    requires
        0 <= i < steps.len(),
    ensures
        wire_from(steps, values, i) == step_bytes(steps, values, i) + wire_from(steps, values, i + 1),
{
}

/// Bytes of the fields `i..m`.
pub open spec fn wire_between(steps: Seq<EncodeStep>, values: Seq<ValueView>, i: int, m: int) -> Seq<
    u8,
>
    decreases m - i,
{
    if i >= m {
        Seq::empty()
    } else {
        step_bytes(steps, values, i) + wire_between(steps, values, i + 1, m)
    }
}

proof fn truncated_from(
    plan: LayoutPlan,
    enc: EncodeProgram,
    dec: DecodeProgram,
    values: Seq<ValueView>,
    i: int,
    m: int,
    k: int,
)
    requires
        paired(plan, enc, dec),
        accepts(enc.steps@, values),
        0 <= i <= m < plan.fields@.len(),
        plan.fields@[m].size != SizeStrategy::Remainder,
        wire_between(enc.steps@, values, i, m).len() <= k < wire_between(
            enc.steps@,
            values,
            i,
            m + 1,
        ).len(),
    ensures
        parse_from(
            dec.steps@,
            i,
            canonical(enc.steps@, values).take(i),
            wire_from(enc.steps@, values, i).take(k),
        ) == Err::<(Seq<ValueView>, nat), DecodeError>(DecodeError::Truncated { field: m as usize }),
    decreases m - i,
{
    let es = enc.steps@;
    let ds = dec.steps@;
    let canon = canonical(es, values);
    let head = step_bytes(es, values, i);
    let later = wire_from(es, values, i + 1);
    wire_from_unfolds(es, values, i);
    if i == m {
        assert(wire_between(es, values, i, m).len() == 0);
        assert(wire_between(es, values, i, m + 1) =~= head) by {
            reveal_with_fuel(wire_between, 2);
        }
        assert(wire_from(es, values, i).take(k) =~= head.take(k));
        step_truncated(plan, enc, dec, values, i, k);
    } else {
        assert(wire_between(es, values, i, m) == head + wire_between(es, values, i + 1, m));
        assert(wire_between(es, values, i, m + 1) == head + wire_between(es, values, i + 1, m + 1));
        let rest = later.take(k - head.len());
        wire_between_is_prefix(es, values, i + 1, m + 1);
        assert(wire_from(es, values, i).take(k) =~= head + rest);
        assert(plan.field_wf(i));
        step_round_trip(plan, enc, dec, values, i, rest);
        assert((head + rest).skip(head.len() as int) =~= rest);
        assert(canon.take(i).push(canonical_at(es, values, i)) =~= canon.take(i + 1));
        truncated_from(plan, enc, dec, values, i + 1, m, k - head.len());
    }
}

/// The bytes of the fields `i..m` are no more than the bytes of the fields
/// from `i` on.
proof fn wire_between_is_prefix(steps: Seq<EncodeStep>, values: Seq<ValueView>, i: int, m: int)
    requires
        0 <= i <= m <= steps.len(),
    ensures
        wire_between(steps, values, i, m).len() <= wire_from(steps, values, i).len(),
    decreases m - i,
{
    if i < m {
        wire_between_is_prefix(steps, values, i + 1, m);
    }
}

/// Truncation. An input that ends inside the bytes of field `m`, after the
/// whole of the fields before it, is refused as truncated at field `m`. A
/// field that takes the remainder cannot be cut short in this sense.
pub proof fn truncated_input_is_refused(
    plan: LayoutPlan,
    enc: EncodeProgram,
    dec: DecodeProgram,
    values: Seq<ValueView>,
    m: int,
    k: int,
)
    requires
        paired(plan, enc, dec),
        accepts(enc.steps@, values),
        0 <= m < plan.fields@.len(),
        plan.fields@[m].size != SizeStrategy::Remainder,
        wire_between(enc.steps@, values, 0, m).len() <= k < wire_between(
            enc.steps@,
            values,
            0,
            m + 1,
        ).len(),
    ensures
        decoding(
            dec.steps@,
            dec.align as nat,
            encoding(enc.steps@, enc.align as nat, values).take(k),
        ) == Err::<(Seq<ValueView>, nat), DecodeError>(DecodeError::Truncated { field: m as usize }),
{
    let w = wire(enc.steps@, values);
    truncated_from(plan, enc, dec, values, 0, m, k);
    assert(canonical(enc.steps@, values).take(0) =~= Seq::<ValueView>::empty());
    wire_between_is_prefix(enc.steps@, values, 0, m + 1);
    encoding_unfolds(enc, values);
    assert(encoding(enc.steps@, enc.align as nat, values).take(k) =~= w.take(k));
}

/// Truncation, in the padding: an input that holds all the fields and ends
/// inside the padding is refused as truncated after the last field.
pub proof fn truncated_padding_is_refused(
    plan: LayoutPlan,
    enc: EncodeProgram,
    dec: DecodeProgram,
    values: Seq<ValueView>,
    k: int,
)
    requires
        paired(plan, enc, dec),
        accepts(enc.steps@, values),
        wire(enc.steps@, values).len() <= k < encoding(enc.steps@, enc.align as nat, values).len(),
    ensures
        decoding(
            dec.steps@,
            dec.align as nat,
            encoding(enc.steps@, enc.align as nat, values).take(k),
        ) == Err::<(Seq<ValueView>, nat), DecodeError>(
            DecodeError::Truncated { field: plan.fields@.len() as usize },
        ),
{
    let w = wire(enc.steps@, values);
    let pad = zeros(pad_len(w.len(), enc.align as nat));
    let cut = pad.take(k - w.len());
    encoding_unfolds(enc, values);
    assert(encoding(enc.steps@, enc.align as nat, values).take(k) =~= w + cut);
    fields_round_trip(plan, enc, dec, values, cut);
}

/// The field in whose bytes position `k` of the encoding falls.
proof fn field_at_cut(steps: Seq<EncodeStep>, values: Seq<ValueView>, m: int, k: int) -> (found: int)
    requires
        0 <= m <= steps.len(),
        wire_between(steps, values, 0, m).len() <= k < wire(steps, values).len(),
    ensures
        m <= found < steps.len(),
        wire_between(steps, values, 0, found).len() <= k < wire_between(
            steps,
            values,
            0,
            found + 1,
        ).len(),
    decreases steps.len() - m,
{
    wire_between_whole(steps, values, 0);
    if m == steps.len() {
        0
    } else {
        wire_between_grows(steps, values, 0, m);
        if k < wire_between(steps, values, 0, m + 1).len() {
            m
        } else {
            field_at_cut(steps, values, m + 1, k)
        }
    }
}

proof fn wire_between_whole(steps: Seq<EncodeStep>, values: Seq<ValueView>, i: int)
    requires
        0 <= i <= steps.len(),
    ensures
        wire_between(steps, values, i, steps.len() as int) == wire_from(steps, values, i),
    decreases steps.len() - i,
{
    if i < steps.len() {
        wire_between_whole(steps, values, i + 1);
    }
}

proof fn wire_between_grows(steps: Seq<EncodeStep>, values: Seq<ValueView>, i: int, m: int)
    requires
        0 <= i <= m < steps.len(),
    ensures
        wire_between(steps, values, i, m + 1) == wire_between(steps, values, i, m) + step_bytes(
            steps,
            values,
            m,
        ),
    decreases m - i,
{
    if i < m {
        wire_between_grows(steps, values, i + 1, m);
        assert(wire_between(steps, values, i, m + 1) =~= wire_between(steps, values, i, m)
            + step_bytes(steps, values, m));
    } else {
        reveal_with_fuel(wire_between, 2);
        assert(wire_between(steps, values, i, m + 1) =~= wire_between(steps, values, i, m)
            + step_bytes(steps, values, m));
    }
}

/// Truncation, for a structure without a field that takes the remainder:
/// every strict prefix of an encoding is refused as truncated.
pub proof fn cut_encoding_is_refused(
    plan: LayoutPlan,
    enc: EncodeProgram,
    dec: DecodeProgram,
    values: Seq<ValueView>,
    k: int,
)
    requires
        paired(plan, enc, dec),
        accepts(enc.steps@, values),
        !plan.takes_remainder(),
        0 <= k < encoding(enc.steps@, enc.align as nat, values).len(),
    ensures
        decoding(
            dec.steps@,
            dec.align as nat,
            encoding(enc.steps@, enc.align as nat, values).take(k),
        ) is Err,
        decoding(
            dec.steps@,
            dec.align as nat,
            encoding(enc.steps@, enc.align as nat, values).take(k),
        )->Err_0 is Truncated,
{
    if k < wire(enc.steps@, values).len() {
        let m = field_at_cut(enc.steps@, values, 0, k);
        truncated_input_is_refused(plan, enc, dec, values, m, k);
    } else {
        truncated_padding_is_refused(plan, enc, dec, values, k);
    }
}

/// Two plans of one declaration have the same programs.
proof fn plans_agree(
    desc: StructureDescriptor,
    one: LayoutPlan,
    other: LayoutPlan,
    enc: EncodeProgram,
    dec: DecodeProgram,
)
    requires
        realizes(desc, one),
        realizes(desc, other),
    ensures
        enc.lowers(one) ==> enc.lowers(other),
        dec.lowers(one) ==> dec.lowers(other),
{
    if enc.lowers(one) {
        assert forall|i: int| 0 <= i < other.fields@.len() implies crate::encoder::encodes_field(
            other.fields@[i],
            #[trigger] enc.steps@[i],
        ) by {
            assert(resolves(desc, i, one.fields@[i]));
            assert(resolves(desc, i, other.fields@[i]));
            assert(crate::encoder::encodes_field(one.fields@[i], enc.steps@[i]));
        }
    }
    if dec.lowers(one) {
        assert forall|i: int| 0 <= i < other.fields@.len() implies crate::decoder::decodes_field(
            other.fields@[i],
            #[trigger] dec.steps@[i],
        ) by {
            assert(resolves(desc, i, one.fields@[i]));
            assert(resolves(desc, i, other.fields@[i]));
            assert(crate::decoder::decodes_field(one.fields@[i], dec.steps@[i]));
        }
    }
}

/// The programs generated from one declaration belong to one well-formed plan.
pub proof fn derived_programs_pair(
    desc: StructureDescriptor,
    enc: EncodeProgram,
    dec: DecodeProgram,
) -> (plan: LayoutPlan)
    requires
        resolution_error(desc).is_none(),
        encoder_of(desc, enc),
        decoder_of(desc, dec),
    ensures
        realizes(desc, plan),
        paired(plan, enc, dec),
{
    let one = choose|plan: LayoutPlan| #[trigger] realizes(desc, plan) && enc.lowers(plan);
    let other = choose|plan: LayoutPlan| #[trigger] realizes(desc, plan) && dec.lowers(plan);
    plans_agree(desc, other, one, enc, dec);
    resolved_plan_wf(desc, one);
    one
}

/// Round trip, from the declaration: the decode program generated from a
/// declaration reads back what the encode program generated from the same
/// declaration wrote. Bytes that follow the encoding are left alone, unless
/// the structure has a terminal field.
pub proof fn derived_round_trip(
    desc: StructureDescriptor,
    enc: EncodeProgram,
    dec: DecodeProgram,
    values: Seq<ValueView>,
    tail: Seq<u8>,
)
    requires
        resolution_error(desc).is_none(),
        encoder_of(desc, enc),
        decoder_of(desc, dec),
        accepts(enc.steps@, values),
        tail.len() == 0 || forall|i: int| 0 <= i < desc.fields@.len() ==> !desc.fields@[i].terminal,
    ensures
        decoding(
            dec.steps@,
            dec.align as nat,
            encoding(enc.steps@, enc.align as nat, values) + tail,
        ) == Ok::<(Seq<ValueView>, nat), DecodeError>(
            (
                canonical(enc.steps@, values),
                encoding(enc.steps@, enc.align as nat, values).len(),
            ),
        ),
{
    let plan = derived_programs_pair(desc, enc, dec);
    if plan.takes_remainder() {
        let i = choose|i: int|
            0 <= i < plan.fields@.len() && (#[trigger] plan.fields@[i]).size
                == SizeStrategy::Remainder;
        assert(resolves(desc, i, plan.fields@[i]));
        annotation_error_from_spec(desc.fields@, 0);
        assert(annotation_fault(desc.fields@, i).is_none());
        assert(desc.fields@[i].terminal);
    }
    round_trip(plan, enc, dec, values, tail);
}

/// The number of input bytes that the steps before `i` take when they give
/// `values`.
pub open spec fn offset(ds: Seq<DecodeStep>, values: Seq<ValueView>, input: Seq<u8>, i: int) -> nat
    decreases i,
{
    if i <= 0 {
        0
    } else {
        let before = offset(ds, values, input, i - 1);
        match parse_step(ds[i - 1], i - 1, values.take(i - 1), input.skip(before as int)) {
            Ok((v, used)) => before + used,
            Err(e) => before,
        }
    }
}

/// Whether step `j` makes `values[j]` of the input where the steps before it
/// left off, given the values before it.
pub open spec fn replays_at(
    ds: Seq<DecodeStep>,
    values: Seq<ValueView>,
    input: Seq<u8>,
    j: int,
) -> bool {
    &&& offset(ds, values, input, j + 1) <= input.len()
    &&& parse_step(ds[j], j, values.take(j), input.skip(offset(ds, values, input, j) as int))
        == Ok::<(ValueView, nat), DecodeError>(
        (values[j], (offset(ds, values, input, j + 1) - offset(ds, values, input, j)) as nat),
    )
}

/// Whether `values` are what the steps make of `input`, one after the other.
pub open spec fn replays(ds: Seq<DecodeStep>, values: Seq<ValueView>, input: Seq<u8>) -> bool {
    &&& values.len() == ds.len()
    &&& forall|j: int| 0 <= j < ds.len() ==> replays_at(ds, values, input, j)
}

/// The values that the steps from `i` on give begin with the values that they
/// were given.
proof fn parse_from_keeps(ds: Seq<DecodeStep>, i: int, earlier: Seq<ValueView>, rest: Seq<u8>)
    requires
        0 <= i <= ds.len(),
        earlier.len() == i,
        parse_from(ds, i, earlier, rest).is_ok(),
    ensures
        parse_from(ds, i, earlier, rest).unwrap().0.len() == ds.len(),
        parse_from(ds, i, earlier, rest).unwrap().0.take(i) == earlier,
    decreases ds.len() - i,
{
    let values = parse_from(ds, i, earlier, rest).unwrap().0;
    if i < ds.len() {
        let (v, used) = parse_step(ds[i], i, earlier, rest).unwrap();
        parse_from_keeps(ds, i + 1, earlier.push(v), rest.skip(used as int));
        assert(values.take(i) =~= values.take(i + 1).take(i));
        assert(earlier.push(v).take(i) =~= earlier);
    } else {
        assert(values.take(i) =~= earlier);
    }
}

/// What a successful decode amounts to, step by step.
proof fn parse_from_replays(
    ds: Seq<DecodeStep>,
    i: int,
    earlier: Seq<ValueView>,
    input: Seq<u8>,
    at: nat,
)
    requires
        0 <= i <= ds.len(),
        earlier.len() == i,
        at <= input.len(),
        parse_from(ds, i, earlier, input.skip(at as int)).is_ok(),
        offset(ds, parse_from(ds, i, earlier, input.skip(at as int)).unwrap().0, input, i) == at,
    ensures
        forall|j: int|
            i <= j < ds.len() ==> replays_at(
                ds,
                parse_from(ds, i, earlier, input.skip(at as int)).unwrap().0,
                input,
                j,
            ),
        offset(
            ds,
            parse_from(ds, i, earlier, input.skip(at as int)).unwrap().0,
            input,
            ds.len() as int,
        ) == at + parse_from(ds, i, earlier, input.skip(at as int)).unwrap().1,
    decreases ds.len() - i,
{
    let rest = input.skip(at as int);
    let (values, total) = parse_from(ds, i, earlier, rest).unwrap();
    parse_from_keeps(ds, i, earlier, rest);
    if i < ds.len() {
        let (v, used) = parse_step(ds[i], i, earlier, rest).unwrap();
        parse_step_takes(ds[i], i, earlier, rest);
        parse_from_keeps(ds, i + 1, earlier.push(v), rest.skip(used as int));
        assert(rest.skip(used as int) =~= input.skip((at + used) as int));
        assert(values.take(i + 1) == earlier.push(v));
        assert(values[i] == values.take(i + 1)[i]);
        assert(offset(ds, values, input, i + 1) == at + used);
        parse_from_replays(ds, i + 1, earlier.push(v), input, at + used);
        assert(replays_at(ds, values, input, i));
    }
}

/// A successful decode is replayed step by step by the values it gives.
pub proof fn parse_replays(ds: Seq<DecodeStep>, input: Seq<u8>)
    requires
        parse(ds, input).is_ok(),
    ensures
        replays(ds, parse(ds, input).unwrap().0, input),
        offset(ds, parse(ds, input).unwrap().0, input, ds.len() as int) == parse(
            ds,
            input,
        ).unwrap().1,
{
    assert(input.skip(0) =~= input);
    parse_from_keeps(ds, 0, Seq::empty(), input);
    parse_from_replays(ds, 0, Seq::empty(), input, 0);
}

/// A decode that succeeds gives a whole structure, one value for each field,
/// and takes no more than the input holds: no structure is ever given back
/// partly filled.
pub proof fn decoded_structure_is_whole(ds: Seq<DecodeStep>, align: nat, input: Seq<u8>)
    requires
        decoding(ds, align, input).is_ok(),
    ensures
        decoding(ds, align, input).unwrap().0.len() == ds.len(),
        decoding(ds, align, input).unwrap().1 <= input.len(),
{
    parse_replays(ds, input);
}

/// The integer decoded at a position that holds an integer which is always on
/// the wire is the integer that the encoder puts there for the decoded
/// values.
proof fn decoded_scalar(
    plan: LayoutPlan,
    enc: EncodeProgram,
    dec: DecodeProgram,
    values: Seq<ValueView>,
    input: Seq<u8>,
    j: int,
)
    requires
        paired(plan, enc, dec),
        replays(dec.steps@, values, input),
        plan.scalar_at(j),
    ensures
        values[j] is Int,
        carried(enc.steps@, values, j) == Some(int_at(values, j)),
{
    let es = enc.steps@;
    let ds = dec.steps@;
    let f = plan.fields@[j];
    assert(plan.fields@.len() <= usize::MAX) by {
        assert(plan.fields.len() == plan.fields@.len());
    }
    assert(plan.field_wf(j));
    assert(crate::encoder::encodes_field(f, es[j]));
    assert(crate::decoder::decodes_field(f, ds[j]));
    assert(replays_at(ds, values, input, j));
    let width = f.shape->Int_width;
    let order = f.shape->Int_order;
    let here = input.skip(offset(ds, values, input, j) as int);
    leading_int_inverse(here, width, order);
    let v = int_at(values, j);
    match f.shape->Int_role {
        crate::layout::Role::Plain => {},
        crate::layout::Role::LengthOf(t) => {
            let t = t as int;
            assert(plan.field_wf(t));
            assert(crate::decoder::decodes_field(plan.fields@[t], ds[t]));
            assert(replays_at(ds, values, input, t));
            assert(values.take(t)[j] == values[j]);
            let there = input.skip(offset(ds, values, input, t) as int);
            assert(values[t] == ValueView::Bytes(there.take(v as int)));
        },
        crate::layout::Role::TagOf(t) => {
            let t = t as int;
            assert(plan.field_wf(t));
            assert(crate::encoder::encodes_field(plan.fields@[t], es[t]));
            assert(crate::decoder::decodes_field(plan.fields@[t], ds[t]));
            assert(replays_at(ds, values, input, t));
            assert(values.take(t)[j] == values[j]);
            let dvs = ds[t].take->Choice_variants;
            let evs = es[t].emit->Choice_variants;
            let variants = plan.fields@[t].shape->Choice_variants;
            assert(dvs@.len() <= usize::MAX) by {
                assert(dvs.len() == dvs@.len());
            }
            variant_with_tag_spec(dvs@, v, 0);
            let k = variant_with_tag(dvs@, v, 0).unwrap();
            variants_agree(dvs@, variants@, k);
            variants_agree(variants@, evs@, k);
        },
    }
}

/// The encoder leaves a field out for the decoded values exactly when the
/// decoder left it absent.
proof fn decoded_guard_agrees(
    plan: LayoutPlan,
    enc: EncodeProgram,
    dec: DecodeProgram,
    values: Seq<ValueView>,
    input: Seq<u8>,
    i: int,
)
    requires
        paired(plan, enc, dec),
        replays(dec.steps@, values, input),
        0 <= i < plan.fields@.len(),
    ensures
        skipped(enc.steps@, values, i) == guarded(dec.steps@[i], values.take(i)),
{
    let es = enc.steps@;
    let ds = dec.steps@;
    let f = plan.fields@[i];
    let earlier = values.take(i);
    assert(plan.field_wf(i));
    assert(crate::encoder::encodes_field(f, es[i]));
    assert(crate::decoder::decodes_field(f, ds[i]));
    match f.skip_if {
        Some(g) => {
            let written = es[i].skip_if.unwrap();
            let read = ds[i].skip_if.unwrap();
            assert(written@ == g@);
            assert(read@ == g@);
            assert forall|k: int| 0 <= k < g.terms@.len() implies term_met(es, values, g.terms@[k])
                == term_seen(earlier, g.terms@[k]) by {
                let j = g.terms@[k].index as int;
                decoded_scalar(plan, enc, dec, values, input, j);
                assert(earlier[j] == values[j]);
            }
            assert(written.terms@ == read.terms@);
            match g.connective {
                Connective::All => {
                    if skipped(es, values, i) {
                        assert forall|k: int| 0 <= k < read.terms@.len() implies term_seen(
                            earlier,
                            #[trigger] read.terms@[k],
                        ) by {
                            assert(term_met(es, values, written.terms@[k]));
                        }
                    } else {
                        let k = choose|k: int|
                            0 <= k < written.terms@.len() && !term_met(
                                es,
                                values,
                                #[trigger] written.terms@[k],
                            );
                        assert(!term_seen(earlier, read.terms@[k]));
                    }
                },
                Connective::Any => {
                    if skipped(es, values, i) {
                        let k = choose|k: int|
                            0 <= k < written.terms@.len() && term_met(
                                es,
                                values,
                                #[trigger] written.terms@[k],
                            );
                        assert(term_seen(earlier, read.terms@[k]));
                    } else {
                        assert forall|k: int| 0 <= k < read.terms@.len() implies !term_seen(
                            earlier,
                            #[trigger] read.terms@[k],
                        ) by {
                            assert(!term_met(es, values, written.terms@[k]));
                        }
                    }
                },
            }
        },
        None => {},
    }
}

/// What the encode step of field `i` makes of decoded values, in terms of the
/// input that the decode step saw: the value is acceptable and canonical, and
/// its bytes are the bytes that were read.
pub open spec fn encodes_back_at(
    ds: Seq<DecodeStep>,
    es: Seq<EncodeStep>,
    values: Seq<ValueView>,
    input: Seq<u8>,
    i: int,
) -> bool {
    &&& accepts_at(es, values, i)
    &&& canonical_at(es, values, i) == values[i]
    &&& step_bytes(es, values, i) == input.subrange(
        offset(ds, values, input, i) as int,
        offset(ds, values, input, i + 1) as int,
    )
}

/// One decoded field that is an enum encodes back to the bytes it was read
/// from.
proof fn decoded_choice_encodes_back(
    plan: LayoutPlan,
    enc: EncodeProgram,
    dec: DecodeProgram,
    values: Seq<ValueView>,
    input: Seq<u8>,
    i: int,
)
    requires
        paired(plan, enc, dec),
        replays(dec.steps@, values, input),
        0 <= i < plan.fields@.len(),
        plan.fields@[i].shape is Choice,
        !skipped(enc.steps@, values, i),
    ensures
        encodes_back_at(dec.steps@, enc.steps@, values, input, i),
{
    let es = enc.steps@;
    let ds = dec.steps@;
    let f = plan.fields@[i];
    let from = offset(ds, values, input, i);
    let to = offset(ds, values, input, i + 1);
    let here = input.skip(from as int);
    assert(plan.fields@.len() <= usize::MAX) by {
        assert(plan.fields.len() == plan.fields@.len());
    }
    assert(plan.field_wf(i));
    assert(crate::encoder::encodes_field(f, es[i]));
    assert(crate::decoder::decodes_field(f, ds[i]));
    assert(replays_at(ds, values, input, i));
    decoded_guard_agrees(plan, enc, dec, values, input, i);
    assert(input.subrange(from as int, to as int) =~= here.take(to - from));
    let width = f.shape->Choice_width;
    let order = f.shape->Choice_order;
    let evs = es[i].emit->Choice_variants;
    let dvs = ds[i].take->Choice_variants;
    let variants = f.shape->Choice_variants;
    assert(dvs@.len() <= usize::MAX) by {
        assert(dvs.len() == dvs@.len());
    }
    match f.shape->Choice_source {
        Some(j) => {
            let tag = int_at(values.take(i), j as int);
            variant_with_tag_spec(dvs@, tag, 0);
            let k = variant_with_tag(dvs@, tag, 0).unwrap();
            variants_agree(dvs@, variants@, k);
            variants_agree(variants@, evs@, k);
            assert(variant_views(variants@)[k] == variants@[k]@);
            crate::members::members_inverse_whole(dvs@[k]@.members, here);
        },
        None => {
            let tag = leading_int(here, width, order);
            let body = here.skip(width.size() as int);
            leading_int_inverse(here, width, order);
            variant_with_tag_spec(dvs@, tag, 0);
            let k = variant_with_tag(dvs@, tag, 0).unwrap();
            variants_agree(dvs@, variants@, k);
            variants_agree(variants@, evs@, k);
            assert(variant_views(variants@)[k] == variants@[k]@);
            crate::members::members_inverse_whole(dvs@[k]@.members, body);
            crate::members::parse_members_takes(dvs@[k]@.members, 0, body);
            let used = crate::members::parse_members(dvs@[k]@.members, 0, body).unwrap().1;
            assert(here.take(width.size() as int) + body.take(used as int) =~= here.take(
                (width.size() + used) as int,
            ));
        },
    }
}

/// One decoded field that is an integer or a blob encodes back to the bytes
/// it was read from.
proof fn decoded_leaf_encodes_back(
    plan: LayoutPlan,
    enc: EncodeProgram,
    dec: DecodeProgram,
    values: Seq<ValueView>,
    input: Seq<u8>,
    i: int,
)
    requires
        paired(plan, enc, dec),
        replays(dec.steps@, values, input),
        0 <= i < plan.fields@.len(),
        plan.fields@[i].shape is Int || plan.fields@[i].shape is Blob,
        !skipped(enc.steps@, values, i),
    ensures
        encodes_back_at(dec.steps@, enc.steps@, values, input, i),
{
    let es = enc.steps@;
    let ds = dec.steps@;
    let f = plan.fields@[i];
    let from = offset(ds, values, input, i);
    let to = offset(ds, values, input, i + 1);
    let here = input.skip(from as int);
    assert(plan.field_wf(i));
    assert(crate::encoder::encodes_field(f, es[i]));
    assert(crate::decoder::decodes_field(f, ds[i]));
    assert(replays_at(ds, values, input, i));
    decoded_guard_agrees(plan, enc, dec, values, input, i);
    assert(input.subrange(from as int, to as int) =~= here.take(to - from));
    match f.shape {
        Shape::Int { width, order, role } => {
            leading_int_inverse(here, width, order);
            if role != crate::layout::Role::Plain {
                decoded_scalar(plan, enc, dec, values, input, i);
            }
        },
        Shape::Blob => {
            assert(here.take(here.len() as int) =~= here);
        },
        _ => {},
    }
}

/// One decoded field encodes back to the bytes it was read from.
proof fn decoded_step_encodes_back(
    plan: LayoutPlan,
    enc: EncodeProgram,
    dec: DecodeProgram,
    values: Seq<ValueView>,
    input: Seq<u8>,
    i: int,
)
    requires
        paired(plan, enc, dec),
        replays(dec.steps@, values, input),
        0 <= i < plan.fields@.len(),
    ensures
        encodes_back_at(dec.steps@, enc.steps@, values, input, i),
{
    let es = enc.steps@;
    let ds = dec.steps@;
    let f = plan.fields@[i];
    let from = offset(ds, values, input, i);
    let to = offset(ds, values, input, i + 1);
    let here = input.skip(from as int);
    assert(plan.field_wf(i));
    assert(crate::encoder::encodes_field(f, es[i]));
    assert(crate::decoder::decodes_field(f, ds[i]));
    assert(replays_at(ds, values, input, i));
    decoded_guard_agrees(plan, enc, dec, values, input, i);
    assert(input.subrange(from as int, to as int) =~= here.take(to - from));
    assert(here.take(0) =~= Seq::<u8>::empty());
    if !skipped(es, values, i) {
        match f.shape {
            Shape::Int { .. } => {
                decoded_leaf_encodes_back(plan, enc, dec, values, input, i);
            },
            Shape::Blob => {
                decoded_leaf_encodes_back(plan, enc, dec, values, input, i);
            },
            Shape::Array { width, order, count } => {
                crate::members::ints_inverse_whole(here, width, order, count as nat);
            },
            Shape::Record { members } => {
                let ms = ds[i].take->Record_members;
                crate::members::members_inverse_whole(member_views(ms@), here);
            },
            Shape::Choice { .. } => {
                decoded_choice_encodes_back(plan, enc, dec, values, input, i);
            },
            Shape::Nothing => {},
        }
    }
}

/// The decoded fields from `i` on encode back to the bytes they were read
/// from.
proof fn decoded_wire_from(
    plan: LayoutPlan,
    enc: EncodeProgram,
    dec: DecodeProgram,
    values: Seq<ValueView>,
    input: Seq<u8>,
    i: int,
)
    requires
        paired(plan, enc, dec),
        replays(dec.steps@, values, input),
        0 <= i <= plan.fields@.len(),
    ensures
        offset(dec.steps@, values, input, i) <= offset(
            dec.steps@,
            values,
            input,
            plan.fields@.len() as int,
        ) <= input.len(),
        wire_from(enc.steps@, values, i) == input.subrange(
            offset(dec.steps@, values, input, i) as int,
            offset(dec.steps@, values, input, plan.fields@.len() as int) as int,
        ),
    decreases plan.fields@.len() - i,
{
    let ds = dec.steps@;
    let n = plan.fields@.len() as int;
    if i < n {
        decoded_step_encodes_back(plan, enc, dec, values, input, i);
        decoded_wire_from(plan, enc, dec, values, input, i + 1);
        assert(replays_at(ds, values, input, i));
        let a = offset(ds, values, input, i) as int;
        let b = offset(ds, values, input, i + 1) as int;
        let c = offset(ds, values, input, n) as int;
        assert(input.subrange(a, b) + input.subrange(b, c) =~= input.subrange(a, c));
    } else {
        if n > 0 {
            assert(replays_at(ds, values, input, n - 1));
        }
        let c = offset(ds, values, input, n) as int;
        assert(wire_from(enc.steps@, values, i) =~= input.subrange(c, c));
    }
}

/// The other round trip. What the decode program makes of an input, the
/// encode program accepts, and writes as exactly the bytes that the fields
/// were read from; the decoded values are canonical, and their encoding is as
/// long as what was taken from the input, padding included. The padding
/// itself is written as zero bytes, whatever the input held there.
pub proof fn decoded_values_encode_back(
    plan: LayoutPlan,
    enc: EncodeProgram,
    dec: DecodeProgram,
    input: Seq<u8>,
)
    requires
        paired(plan, enc, dec),
        decoding(dec.steps@, dec.align as nat, input).is_ok(),
    ensures
        ({
            let (values, taken) = decoding(dec.steps@, dec.align as nat, input).unwrap();
            let fields = wire(enc.steps@, values);
            &&& accepts(enc.steps@, values)
            &&& canonical(enc.steps@, values) == values
            &&& fields.len() <= taken <= input.len()
            &&& fields == input.take(fields.len() as int)
            &&& encoding(enc.steps@, enc.align as nat, values).len() == taken
        }),
{
    let es = enc.steps@;
    let ds = dec.steps@;
    let (values, used) = parse(ds, input).unwrap();
    parse_replays(ds, input);
    assert forall|i: int| 0 <= i < es.len() implies accepts_at(es, values, i) && canonical_at(
        es,
        values,
        i,
    ) == values[i] by {
        decoded_step_encodes_back(plan, enc, dec, values, input, i);
    }
    decoded_wire_from(plan, enc, dec, values, input, 0);
    assert(canonical(es, values) =~= values);
    assert(input.subrange(0, used as int) =~= input.take(used as int));
    encoding_unfolds(enc, values);
}

} // verus!
