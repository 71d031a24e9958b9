//! Integers, arrays and member lists on the wire: what they encode to, what a
//! run of bytes decodes to, and the routines that do both.

use crate::layout::{member_size, member_views, members_size, record_view, Member, MemberView};
use crate::value::{atom_views, record_atom_view, Atom, AtomView};
use crate::wire::{
    clip, decode_int, encode_int, int_bytes, int_bytes_len, int_bytes_of_value, int_round_trip,
    int_value, limit_is_power, ByteOrder, ByteSink, ByteSource, IntWidth,
};
use vstd::prelude::*;

verus! {

/// The bytes of the integers `xs[k..]`, one after the other.
pub open spec fn ints_bytes(xs: Seq<u64>, width: IntWidth, order: ByteOrder, k: int) -> Seq<u8>
    decreases xs.len() - k,
{
    if k < 0 || k >= xs.len() {
        Seq::empty()
    } else {
        int_bytes(xs[k] as nat, width.size(), order) + ints_bytes(xs, width, order, k + 1)
    }
}

/// Whether every integer of `xs` can be written in `width`.
pub open spec fn ints_fit(xs: Seq<u64>, width: IntWidth) -> bool {
    forall|k: int| 0 <= k < xs.len() ==> width.holds(#[trigger] xs[k])
}

/// Whether `a` is a value that member `m` can hold.
pub open spec fn member_fits(m: MemberView, a: AtomView) -> bool
    decreases m,
{
    match (m, a) {
        (MemberView::Int { width, .. }, AtomView::Int(v)) => width.holds(v),
        (MemberView::Array { width, count, .. }, AtomView::Array(xs)) => xs.len() == count
            && ints_fit(xs, width),
        (MemberView::Record { members }, AtomView::Record(atoms)) => members_fit(members, atoms),
        _ => false,
    }
}

/// Whether `atoms` are values that the members `ms` can hold, one each.
pub open spec fn members_fit(ms: Seq<MemberView>, atoms: Seq<AtomView>) -> bool
    decreases ms,
{
    &&& atoms.len() == ms.len()
    &&& forall|k: int| 0 <= k < ms.len() ==> member_fits(#[trigger] ms[k], atoms[k])
}

/// The bytes of member `m` holding `a`.
pub open spec fn member_bytes(m: MemberView, a: AtomView) -> Seq<u8>
    decreases m,
{
    match (m, a) {
        (MemberView::Int { width, order }, AtomView::Int(v)) => int_bytes(
            v as nat,
            width.size(),
            order,
        ),
        (MemberView::Array { width, order, .. }, AtomView::Array(xs)) => ints_bytes(
            xs,
            width,
            order,
            0,
        ),
        (MemberView::Record { members }, AtomView::Record(atoms)) => members_bytes(
            members,
            atoms,
            0,
        ),
        _ => Seq::empty(),
    }
}

/// The bytes of the members `ms[k..]` holding `atoms[k..]`.
pub open spec fn members_bytes(ms: Seq<MemberView>, atoms: Seq<AtomView>, k: int) -> Seq<u8>
    decreases ms, ms.len() - k,
{
    if k < 0 || k >= ms.len() {
        Seq::empty()
    } else {
        member_bytes(ms[k], atoms[k]) + members_bytes(ms, atoms, k + 1)
    }
}

/// The integer that the first `width` bytes of `input` stand for.
pub open spec fn leading_int(input: Seq<u8>, width: IntWidth, order: ByteOrder) -> u64 {
    int_value(input.take(width.size() as int), order) as u64
}

/// The `count` integers at the front of `input`, where it holds that many.
pub open spec fn parse_ints(input: Seq<u8>, width: IntWidth, order: ByteOrder, count: nat) -> Option<
    Seq<u64>,
>
    decreases count,
{
    if count == 0 {
        Some(Seq::empty())
    } else if input.len() < width.size() {
        None
    } else {
        match parse_ints(input.skip(width.size() as int), width, order, (count - 1) as nat) {
            Some(rest) => Some(seq![leading_int(input, width, order)] + rest),
            None => None,
        }
    }
}

/// The value of member `m` at the front of `input` and the bytes it takes,
/// where `input` holds all of it.
pub open spec fn parse_member(m: MemberView, input: Seq<u8>) -> Option<(AtomView, nat)>
    decreases m,
{
    match m {
        MemberView::Int { width, order } => if input.len() < width.size() {
            None
        } else {
            Some((AtomView::Int(leading_int(input, width, order)), width.size()))
        },
        MemberView::Array { width, order, count } => match parse_ints(
            input,
            width,
            order,
            count as nat,
        ) {
            Some(xs) => Some((AtomView::Array(xs), width.size() * (count as nat))),
            None => None,
        },
        MemberView::Record { members } => match parse_members(members, 0, input) {
            Some((atoms, used)) => Some((AtomView::Record(atoms), used)),
            None => None,
        },
    }
}

/// The values of the members `ms[k..]` at the front of `input` and the bytes
/// they take together, where `input` holds all of them.
pub open spec fn parse_members(ms: Seq<MemberView>, k: int, input: Seq<u8>) -> Option<
    (Seq<AtomView>, nat),
>
    decreases ms, ms.len() - k,
{
    if k < 0 || k >= ms.len() {
        Some((Seq::empty(), 0))
    } else {
        match parse_member(ms[k], input) {
            Some((a, used)) => match parse_members(ms, k + 1, input.skip(used as int)) {
                Some((rest, more)) => Some((seq![a] + rest, used + more)),
                None => None,
            },
            None => None,
        }
    }
}

/// What one more write leaves in a sink that the first write has overfilled.
pub proof fn clip_absorbs(a: Seq<u8>, b: Seq<u8>, limit: nat)
    requires
        a.len() > limit,
    ensures
        clip(a + b, limit) == clip(a, limit),
{
    assert((a + b).take(limit as int) =~= a.take(limit as int));
}

/// Writes one integer.
pub fn put_int(sink: &mut ByteSink, v: u64, width: IntWidth, order: ByteOrder) -> (ok: bool)
    requires
        old(sink).wf(),
    ensures
        final(sink).wf(),
        final(sink).capacity() == old(sink).capacity(),
        final(sink)@ == clip(
            old(sink)@ + int_bytes(v as nat, width.size(), order),
            old(sink).capacity(),
        ),
        ok == (old(sink)@.len() + width.size() <= old(sink).capacity()),
{
    proof {
        int_bytes_len(v as nat, width.size(), order);
    }
    let bytes = encode_int(v, width, order);
    sink.write(bytes.as_slice())
}

/// Integers occupy their width each.
pub proof fn ints_bytes_len(xs: Seq<u64>, width: IntWidth, order: ByteOrder, k: int)
    requires
        0 <= k <= xs.len(),
    ensures
        ints_bytes(xs, width, order, k).len() == width.size() * (xs.len() - k),
    decreases xs.len() - k,
{
    if k < xs.len() {
        ints_bytes_len(xs, width, order, k + 1);
        int_bytes_len(xs[k] as nat, width.size(), order);
        assert(width.size() + width.size() * (xs.len() - k - 1) == width.size() * (xs.len() - k))
            by (nonlinear_arith);
    } else {
        assert(width.size() * (xs.len() - k) == 0) by (nonlinear_arith)
            requires
                xs.len() - k == 0,
        ;
    }
}

/// Writes the integers of `xs` one after the other.
pub fn put_ints(sink: &mut ByteSink, xs: &Vec<u64>, width: IntWidth, order: ByteOrder) -> (ok: bool)
    requires
        old(sink).wf(),
    ensures
        final(sink).wf(),
        final(sink).capacity() == old(sink).capacity(),
        final(sink)@ == clip(old(sink)@ + ints_bytes(xs@, width, order, 0), old(sink).capacity()),
        ok == (old(sink)@.len() + ints_bytes(xs@, width, order, 0).len() <= old(sink).capacity()),
{
    let n: usize = xs.len();
    let mut k: usize = 0;
    while k < n
        invariant
            n == xs@.len(),
            k <= n,
            sink.wf(),
            sink.capacity() == old(sink).capacity(),
            sink@ + ints_bytes(xs@, width, order, k as int) == old(sink)@ + ints_bytes(
                xs@,
                width,
                order,
                0,
            ),
        decreases n - k,
    {
        let ghost before = sink@;
        let ghost head = int_bytes(xs@[k as int] as nat, width.size(), order);
        let ghost rest = ints_bytes(xs@, width, order, k + 1);
        let ghost whole = old(sink)@ + ints_bytes(xs@, width, order, 0);
        proof {
            int_bytes_len(xs@[k as int] as nat, width.size(), order);
            assert(whole =~= (before + head) + rest);
        }
        if !put_int(sink, xs[k], width, order) {
            proof {
                clip_absorbs(before + head, rest, sink.capacity());
            }
            return false;
        }
        k = k + 1;
    }
    assert(sink@ + ints_bytes(xs@, width, order, n as int) =~= sink@);
    true
}

/// Writes one member.
pub fn put_member(sink: &mut ByteSink, m: &Member, a: &Atom) -> (ok: bool)
    requires
        old(sink).wf(),
        member_fits(m@, a@),
    ensures
        final(sink).wf(),
        final(sink).capacity() == old(sink).capacity(),
        final(sink)@ == clip(old(sink)@ + member_bytes(m@, a@), old(sink).capacity()),
        ok == (old(sink)@.len() + member_bytes(m@, a@).len() <= old(sink).capacity()),
    decreases m,
{
    match (m, a) {
        (Member::Int { width, order }, Atom::Int(v)) => {
            proof {
                int_bytes_len(*v as nat, width.size(), *order);
            }
            put_int(sink, *v, *width, *order)
        },
        (Member::Array { width, order, count: _ }, Atom::Array(xs)) => put_ints(
            sink,
            xs,
            *width,
            *order,
        ),
        (Member::Record { members }, Atom::Record(atoms)) => {
            proof {
                record_view(*members);
                record_atom_view(*atoms);
            }
            put_members(sink, members, atoms)
        },
        _ => {
            proof {
                if m is Record {
                    record_view(m->Record_members);
                }
                if a is Record {
                    record_atom_view(a->Record_0);
                }
            }
            true
        },
    }
}

/// Writes the members one after the other.
pub fn put_members(sink: &mut ByteSink, ms: &Vec<Member>, atoms: &Vec<Atom>) -> (ok: bool)
    requires
        old(sink).wf(),
        members_fit(member_views(ms@), atom_views(atoms@)),
    ensures
        final(sink).wf(),
        final(sink).capacity() == old(sink).capacity(),
        final(sink)@ == clip(
            old(sink)@ + members_bytes(member_views(ms@), atom_views(atoms@), 0),
            old(sink).capacity(),
        ),
        ok == (old(sink)@.len() + members_bytes(member_views(ms@), atom_views(atoms@), 0).len()
            <= old(sink).capacity()),
    decreases ms@,
{
    let n: usize = ms.len();
    let ghost layout = member_views(ms@);
    let ghost views = atom_views(atoms@);
    let mut k: usize = 0;
    while k < n
        invariant
            n == ms@.len(),
            n == atoms@.len(),
            layout == member_views(ms@),
            views == atom_views(atoms@),
            members_fit(layout, views),
            k <= n,
            sink.wf(),
            sink.capacity() == old(sink).capacity(),
            sink@ + members_bytes(layout, views, k as int) == old(sink)@ + members_bytes(
                layout,
                views,
                0,
            ),
        decreases n - k,
    {
        let ghost before = sink@;
        let ghost head = member_bytes(layout[k as int], views[k as int]);
        let ghost rest = members_bytes(layout, views, k + 1);
        let ghost whole = old(sink)@ + members_bytes(layout, views, 0);
        proof {
            assert(whole =~= (before + head) + rest);
            assert(member_fits(layout[k as int], views[k as int]));
        }
        if !put_member(sink, &ms[k], &atoms[k]) {
            proof {
                clip_absorbs(before + head, rest, sink.capacity());
            }
            return false;
        }
        k = k + 1;
    }
    assert(sink@ + members_bytes(layout, views, n as int) =~= sink@);
    true
}

/// Tests whether every integer of `xs` can be written in `width`.
pub fn ints_accepted(xs: &Vec<u64>, width: IntWidth) -> (ok: bool)
    ensures
        ok == ints_fit(xs@, width),
{
    let n: usize = xs.len();
    let mut k: usize = 0;
    while k < n
        invariant
            n == xs@.len(),
            k <= n,
            forall|j: int| 0 <= j < k ==> width.holds(#[trigger] xs@[j]),
        decreases n - k,
    {
        if !width.fits(xs[k]) {
            return false;
        }
        k = k + 1;
    }
    true
}

/// Tests whether `a` is a value that member `m` can hold.
pub fn member_accepted(m: &Member, a: &Atom) -> (ok: bool)
    ensures
        ok == member_fits(m@, a@),
    decreases m,
{
    match (m, a) {
        (Member::Int { width, order: _ }, Atom::Int(v)) => width.fits(*v),
        (Member::Array { width, order: _, count }, Atom::Array(xs)) => xs.len() == *count
            && ints_accepted(xs, *width),
        (Member::Record { members }, Atom::Record(atoms)) => {
            proof {
                record_view(*members);
                record_atom_view(*atoms);
            }
            members_accepted(members, atoms)
        },
        _ => {
            proof {
                if m is Record {
                    record_view(m->Record_members);
                }
                if a is Record {
                    record_atom_view(a->Record_0);
                }
            }
            false
        },
    }
}

/// Tests whether `atoms` are values that the members `ms` can hold.
pub fn members_accepted(ms: &Vec<Member>, atoms: &Vec<Atom>) -> (ok: bool)
    ensures
        ok == members_fit(member_views(ms@), atom_views(atoms@)),
    decreases ms@,
{
    let n: usize = ms.len();
    if atoms.len() != n {
        return false;
    }
    let ghost layout = member_views(ms@);
    let ghost views = atom_views(atoms@);
    let mut k: usize = 0;
    while k < n
        invariant
            n == ms@.len(),
            n == atoms@.len(),
            layout == member_views(ms@),
            views == atom_views(atoms@),
            k <= n,
            forall|j: int| 0 <= j < k ==> member_fits(#[trigger] layout[j], views[j]),
        decreases n - k,
    {
        if !member_accepted(&ms[k], &atoms[k]) {
            assert(!member_fits(layout[k as int], views[k as int]));
            return false;
        }
        k = k + 1;
    }
    true
}

/// Reads one integer, or nothing when fewer bytes remain than it takes.
pub fn take_int(source: &mut ByteSource, width: IntWidth, order: ByteOrder) -> (out: Option<u64>)
    requires
        old(source).wf(),
    ensures
        final(source).wf(),
        final(source).whole() == old(source).whole(),
        final(source).consumed() >= old(source).consumed(),
        out.is_some() == (width.size() <= old(source)@.len()),
        out.is_some() ==> out.unwrap() == leading_int(old(source)@, width, order) && final(source)@
            == old(source)@.skip(width.size() as int),
        out.is_none() ==> final(source)@ == old(source)@,
{
    match source.take(width.bytes()) {
        Some(bytes) => Some(decode_int(&bytes, order)),
        None => None,
    }
}

/// Reads `count` integers, or fails when fewer bytes remain than they take.
pub fn take_ints(source: &mut ByteSource, width: IntWidth, order: ByteOrder, count: usize) -> (out:
    Option<Vec<u64>>)
    requires
        old(source).wf(),
    ensures
        final(source).wf(),
        final(source).whole() == old(source).whole(),
        final(source).consumed() >= old(source).consumed(),
        match parse_ints(old(source)@, width, order, count as nat) {
            Some(xs) => out.is_some() && out.unwrap()@ == xs && final(source)@ == old(source)@.skip(
                width.size() * count,
            ),
            None => out.is_none(),
        },
{
    let mut xs: Vec<u64> = Vec::new();
    let mut k: usize = 0;
    while k < count
        invariant
            k <= count,
            source.wf(),
            source.whole() == old(source).whole(),
            source.consumed() >= old(source).consumed(),
            xs@.len() == k,
            source@ == old(source)@.skip(width.size() * k),
            width.size() * k <= old(source)@.len(),
            parse_ints(old(source)@, width, order, count as nat) == match parse_ints(
                source@,
                width,
                order,
                (count - k) as nat,
            ) {
                Some(rest) => Some(xs@ + rest),
                None => None,
            },
        decreases count - k,
    {
        let ghost before = source@;
        let ghost acc = xs@;
        match take_int(source, width, order) {
            Some(v) => {
                xs.push(v);
                proof {
                    let rest = parse_ints(source@, width, order, (count - k - 1) as nat);
                    if rest.is_some() {
                        assert(xs@ + rest.unwrap() =~= acc + (seq![v] + rest.unwrap()));
                    }
                    assert(width.size() * (k + 1) == width.size() * k + width.size())
                        by (nonlinear_arith);
                    assert(source@ =~= old(source)@.skip(width.size() * (k + 1)));
                }
            },
            None => {
                return None;
            },
        }
        k = k + 1;
    }
    assert(xs@ + Seq::<u64>::empty() =~= xs@);
    Some(xs)
}

/// Reads one member.
pub fn take_member(source: &mut ByteSource, m: &Member) -> (out: Option<Atom>)
    requires
        old(source).wf(),
    ensures
        final(source).wf(),
        final(source).whole() == old(source).whole(),
        final(source).consumed() >= old(source).consumed(),
        match parse_member(m@, old(source)@) {
            Some((a, used)) => {
                &&& out.is_some()
                &&& out.unwrap()@ == a
                &&& final(source)@ == old(source)@.skip(used as int)
            },
            None => out.is_none(),
        },
    decreases m,
{
    match m {
        Member::Int { width, order } => match take_int(source, *width, *order) {
            Some(v) => Some(Atom::Int(v)),
            None => None,
        },
        Member::Array { width, order, count } => match take_ints(source, *width, *order, *count) {
            Some(xs) => Some(Atom::Array(xs)),
            None => None,
        },
        Member::Record { members } => {
            proof {
                record_view(*members);
            }
            match take_members(source, members) {
                Some(atoms) => {
                    proof {
                        record_atom_view(atoms);
                    }
                    Some(Atom::Record(atoms))
                },
                None => None,
            }
        },
    }
}

/// Reads the members one after the other.
pub fn take_members(source: &mut ByteSource, ms: &Vec<Member>) -> (out: Option<Vec<Atom>>)
    requires
        old(source).wf(),
    ensures
        final(source).wf(),
        final(source).whole() == old(source).whole(),
        final(source).consumed() >= old(source).consumed(),
        match parse_members(member_views(ms@), 0, old(source)@) {
            Some((atoms, used)) => {
                &&& out.is_some()
                &&& atom_views(out.unwrap()@) == atoms
                &&& final(source)@ == old(source)@.skip(used as int)
            },
            None => out.is_none(),
        },
    decreases ms@,
{
    let n: usize = ms.len();
    let ghost layout = member_views(ms@);
    let mut atoms: Vec<Atom> = Vec::new();
    let ghost mut taken: nat = 0;
    let mut k: usize = 0;
    assert(source@.skip(0) =~= source@);
    assert(atom_views(atoms@) + parse_members(layout, 0, source@).unwrap_or((Seq::empty(), 0)).0
        =~= parse_members(layout, 0, source@).unwrap_or((Seq::empty(), 0)).0);
    while k < n
        invariant
            n == ms@.len(),
            layout == member_views(ms@),
            k <= n,
            source.wf(),
            source.whole() == old(source).whole(),
            source.consumed() >= old(source).consumed(),
            atoms@.len() == k,
            taken <= old(source)@.len(),
            source@ == old(source)@.skip(taken as int),
            parse_members(layout, 0, old(source)@) == match parse_members(layout, k as int, source@) {
                Some((rest, more)) => Some((atom_views(atoms@) + rest, taken + more)),
                None => None,
            },
        decreases n - k,
    {
        let ghost before = source@;
        let ghost acc = atom_views(atoms@);
        match take_member(source, &ms[k]) {
            Some(a) => {
                atoms.push(a);
                proof {
                    let used = parse_member(layout[k as int], before).unwrap().1;
                    let next = parse_members(layout, k + 1, source@);
                    assert(atom_views(atoms@) =~= acc.push(a@));
                    if next.is_some() {
                        assert(atom_views(atoms@) + next.unwrap().0 =~= acc + (seq![a@]
                            + next.unwrap().0));
                    }
                    parse_member_takes(layout[k as int], before);
                    assert(source@ =~= old(source)@.skip((taken + used) as int));
                    taken = taken + used;
                }
            },
            None => {
                return None;
            },
        }
        k = k + 1;
    }
    assert(atom_views(atoms@) + Seq::<AtomView>::empty() =~= atom_views(atoms@));
    Some(atoms)
}

/// `parse_ints` succeeds exactly when the input holds `count` integers.
pub proof fn parse_ints_needs(input: Seq<u8>, width: IntWidth, order: ByteOrder, count: nat)
    ensures
        parse_ints(input, width, order, count).is_some() <==> width.size() * count <= input.len(),
        parse_ints(input, width, order, count).is_some() ==> parse_ints(
            input,
            width,
            order,
            count,
        ).unwrap().len() == count,
    decreases count,
{
    if count == 0 {
        assert(width.size() * count == 0) by (nonlinear_arith)
            requires
                count == 0,
        ;
    } else {
        assert(width.size() * count == width.size() + width.size() * (count - 1))
            by (nonlinear_arith);
        assert(width.size() * (count - 1) >= 0) by (nonlinear_arith)
            requires
                count >= 1,
        ;
        if input.len() >= width.size() {
            parse_ints_needs(input.skip(width.size() as int), width, order, (count - 1) as nat);
        }
    }
}

/// A member is read exactly when the input holds as many bytes as it
/// occupies, and it takes that many.
pub proof fn parse_member_takes(m: MemberView, input: Seq<u8>)
    ensures
        parse_member(m, input).is_some() <==> member_size(m) <= input.len(),
        parse_member(m, input).is_some() ==> parse_member(m, input).unwrap().1 == member_size(m),
    decreases m,
{
    match m {
        MemberView::Int { width, order } => {},
        MemberView::Array { width, order, count } => {
            parse_ints_needs(input, width, order, count as nat);
        },
        MemberView::Record { members } => {
            parse_members_needs(members, 0, input);
        },
    }
}

/// Members are read exactly when the input holds as many bytes as they
/// occupy, and they take that many.
pub proof fn parse_members_needs(ms: Seq<MemberView>, k: int, input: Seq<u8>)
    requires
        0 <= k <= ms.len(),
    ensures
        parse_members(ms, k, input).is_some() <==> members_size(ms, k) <= input.len(),
        parse_members(ms, k, input).is_some() ==> parse_members(ms, k, input).unwrap().1
            == members_size(ms, k),
    decreases ms, ms.len() - k,
{
    if k < ms.len() {
        parse_member_takes(ms[k], input);
        if member_size(ms[k]) <= input.len() {
            parse_members_needs(ms, k + 1, input.skip(member_size(ms[k]) as int));
        }
    }
}

/// Members that are read take no more than the input holds, and there is one
/// value for each.
pub proof fn parse_members_takes(ms: Seq<MemberView>, k: int, input: Seq<u8>)
    requires
        0 <= k <= ms.len(),
    ensures
        match parse_members(ms, k, input) {
            Some((atoms, used)) => used <= input.len() && atoms.len() == ms.len() - k,
            None => true,
        },
    decreases ms.len() - k,
{
    parse_members_needs(ms, k, input);
    if k < ms.len() {
        parse_member_takes(ms[k], input);
        match parse_member(ms[k], input) {
            Some((a, used)) => {
                parse_members_takes(ms, k + 1, input.skip(used as int));
            },
            None => {},
        }
    }
}

/// An integer that fits its width is read back from its bytes, whatever
/// follows them.
pub proof fn leading_int_round_trip(v: u64, width: IntWidth, order: ByteOrder, rest: Seq<u8>)
    requires
        width.holds(v),
    ensures
        leading_int(int_bytes(v as nat, width.size(), order) + rest, width, order) == v,
        (int_bytes(v as nat, width.size(), order) + rest).skip(width.size() as int) == rest,
        int_bytes(v as nat, width.size(), order).len() == width.size(),
{
    let bytes = int_bytes(v as nat, width.size(), order);
    int_bytes_len(v as nat, width.size(), order);
    limit_is_power(width);
    int_round_trip(v as nat, width.size(), order);
    assert((bytes + rest).take(width.size() as int) =~= bytes);
    assert((bytes + rest).skip(width.size() as int) =~= rest);
}

/// Integers that fit their width are read back from their bytes, whatever
/// follows them.
pub proof fn ints_round_trip(xs: Seq<u64>, width: IntWidth, order: ByteOrder, k: int, rest: Seq<u8>)
    requires
        ints_fit(xs, width),
        0 <= k <= xs.len(),
    ensures
        parse_ints(ints_bytes(xs, width, order, k) + rest, width, order, (xs.len() - k) as nat)
            == Some(xs.skip(k)),
    decreases xs.len() - k,
{
    if k < xs.len() {
        let head = int_bytes(xs[k] as nat, width.size(), order);
        let tail = ints_bytes(xs, width, order, k + 1);
        let input = ints_bytes(xs, width, order, k) + rest;
        assert(input =~= head + (tail + rest));
        leading_int_round_trip(xs[k], width, order, tail + rest);
        ints_round_trip(xs, width, order, k + 1, rest);
        assert(seq![xs[k]] + xs.skip(k + 1) =~= xs.skip(k));
    } else {
        assert(xs.skip(k) =~= Seq::<u64>::empty());
    }
}

/// A member's value is read back from its bytes, whatever follows them.
pub proof fn member_round_trip(m: MemberView, a: AtomView, rest: Seq<u8>)
    requires
        member_fits(m, a),
    ensures
        parse_member(m, member_bytes(m, a) + rest) == Some((a, member_bytes(m, a).len())),
    decreases m,
{
    match (m, a) {
        (MemberView::Int { width, order }, AtomView::Int(v)) => {
            leading_int_round_trip(v, width, order, rest);
        },
        (MemberView::Array { width, order, count }, AtomView::Array(xs)) => {
            ints_round_trip(xs, width, order, 0, rest);
            ints_bytes_len(xs, width, order, 0);
            assert(xs.skip(0) =~= xs);
        },
        (MemberView::Record { members }, AtomView::Record(atoms)) => {
            members_round_trip(members, atoms, 0, rest);
            assert(atoms.skip(0) =~= atoms);
        },
        _ => {},
    }
}

/// The members' values are read back from their bytes, whatever follows them.
pub proof fn members_round_trip(
    ms: Seq<MemberView>,
    atoms: Seq<AtomView>,
    k: int,
    rest: Seq<u8>,
)
    requires
        members_fit(ms, atoms),
        0 <= k <= ms.len(),
    ensures
        parse_members(ms, k, members_bytes(ms, atoms, k) + rest) == Some(
            (atoms.skip(k), members_bytes(ms, atoms, k).len()),
        ),
    decreases ms, ms.len() - k,
{
    if k < ms.len() {
        let head = member_bytes(ms[k], atoms[k]);
        let tail = members_bytes(ms, atoms, k + 1);
        let input = members_bytes(ms, atoms, k) + rest;
        assert(input =~= head + (tail + rest));
        assert(member_fits(ms[k], atoms[k]));
        member_round_trip(ms[k], atoms[k], tail + rest);
        assert((head + (tail + rest)).skip(head.len() as int) =~= tail + rest);
        members_round_trip(ms, atoms, k + 1, rest);
        assert(seq![atoms[k]] + atoms.skip(k + 1) =~= atoms.skip(k));
    } else {
        assert(atoms.skip(k) =~= Seq::<AtomView>::empty());
    }
}

/// A value that fits a member has as many bytes as the member occupies.
pub proof fn member_bytes_len(m: MemberView, a: AtomView)
    requires
        member_fits(m, a),
    ensures
        member_bytes(m, a).len() == member_size(m),
    decreases m,
{
    match (m, a) {
        (MemberView::Int { width, order }, AtomView::Int(v)) => {
            int_bytes_len(v as nat, width.size(), order);
        },
        (MemberView::Array { width, order, count }, AtomView::Array(xs)) => {
            ints_bytes_len(xs, width, order, 0);
        },
        (MemberView::Record { members }, AtomView::Record(atoms)) => {
            members_bytes_len(members, atoms, 0);
        },
        _ => {},
    }
}

/// Values that fit the members have as many bytes as the members occupy.
pub proof fn members_bytes_len(ms: Seq<MemberView>, atoms: Seq<AtomView>, k: int)
    requires
        members_fit(ms, atoms),
        0 <= k <= ms.len(),
    ensures
        members_bytes(ms, atoms, k).len() == members_size(ms, k),
    decreases ms, ms.len() - k,
{
    if k < ms.len() {
        assert(member_fits(ms[k], atoms[k]));
        member_bytes_len(ms[k], atoms[k]);
        members_bytes_len(ms, atoms, k + 1);
    }
}

/// The integer at the front of an input fits its width, and writing it gives
/// the bytes it was read from.
pub proof fn leading_int_inverse(input: Seq<u8>, width: IntWidth, order: ByteOrder)
    requires
        input.len() >= width.size(),
    ensures
        width.holds(leading_int(input, width, order)),
        int_bytes(leading_int(input, width, order) as nat, width.size(), order) == input.take(
            width.size() as int,
        ),
{
    int_bytes_of_value(input.take(width.size() as int), order);
    limit_is_power(width);
}

/// What `parse_ints` makes of an input, placed after the integers `done`:
/// there are `count` of them, they fit the width, and writing them gives the
/// bytes they were read from.
pub proof fn ints_inverse(
    input: Seq<u8>,
    width: IntWidth,
    order: ByteOrder,
    count: nat,
    done: Seq<u64>,
)
    requires
        parse_ints(input, width, order, count).is_some(),
    ensures
        parse_ints(input, width, order, count).unwrap().len() == count,
        forall|j: int|
            done.len() <= j < done.len() + count ==> width.holds(
                #[trigger] (done + parse_ints(input, width, order, count).unwrap())[j],
            ),
        ints_bytes(
            done + parse_ints(input, width, order, count).unwrap(),
            width,
            order,
            done.len() as int,
        ) == input.take((width.size() * count) as int),
    decreases count,
{
    let xs = parse_ints(input, width, order, count).unwrap();
    let all = done + xs;
    parse_ints_needs(input, width, order, count);
    if count == 0 {
        assert(width.size() * count == 0) by (nonlinear_arith)
            requires
                count == 0,
        ;
        assert(ints_bytes(all, width, order, done.len() as int) =~= input.take(0));
    } else {
        let size = width.size();
        let x = leading_int(input, width, order);
        let later = input.skip(size as int);
        let rest = parse_ints(later, width, order, (count - 1) as nat).unwrap();
        assert(size * count == size + size * (count - 1)) by (nonlinear_arith);
        leading_int_inverse(input, width, order);
        ints_inverse(later, width, order, (count - 1) as nat, done.push(x));
        parse_ints_needs(later, width, order, (count - 1) as nat);
        assert(done.push(x) + rest =~= all);
        assert(all[done.len() as int] == x);
        assert(input.take(size as int) + later.take(size * (count - 1)) =~= input.take(
            (size * count) as int,
        ));
        assert forall|j: int| done.len() <= j < done.len() + count implies width.holds(
            #[trigger] all[j],
        ) by {
            if j > done.len() {
                assert((done.push(x) + rest)[j] == all[j]);
            }
        }
    }
}

/// What `parse_member` makes of an input fits the member, and writing it gives
/// the bytes it was read from.
pub proof fn member_inverse(m: MemberView, input: Seq<u8>)
    requires
        parse_member(m, input).is_some(),
    ensures
        member_fits(m, parse_member(m, input).unwrap().0),
        member_bytes(m, parse_member(m, input).unwrap().0) == input.take(
            parse_member(m, input).unwrap().1 as int,
        ),
    decreases m,
{
    match m {
        MemberView::Int { width, order } => {
            leading_int_inverse(input, width, order);
        },
        MemberView::Array { width, order, count } => {
            ints_inverse(input, width, order, count as nat, Seq::empty());
            let xs = parse_ints(input, width, order, count as nat).unwrap();
            assert(Seq::<u64>::empty() + xs =~= xs);
        },
        MemberView::Record { members } => {
            members_inverse(members, 0, input, Seq::empty());
            let atoms = parse_members(members, 0, input).unwrap().0;
            assert(Seq::<AtomView>::empty() + atoms =~= atoms);
        },
    }
}

/// What `parse_members` makes of an input, placed after the values `done` of
/// the members before `k`: there is one value for each member, each fits its
/// member, and writing them gives the bytes they were read from.
pub proof fn members_inverse(ms: Seq<MemberView>, k: int, input: Seq<u8>, done: Seq<AtomView>)
    requires
        0 <= k <= ms.len(),
        done.len() == k,
        parse_members(ms, k, input).is_some(),
    ensures
        (done + parse_members(ms, k, input).unwrap().0).len() == ms.len(),
        forall|j: int|
            k <= j < ms.len() ==> member_fits(
                #[trigger] ms[j],
                (done + parse_members(ms, k, input).unwrap().0)[j],
            ),
        members_bytes(ms, done + parse_members(ms, k, input).unwrap().0, k) == input.take(
            parse_members(ms, k, input).unwrap().1 as int,
        ),
    decreases ms, ms.len() - k,
{
    let (atoms, used) = parse_members(ms, k, input).unwrap();
    let all = done + atoms;
    if k < ms.len() {
        let (a, first) = parse_member(ms[k], input).unwrap();
        let later = input.skip(first as int);
        let (rest, more) = parse_members(ms, k + 1, later).unwrap();
        member_inverse(ms[k], input);
        parse_member_takes(ms[k], input);
        members_inverse(ms, k + 1, later, done.push(a));
        parse_members_takes(ms, k + 1, later);
        assert(done.push(a) + rest =~= all);
        assert(all[k] == a);
        assert(input.take(first as int) + later.take(more as int) =~= input.take(
            (first + more) as int,
        ));
    } else {
        assert(members_bytes(ms, all, k) =~= input.take(0));
    }
}

/// What `parse_members` makes of an input fits the members, and writing it
/// gives the bytes it was read from.
pub proof fn members_inverse_whole(ms: Seq<MemberView>, input: Seq<u8>)
    requires
        parse_members(ms, 0, input).is_some(),
    ensures
        members_fit(ms, parse_members(ms, 0, input).unwrap().0),
        members_bytes(ms, parse_members(ms, 0, input).unwrap().0, 0) == input.take(
            parse_members(ms, 0, input).unwrap().1 as int,
        ),
{
    let atoms = parse_members(ms, 0, input).unwrap().0;
    members_inverse(ms, 0, input, Seq::empty());
    assert(Seq::<AtomView>::empty() + atoms =~= atoms);
}

/// What `parse_ints` makes of an input fits the width, and writing it gives
/// the bytes it was read from.
pub proof fn ints_inverse_whole(input: Seq<u8>, width: IntWidth, order: ByteOrder, count: nat)
    requires
        parse_ints(input, width, order, count).is_some(),
    ensures
        parse_ints(input, width, order, count).unwrap().len() == count,
        ints_fit(parse_ints(input, width, order, count).unwrap(), width),
        ints_bytes(parse_ints(input, width, order, count).unwrap(), width, order, 0) == input.take(
            (width.size() * count) as int,
        ),
{
    let xs = parse_ints(input, width, order, count).unwrap();
    ints_inverse(input, width, order, count, Seq::empty());
    assert(Seq::<u64>::empty() + xs =~= xs);
}

} // verus!
