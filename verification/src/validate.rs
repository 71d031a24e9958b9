//! The invariant of a layout plan, tested at run time: for plans that were
//! built by hand rather than resolved from a declaration.

use crate::layout::{
    distinct_tags, member_size, member_views, members_size, record_view, tags_fit,
    variant_views, Guard, LayoutPlan, Member, ResolvedField, Role, Shape, SizeStrategy, Variant,
};
use vstd::prelude::*;

verus! {

/// The members from `k` on occupy no more than the members from `i` on.
pub proof fn members_size_grows(ms: Seq<crate::layout::MemberView>, i: int, k: int)
    requires
        0 <= i <= k <= ms.len(),
    ensures
        members_size(ms, k) <= members_size(ms, i),
    decreases k - i,
{
    if i < k {
        members_size_grows(ms, i + 1, k);
    }
}

/// The bytes that a member occupies, where a buffer can have that many.
pub fn size_of_member(m: &Member) -> (r: Option<usize>)
    ensures
        match r {
            Some(n) => n == member_size(m@),
            None => member_size(m@) > usize::MAX,
        },
    decreases m,
{
    match m {
        Member::Int { width, order: _ } => Some(width.bytes()),
        Member::Array { width, order: _, count } => width.bytes().checked_mul(*count),
        Member::Record { members } => {
            proof {
                record_view(*members);
            }
            size_of_members(members)
        },
    }
}

/// The bytes that the members occupy together, where a buffer can have that
/// many.
pub fn size_of_members(ms: &Vec<Member>) -> (r: Option<usize>)
    ensures
        match r {
            Some(n) => n == members_size(member_views(ms@), 0),
            None => members_size(member_views(ms@), 0) > usize::MAX,
        },
    decreases ms@,
{
    let n: usize = ms.len();
    let ghost layout = member_views(ms@);
    let mut total: usize = 0;
    let mut k: usize = n;
    while k > 0
        invariant
            n == ms@.len(),
            layout == member_views(ms@),
            k <= n,
            total == members_size(layout, k as int),
        decreases k,
    {
        k = k - 1;
        proof {
            members_size_grows(layout, 0, k as int);
        }
        let next = match size_of_member(&ms[k]) {
            Some(size) => total.checked_add(size),
            None => None,
        };
        match next {
            Some(sum) => {
                total = sum;
            },
            None => {
                return None;
            },
        }
    }
    Some(total)
}

fn tags_are_distinct(vs: &Vec<Variant>) -> (ok: bool)
    ensures
        ok == distinct_tags(variant_views(vs@)),
{
    let n: usize = vs.len();
    let ghost views = variant_views(vs@);
    let mut l: usize = 0;
    while l < n
        invariant
            n == vs@.len(),
            views == variant_views(vs@),
            l <= n,
            forall|a: int, b: int|
                0 <= a < b < l ==> (#[trigger] views[a]).tag != (#[trigger] views[b]).tag,
        decreases n - l,
    {
        let mut a: usize = 0;
        while a < l
            invariant
                n == vs@.len(),
                views == variant_views(vs@),
                l < n,
                a <= l,
                forall|j: int| 0 <= j < a ==> (#[trigger] views[j]).tag != views[l as int].tag,
            decreases l - a,
        {
            if vs[a].tag == vs[l].tag {
                assert(views[a as int].tag == views[l as int].tag);
                return false;
            }
            a = a + 1;
        }
        l = l + 1;
    }
    true
}

fn tags_are_in_range(width: crate::wire::IntWidth, vs: &Vec<Variant>) -> (ok: bool)
    ensures
        ok == tags_fit(width, variant_views(vs@)),
{
    let n: usize = vs.len();
    let ghost views = variant_views(vs@);
    let mut k: usize = 0;
    while k < n
        invariant
            n == vs@.len(),
            views == variant_views(vs@),
            k <= n,
            forall|j: int| 0 <= j < k ==> width.holds((#[trigger] views[j]).tag),
        decreases n - k,
    {
        if !width.fits(vs[k].tag) {
            assert(!width.holds(views[k as int].tag));
            return false;
        }
        k = k + 1;
    }
    true
}

impl LayoutPlan {
    fn has_scalar_at(&self, j: usize) -> (ok: bool)
        ensures
            ok == self.scalar_at(j as int),
    {
        if j >= self.fields.len() {
            return false;
        }
        let integer: bool = match &self.fields[j].shape {
            Shape::Int { .. } => true,
            _ => false,
        };
        integer && self.fields[j].skip_if.is_none()
    }

    fn guard_is_wf(&self, i: usize) -> (ok: bool)
        requires
            i < self.fields@.len(),
        ensures
            ok == self.guard_wf(i as int),
    {
        match &self.fields[i].skip_if {
            Some(g) => {
                let n: usize = g.terms.len();
                let mut k: usize = 0;
                while k < n
                    invariant
                        n == g.terms@.len(),
                        k <= n,
                        i < self.fields@.len(),
                        self.fields@[i as int].skip_if == Some(*g),
                        forall|j: int|
                            0 <= j < k ==> (#[trigger] g.terms@[j]).index < i && self.scalar_at(
                                g.terms@[j].index as int,
                            ),
                    decreases n - k,
                {
                    let index: usize = g.terms[k].index;
                    if index >= i || !self.has_scalar_at(index) {
                        assert(!(g.terms@[k as int].index < i && self.scalar_at(
                            g.terms@[k as int].index as int,
                        )));
                        return false;
                    }
                    k = k + 1;
                }
                true
            },
            None => true,
        }
    }

    /// Tests the invariant of field `i`.
    pub fn field_is_wf(&self, i: usize) -> (ok: bool)
        requires
            i < self.fields@.len(),
        ensures
            ok == self.field_wf(i as int),
    {
        let n: usize = self.fields.len();
        let f = &self.fields[i];
        if !self.guard_is_wf(i) {
            return false;
        }
        let unguarded: bool = f.skip_if.is_none();
        match &f.shape {
            Shape::Int { width, order: _, role } => {
                let sized: bool = f.size == SizeStrategy::FixedScalar(width.bytes());
                let served: bool = match role {
                    Role::Plain => true,
                    Role::LengthOf(t) => {
                        if i < *t && *t < n && unguarded {
                            let blob: bool = match &self.fields[*t].shape {
                                Shape::Blob => true,
                                _ => false,
                            };
                            blob && self.fields[*t].size == SizeStrategy::LengthFrom(i)
                        } else {
                            false
                        }
                    },
                    Role::TagOf(t) => {
                        if i < *t && *t < n && unguarded {
                            match &self.fields[*t].shape {
                                Shape::Choice { width: tag_width, order: _, source, variants: _ } => {
                                    *tag_width == *width && *source == Some(i)
                                },
                                _ => false,
                            }
                        } else {
                            false
                        }
                    },
                };
                sized && served
            },
            Shape::Blob => match f.size {
                SizeStrategy::FixedCompound(_) => true,
                SizeStrategy::LengthFrom(j) => {
                    if j < i && unguarded && self.has_scalar_at(j) {
                        match &self.fields[j].shape {
                            Shape::Int { width: _, order: _, role } => *role == Role::LengthOf(i),
                            _ => false,
                        }
                    } else {
                        false
                    }
                },
                SizeStrategy::Remainder => i == n - 1,
                _ => false,
            },
            Shape::Array { width, order: _, count } => match width.bytes().checked_mul(*count) {
                Some(size) => f.size == SizeStrategy::FixedCompound(size),
                None => false,
            },
            Shape::Record { members } => match size_of_members(members) {
                Some(size) => f.size == SizeStrategy::FixedCompound(size),
                None => false,
            },
            Shape::Choice { width, order: _, source, variants } => {
                let sourced: bool = match source {
                    None => true,
                    Some(j) => {
                        if *j < i && unguarded && self.has_scalar_at(*j) {
                            match &self.fields[*j].shape {
                                Shape::Int { width: tag_width, order: _, role } => *tag_width
                                    == *width && *role == Role::TagOf(i),
                                _ => false,
                            }
                        } else {
                            false
                        }
                    },
                };
                f.size == SizeStrategy::Tagged && tags_are_distinct(variants) && tags_are_in_range(
                    *width,
                    variants,
                ) && sourced
            },
            Shape::Nothing => f.size == SizeStrategy::FixedCompound(0),
        }
    }

    fn does_take_remainder(&self) -> (r: bool)
        ensures
            r == self.takes_remainder(),
    {
        let n: usize = self.fields.len();
        let mut i: usize = 0;
        while i < n
            invariant
                n == self.fields@.len(),
                i <= n,
                forall|j: int|
                    0 <= j < i ==> (#[trigger] self.fields@[j]).size != SizeStrategy::Remainder,
            decreases n - i,
        {
            if self.fields[i].size == SizeStrategy::Remainder {
                assert(self.fields@[i as int].size == SizeStrategy::Remainder);
                return true;
            }
            i = i + 1;
        }
        false
    }

    /// Tests the invariant of the plan: what the synthesizers ask of a plan
    /// that was built by hand.
    pub fn is_wf(&self) -> (ok: bool)
        ensures
            ok == self.wf(),
    {
        if self.align < 1 {
            return false;
        }
        if self.align > 1 && self.does_take_remainder() {
            return false;
        }
        let n: usize = self.fields.len();
        let mut i: usize = 0;
        while i < n
            invariant
                n == self.fields@.len(),
                i <= n,
                forall|j: int| 0 <= j < i ==> self.field_wf(j),
            decreases n - i,
        {
            if !self.field_is_wf(i) {
                return false;
            }
            i = i + 1;
        }
        true
    }
}

} // verus!
