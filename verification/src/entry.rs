//! Stored entries: an element bundled with its insertion sequence number and
//! the comparator handle that was active when it was inserted.

use crate::order::{handle_lawful, sgn, CmpHandle, Compare};
use vstd::prelude::*;

verus! {

/// An element as the queue stores it. `ctr` is the insertion sequence
/// number; `cmp` is the comparator installation the entry was bound to at
/// insertion time, not whatever the queue currently holds.
pub struct Entry<T, C, D> {
    pub ctr: usize,
    pub data: T,
    pub cmp: CmpHandle<C, D>,
}

/// How the handle `h` ranks entry `e1` against entry `e2`: the user
/// comparator decides; a tie, or the absence of a user comparator, falls
/// back to the insertion counter, larger (more recent) ranking higher; a
/// reversed handle flips the result. Always -1, 0 or 1.
pub open spec fn entry_cmp_with<T, D, C: Compare<T, D>>(
    h: CmpHandle<C, D>,
    e1: Entry<T, C, D>,
    e2: Entry<T, C, D>,
) -> int {
    let base = match h.base.user {
        Option::None => sgn(e1.ctr - e2.ctr),
        Option::Some(c) => {
            let u = sgn(c.cmp_spec(e1.data, e2.data, h.base.ctx));
            if u != 0 {
                u
            } else {
                sgn(e1.ctr - e2.ctr)
            }
        },
    };
    if h.rev {
        -base
    } else {
        base
    }
}

/// How `e1` ranks against `e2` under `e1`'s own bound comparator. This is
/// the relation the queue's ordering engine works with; it is symmetric in
/// the two entries only when both are bound to the same lawful handle.
pub open spec fn entry_cmp_spec<T, D, C: Compare<T, D>>(
    e1: Entry<T, C, D>,
    e2: Entry<T, C, D>,
) -> int {
    entry_cmp_with(e1.cmp, e1, e2)
}

/// Rank two entries by insertion counter alone: the fallback when no user
/// comparator is configured, and the tie-break when one reports a tie.
pub fn default_compare<T, C, D>(one: &Entry<T, C, D>, two: &Entry<T, C, D>) -> (r: i32)
    ensures
        r as int == sgn(one.ctr - two.ctr),
{
    if one.ctr < two.ctr {
        -1
    } else if one.ctr > two.ctr {
        1
    } else {
        0
    }
}

/// Rank `a` against `b` under `a`'s bound comparator.
pub fn entry_cmp<T, D, C: Compare<T, D>>(a: &Entry<T, C, D>, b: &Entry<T, C, D>) -> (r: i32)
    ensures
        r as int == entry_cmp_spec(*a, *b),
{
    let base: i32 = match &a.cmp.base.user {
        Option::None => default_compare(a, b),
        Option::Some(c) => {
            let u = c.compare(&a.data, &b.data, &a.cmp.base.ctx);
            let s: i32 = if u < 0 {
                -1
            } else if u > 0 {
                1
            } else {
                0
            };
            if s != 0 {
                s
            } else {
                default_compare(a, b)
            }
        },
    };
    if a.cmp.rev {
        -base
    } else {
        base
    }
}

/// Under one lawful handle, exchanging the entries flips the sign of the
/// ranking.
pub proof fn lemma_entry_antisym<T, D, C: Compare<T, D>>(
    h: CmpHandle<C, D>,
    e1: Entry<T, C, D>,
    e2: Entry<T, C, D>,
)
    requires
        e1.cmp == h,
        e2.cmp == h,
        handle_lawful(h),
    ensures
        entry_cmp_spec(e1, e2) == -entry_cmp_spec(e2, e1),
{
    match h.base.user {
        Option::None => {
        },
        Option::Some(c) => {
            assert(sgn(c.cmp_spec(e1.data, e2.data, h.base.ctx)) == -sgn(
                c.cmp_spec(e2.data, e1.data, h.base.ctx),
            ));
        },
    }
}

/// Flipping the polarity of a comparator installation inverts the ranking
/// of any two entries whose elements the user comparator ranks strictly,
/// whatever insertion counters the entries carry.
pub proof fn lemma_reversed_handle_flips_strict<T, D, C: Compare<T, D>>(
    h: CmpHandle<C, D>,
    g: CmpHandle<C, D>,
    e1: Entry<T, C, D>,
    e2: Entry<T, C, D>,
    f1: Entry<T, C, D>,
    f2: Entry<T, C, D>,
)
    requires
        g.base == h.base,
        g.rev == !h.rev,
        e1.cmp == h,
        e2.cmp == h,
        f1.cmp == g,
        f2.cmp == g,
        f1.data == e1.data,
        f2.data == e2.data,
        h.base.user is Some,
        (h.base.user matches Some(c) && c.cmp_spec(e1.data, e2.data, h.base.ctx) != 0),
    ensures
        entry_cmp_spec(f1, f2) == -entry_cmp_spec(e1, e2),
{
}

/// Under one lawful handle, "ranks at or below" is transitive.
pub proof fn lemma_entry_trans<T, D, C: Compare<T, D>>(
    h: CmpHandle<C, D>,
    e1: Entry<T, C, D>,
    e2: Entry<T, C, D>,
    e3: Entry<T, C, D>,
)
    requires
        e1.cmp == h,
        e2.cmp == h,
        e3.cmp == h,
        handle_lawful(h),
        entry_cmp_spec(e1, e2) <= 0,
        entry_cmp_spec(e2, e3) <= 0,
    ensures
        entry_cmp_spec(e1, e3) <= 0,
{
    match h.base.user {
        Option::None => {
        },
        Option::Some(c) => {
            let ctx = h.base.ctx;
            let u12 = c.cmp_spec(e1.data, e2.data, ctx);
            let u21 = c.cmp_spec(e2.data, e1.data, ctx);
            let u23 = c.cmp_spec(e2.data, e3.data, ctx);
            let u32 = c.cmp_spec(e3.data, e2.data, ctx);
            let u13 = c.cmp_spec(e1.data, e3.data, ctx);
            let u31 = c.cmp_spec(e3.data, e1.data, ctx);
            // Name every pairwise ranking, so that the exchange and
            // transitivity laws apply to all of them.
            assert(sgn(u12) == -sgn(u21));
            assert(sgn(u23) == -sgn(u32));
            assert(sgn(u13) == -sgn(u31));
            assert(u12 <= 0 && u23 <= 0 ==> u13 <= 0);
            assert(u21 <= 0 && u13 <= 0 ==> u23 <= 0);
            assert(u32 <= 0 && u21 <= 0 ==> u31 <= 0);
            assert(u13 <= 0 && u32 <= 0 ==> u12 <= 0);
            assert(u23 <= 0 && u31 <= 0 ==> u21 <= 0);
            assert(u31 <= 0 && u12 <= 0 ==> u32 <= 0);
        },
    }
}

} // verus!
