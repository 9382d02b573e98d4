//! The comparator protocol: tri-state ranking of elements, shared by
//! reference count between the queue and the entries bound to it.

use std::rc::Rc;
use vstd::prelude::*;

verus! {

/// The sign of an integer: -1, 0 or 1.
pub open spec fn sgn(x: int) -> int {
    if x < 0 {
        -1
    } else if x > 0 {
        1
    } else {
        0
    }
}

/// A tri-state comparator over elements of type `T`, optionally consulting a
/// context value of type `D`. A negative result ranks `a` below `b`, a
/// positive result ranks `a` above `b`, and zero reports a tie.
pub trait Compare<T, D>: Sized {
    /// What the comparator returns, up to sign.
    spec fn cmp_spec(&self, a: T, b: T, ctx: Option<D>) -> int;

    /// Rank `a` against `b`: negative for below, positive for above, zero
    /// for a tie.
    fn compare(&self, a: &T, b: &T, ctx: &Option<D>) -> (r: i32)
        ensures
            sgn(r as int) == sgn(self.cmp_spec(*a, *b, *ctx)),
    ;
}

/// The part of a comparator installation that entries share: the user's
/// comparator, if one was configured, and the context handed to it.
pub struct CmpBase<C, D> {
    pub user: Option<C>,
    pub ctx: Option<D>,
}

/// A shared handle to a comparator installation. `rev` inverts the ranking
/// polarity; it is flipped by the queue's `reverse` operation.
pub struct CmpHandle<C, D> {
    pub base: Rc<CmpBase<C, D>>,
    pub rev: bool,
}

/// Relies on std's `Rc::clone`: the result is another pointer to the same
/// allocation, hence the same value.
#[verifier::external_body]
pub(crate) fn rc_clone<T>(rc: &Rc<T>) -> (r: Rc<T>)
    ensures
        r == *rc,
{
    Rc::clone(rc)
}

impl<C, D> CmpHandle<C, D> {
    /// Another handle to the same comparator installation.
    pub fn duplicate(&self) -> (r: Self)
        ensures
            r == *self,
    {
        CmpHandle { base: rc_clone(&self.base), rev: self.rev }
    }

    /// A handle to the same installation with the ranking polarity flipped.
    pub fn reversed(&self) -> (r: Self)
        ensures
            r.base == self.base,
            r.rev == !self.rev,
    {
        CmpHandle { base: rc_clone(&self.base), rev: !self.rev }
    }
}

/// A comparator that reports every pair as tied, so that ranking falls back
/// to insertion order throughout. It stands in for "no comparator" where a
/// comparator type must be named.
pub struct NoComparator;

impl<T, D> Compare<T, D> for NoComparator {
    open spec fn cmp_spec(&self, a: T, b: T, ctx: Option<D>) -> int {
        0
    }

    fn compare(&self, a: &T, b: &T, ctx: &Option<D>) -> (r: i32) {
        0
    }
}

/// A comparator over signed integers that ranks larger values higher.
pub struct NumericComparator;

impl<D> Compare<i64, D> for NumericComparator {
    open spec fn cmp_spec(&self, a: i64, b: i64, ctx: Option<D>) -> int {
        a - b
    }

    fn compare(&self, a: &i64, b: &i64, ctx: &Option<D>) -> (r: i32) {
        if *a < *b {
            -1
        } else if *a > *b {
            1
        } else {
            0
        }
    }
}

/// A comparator over signed integers that ranks values at or above a pivot
/// (taken from the context; absent context means pivot zero) higher than
/// values below it, and reports a tie otherwise.
pub struct PivotComparator;

/// Whether `a` lies at or above the pivot that `ctx` carries.
pub open spec fn at_or_above_pivot(a: i64, ctx: Option<i64>) -> bool {
    match ctx {
        Option::None => a >= 0,
        Option::Some(p) => a >= p,
    }
}

impl Compare<i64, i64> for PivotComparator {
    open spec fn cmp_spec(&self, a: i64, b: i64, ctx: Option<i64>) -> int {
        if at_or_above_pivot(a, ctx) && !at_or_above_pivot(b, ctx) {
            1
        } else if !at_or_above_pivot(a, ctx) && at_or_above_pivot(b, ctx) {
            -1
        } else {
            0
        }
    }

    fn compare(&self, a: &i64, b: &i64, ctx: &Option<i64>) -> (r: i32) {
        let pivot: i64 = match ctx {
            Option::None => 0,
            Option::Some(p) => *p,
        };
        let a_high: bool = *a >= pivot;
        let b_high: bool = *b >= pivot;
        if a_high && !b_high {
            1
        } else if !a_high && b_high {
            -1
        } else {
            0
        }
    }
}

/// The laws that make a comparator's ranking a total preorder: opposite
/// signs when the arguments are exchanged, and transitivity of "ranks at or
/// below". Every ordering guarantee of the queue is conditioned on them.
pub open spec fn cmp_lawful<T, D, C: Compare<T, D>>(c: C, ctx: Option<D>) -> bool {
    &&& forall|a: T, b: T| sgn(#[trigger] c.cmp_spec(a, b, ctx)) == -sgn(c.cmp_spec(b, a, ctx))
    &&& forall|a: T, b: T, x: T|
        #[trigger] c.cmp_spec(a, b, ctx) <= 0 && #[trigger] c.cmp_spec(b, x, ctx) <= 0
            ==> c.cmp_spec(a, x, ctx) <= 0
}

/// Whether a comparator handle obeys the comparator laws. A handle with no
/// user comparator ranks by insertion order alone, which always obeys them;
/// the polarity flag does not affect them.
pub open spec fn handle_lawful<T, D, C: Compare<T, D>>(h: CmpHandle<C, D>) -> bool {
    match h.base.user {
        Option::None => true,
        Option::Some(c) => cmp_lawful::<T, D, C>(c, h.base.ctx),
    }
}

/// The numeric comparator obeys the comparator laws, whatever the context.
pub proof fn lemma_numeric_lawful<D>(ctx: Option<D>)
    ensures
        cmp_lawful::<i64, D, NumericComparator>(NumericComparator, ctx),
{
}

/// The pivot comparator obeys the comparator laws, whatever the context.
pub proof fn lemma_pivot_lawful(ctx: Option<i64>)
    ensures
        cmp_lawful::<i64, i64, PivotComparator>(PivotComparator, ctx),
{
}

/// The tied comparator obeys the comparator laws.
pub proof fn lemma_no_comparator_lawful<T, D>(ctx: Option<D>)
    ensures
        cmp_lawful::<T, D, NoComparator>(NoComparator, ctx),
{
}

} // verus!
