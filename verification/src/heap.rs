//! The ordering engine: a binary max-heap over entries, laid out in a
//! vector, ordered by each entry's own bound comparator.
//!
//! The heap property is meaningful only while every live entry is bound to
//! one comparator installation that obeys the comparator laws; the sift
//! operations therefore promise it under that hypothesis, and promise the
//! entry multiset bookkeeping unconditionally.

use crate::entry::{
    entry_cmp, entry_cmp_spec, lemma_entry_antisym, lemma_entry_trans, Entry,
};
use crate::order::{handle_lawful, CmpHandle, Compare};
use vstd::prelude::*;

verus! {

broadcast use
    vstd::seq_lib::group_to_multiset_ensures,
    vstd::multiset::group_multiset_axioms,
;

/// Every entry of `s` is bound to the comparator handle `h`.
pub open spec fn all_bound<T, D, C: Compare<T, D>>(
    s: Seq<Entry<T, C, D>>,
    h: CmpHandle<C, D>,
) -> bool {
    forall|i: int| 0 <= i < s.len() ==> (#[trigger] s[i]).cmp == h
}

/// No two entries of `s` carry the same insertion counter.
pub open spec fn distinct_ctrs<T, D, C: Compare<T, D>>(s: Seq<Entry<T, C, D>>) -> bool {
    forall|i: int, j: int|
        #![trigger s[i], s[j]]
        0 <= i < j < s.len() ==> s[i].ctr != s[j].ctr
}

/// Rearranging a sequence of entries cannot make two insertion counters
/// collide.
pub proof fn lemma_perm_distinct_ctrs<T, D, C: Compare<T, D>>(
    s1: Seq<Entry<T, C, D>>,
    s2: Seq<Entry<T, C, D>>,
)
    requires
        s1.to_multiset() == s2.to_multiset(),
        distinct_ctrs(s1),
    ensures
        distinct_ctrs(s2),
{
    assert forall|i: int, j: int|
        #![trigger s2[i], s2[j]]
        0 <= i < j < s2.len() implies s2[i].ctr != s2[j].ctr by {
        if s2[i].ctr == s2[j].ctr {
            if s2[i] == s2[j] {
                // The entry would occur twice, but every entry of s1 occurs
                // once: counters there are pairwise distinct.
                let e = s2[i];
                let s3 = s2.remove(i);
                assert(s3[j - 1] == e);
                assert(s3.contains(e));
                assert(s3.to_multiset().count(e) > 0);
                assert(s2.to_multiset().count(e) >= 2);
                assert(s1.no_duplicates());
                s1.lemma_multiset_has_no_duplicates();
                assert(s1.to_multiset().contains(e));
                assert(false);
            } else {
                // Two different entries with one counter would both sit in
                // s1, at different positions.
                assert(s2.contains(s2[i]) && s2.contains(s2[j]));
                assert(s2.to_multiset().count(s2[i]) > 0);
                assert(s2.to_multiset().count(s2[j]) > 0);
                assert(s1.contains(s2[i]) && s1.contains(s2[j]));
                let p = choose|p: int| 0 <= p < s1.len() && s1[p] == s2[i];
                let q = choose|q: int| 0 <= q < s1.len() && s1[q] == s2[j];
                assert(p != q);
                assert(s1[p].ctr != s1[q].ctr);
                assert(false);
            }
        }
    }
}

/// The max-heap property: no entry ranks above its parent.
pub open spec fn heap_prop<T, D, C: Compare<T, D>>(s: Seq<Entry<T, C, D>>) -> bool {
    forall|i: int|
        1 <= i < s.len() ==> #[trigger] entry_cmp_spec(s[i], s[(i - 1) / 2]) <= 0
}

/// The heap property with the edge from position `j` up to its parent
/// exempted: the state while an entry sifts up from `j`.
pub open spec fn heap_except_up<T, D, C: Compare<T, D>>(
    s: Seq<Entry<T, C, D>>,
    j: int,
) -> bool {
    forall|i: int|
        1 <= i < s.len() && i != j ==> #[trigger] entry_cmp_spec(s[i], s[(i - 1) / 2]) <= 0
}

/// While an entry sifts up from `j`, the children of `j` still rank at or
/// below `j`'s parent, so a swap across `j` keeps them in place.
pub open spec fn bridge_up<T, D, C: Compare<T, D>>(s: Seq<Entry<T, C, D>>, j: int) -> bool {
    j > 0 ==> forall|c: int|
        1 <= c < s.len() && (c - 1) / 2 == j ==> #[trigger] entry_cmp_spec(
            s[c],
            s[(j - 1) / 2],
        ) <= 0
}

/// The heap property with the edges from the children of `j` exempted: the
/// state while an entry sifts down from `j`.
pub open spec fn heap_except_down<T, D, C: Compare<T, D>>(
    s: Seq<Entry<T, C, D>>,
    j: int,
) -> bool {
    forall|i: int|
        1 <= i < s.len() && (i - 1) / 2 != j ==> #[trigger] entry_cmp_spec(s[i], s[(i - 1) / 2])
            <= 0
}

/// While an entry sifts down at `j`, the children of `j` still rank at or
/// below `j`'s parent.
pub open spec fn bridge_down<T, D, C: Compare<T, D>>(s: Seq<Entry<T, C, D>>, j: int) -> bool {
    j > 0 ==> forall|c: int|
        1 <= c < s.len() && (c - 1) / 2 == j ==> #[trigger] entry_cmp_spec(
            s[c],
            s[(j - 1) / 2],
        ) <= 0
}

/// Relies on the standard library's slice `swap` (reached through `Vec`'s
/// deref): it exchanges the elements at the two indices and touches nothing
/// else, panicking only when an index is out of bounds.
#[verifier::external_body]
pub(crate) fn vec_swap<T>(v: &mut Vec<T>, i: usize, j: usize)
    requires
        i < old(v)@.len(),
        j < old(v)@.len(),
    ensures
        final(v)@ == old(v)@.update(i as int, old(v)@[j as int]).update(
            j as int,
            old(v)@[i as int],
        ),
{
    v.swap(i, j);
}

/// Exchanging two positions of a sequence leaves its multiset unchanged.
pub proof fn lemma_swap_multiset<A>(s: Seq<A>, i: int, j: int)
    requires
        0 <= i < s.len(),
        0 <= j < s.len(),
    ensures
        s.update(i, s[j]).update(j, s[i]).to_multiset() == s.to_multiset(),
{
    if i == j {
        assert(s.update(i, s[j]).update(j, s[i]) =~= s);
    } else {
        let s1 = s.update(i, s[j]);
        assert(s1[j] == s[j]);
        assert(s1.update(j, s[i]).to_multiset() =~= s.to_multiset());
    }
}

/// Move the entry at `start` up until it no longer ranks above its parent.
/// Unconditionally a permutation; re-establishes the heap property when the
/// entries share one lawful handle and only the edge at `start` was open.
pub(crate) fn sift_up<T, D, C: Compare<T, D>>(
    v: &mut Vec<Entry<T, C, D>>,
    start: usize,
    Ghost(h): Ghost<CmpHandle<C, D>>,
)
    requires
        start < old(v)@.len(),
    ensures
        final(v)@.len() == old(v)@.len(),
        final(v)@.to_multiset() == old(v)@.to_multiset(),
        forall|i: int| 0 <= i < final(v)@.len() ==> old(v)@.contains(#[trigger] final(v)@[i]),
        all_bound(old(v)@, h) ==> all_bound(final(v)@, h),
        all_bound(old(v)@, h) && handle_lawful(h) && heap_except_up(old(v)@, start as int)
            && bridge_up(old(v)@, start as int) ==> heap_prop(final(v)@),
{
    let ghost good = all_bound(old(v)@, h) && handle_lawful(h) && heap_except_up(
        old(v)@,
        start as int,
    ) && bridge_up(old(v)@, start as int);
    let mut j: usize = start;
    loop
        invariant
            j < v@.len(),
            v@.len() == old(v)@.len(),
            v@.to_multiset() == old(v)@.to_multiset(),
            forall|i: int| 0 <= i < v@.len() ==> old(v)@.contains(#[trigger] v@[i]),
            all_bound(old(v)@, h) ==> all_bound(v@, h),
            good ==> heap_except_up(v@, j as int) && bridge_up(v@, j as int),
            good == (all_bound(old(v)@, h) && handle_lawful(h) && heap_except_up(
                old(v)@,
                start as int,
            ) && bridge_up(old(v)@, start as int)),
        ensures
            good ==> heap_prop(v@),
        decreases j,
    {
        if j == 0 {
            proof {
                if good {
                    assert(heap_prop(v@));
                }
            }
            break;
        }
        let p: usize = (j - 1) / 2;
        let c = entry_cmp(&v[j], &v[p]);
        if c <= 0 {
            proof {
                if good {
                    assert(entry_cmp_spec(v@[j as int], v@[p as int]) <= 0);
                    assert(heap_prop(v@));
                }
            }
            break;
        }
        proof {
            let s = v@;
            let jj = j as int;
            let pp = p as int;
            let x = s[jj];
            let y = s[pp];
            let s2 = s.update(jj, y).update(pp, x);
            lemma_swap_multiset(s, jj, pp);
            if good {
                assert(x.cmp == h && y.cmp == h);
                lemma_entry_antisym(h, x, y);
                assert(entry_cmp_spec(y, x) <= 0);
                assert forall|i: int|
                    1 <= i < s2.len() && i != pp implies #[trigger] entry_cmp_spec(
                    s2[i],
                    s2[(i - 1) / 2],
                ) <= 0 by {
                    let par = (i - 1) / 2;
                    if i == jj {
                        assert(par == pp);
                        assert(s2[i] == y && s2[par] == x);
                    } else if par == pp {
                        assert(s2[i] == s[i] && s2[par] == x);
                        assert(entry_cmp_spec(s[i], y) <= 0);
                        lemma_entry_trans(h, s[i], y, x);
                    } else if par == jj {
                        assert(i >= 2 * jj + 1);
                        assert(s2[i] == s[i] && s2[par] == y);
                        assert(entry_cmp_spec(s[i], s[(jj - 1) / 2]) <= 0);
                    } else {
                        assert(s2[i] == s[i] && s2[par] == s[par]);
                        assert(entry_cmp_spec(s[i], s[par]) <= 0);
                    }
                }
                if pp > 0 {
                    let gp = (pp - 1) / 2;
                    assert forall|cc: int|
                        1 <= cc < s2.len() && (cc - 1) / 2 == pp implies #[trigger] entry_cmp_spec(
                        s2[cc],
                        s2[gp],
                    ) <= 0 by {
                        assert(gp < pp && pp < jj);
                        assert(s2[gp] == s[gp]);
                        if cc == jj {
                            assert(s2[cc] == y);
                            assert(entry_cmp_spec(s[pp], s[gp]) <= 0);
                        } else {
                            assert(s2[cc] == s[cc]);
                            assert(entry_cmp_spec(s[cc], s[pp]) <= 0);
                            assert(entry_cmp_spec(s[pp], s[gp]) <= 0);
                            lemma_entry_trans(h, s[cc], s[pp], s[gp]);
                        }
                    }
                }
                assert(heap_except_up(s2, pp));
                assert(bridge_up(s2, pp));
            }
        }
        vec_swap(v, j, p);
        j = p;
    }
}

/// Move the root entry down until no child ranks above it. Unconditionally a
/// permutation; re-establishes the heap property when the entries share one
/// lawful handle and only the edges below the root were open.
pub(crate) fn sift_down<T, D, C: Compare<T, D>>(
    v: &mut Vec<Entry<T, C, D>>,
    Ghost(h): Ghost<CmpHandle<C, D>>,
)
    requires
        old(v)@.len() > 0,
    ensures
        final(v)@.len() == old(v)@.len(),
        final(v)@.to_multiset() == old(v)@.to_multiset(),
        forall|i: int| 0 <= i < final(v)@.len() ==> old(v)@.contains(#[trigger] final(v)@[i]),
        all_bound(old(v)@, h) ==> all_bound(final(v)@, h),
        all_bound(old(v)@, h) && handle_lawful(h) && heap_except_down(old(v)@, 0) ==> heap_prop(
            final(v)@,
        ),
{
    let ghost good = all_bound(old(v)@, h) && handle_lawful(h) && heap_except_down(old(v)@, 0);
    let mut j: usize = 0;
    loop
        invariant
            j < v@.len(),
            v@.len() == old(v)@.len(),
            v@.to_multiset() == old(v)@.to_multiset(),
            forall|i: int| 0 <= i < v@.len() ==> old(v)@.contains(#[trigger] v@[i]),
            all_bound(old(v)@, h) ==> all_bound(v@, h),
            good ==> heap_except_down(v@, j as int) && bridge_down(v@, j as int),
            good == (all_bound(old(v)@, h) && handle_lawful(h) && heap_except_down(old(v)@, 0)),
        ensures
            good ==> heap_prop(v@),
        decreases v@.len() - j,
    {
        let len = v.len();
        if j >= len / 2 {
            proof {
                if good {
                    assert forall|i: int|
                        1 <= i < v@.len() implies #[trigger] entry_cmp_spec(
                        v@[i],
                        v@[(i - 1) / 2],
                    ) <= 0 by {
                        assert((i - 1) / 2 != j as int);
                    }
                }
            }
            break;
        }
        let c1: usize = 2 * j + 1;
        let c2: usize = c1 + 1;
        let mut m: usize = c1;
        if c2 < len {
            let cc = entry_cmp(&v[c2], &v[m]);
            if cc > 0 {
                m = c2;
            }
        }
        let cm = entry_cmp(&v[m], &v[j]);
        proof {
            let s = v@;
            let jj = j as int;
            let mm = m as int;
            if good {
                // Both children, where present, rank at or below the chosen one.
                if c2 < len && mm == c2 as int {
                    lemma_entry_antisym(h, s[c2 as int], s[c1 as int]);
                }
                assert(c2 < len ==> entry_cmp_spec(s[c2 as int], s[mm]) <= 0
                    || entry_cmp_spec(s[c1 as int], s[mm]) <= 0);
            }
        }
        if cm <= 0 {
            proof {
                if good {
                    let s = v@;
                    let jj = j as int;
                    let mm = m as int;
                    assert forall|i: int|
                        1 <= i < s.len() implies #[trigger] entry_cmp_spec(s[i], s[(i - 1) / 2])
                        <= 0 by {
                        if (i - 1) / 2 == jj {
                            assert(i == 2 * jj + 1 || i == 2 * jj + 2);
                            if i == mm {
                                assert(entry_cmp_spec(s[i], s[jj]) <= 0);
                            } else {
                                assert(entry_cmp_spec(s[i], s[mm]) <= 0);
                                lemma_entry_trans(h, s[i], s[mm], s[jj]);
                            }
                        }
                    }
                }
            }
            break;
        }
        proof {
            let s = v@;
            let jj = j as int;
            let mm = m as int;
            let x = s[jj];
            let w = s[mm];
            let s2 = s.update(jj, w).update(mm, x);
            lemma_swap_multiset(s, jj, mm);
            if good {
                lemma_entry_antisym(h, w, x);
                assert(entry_cmp_spec(x, w) <= 0);
                assert forall|i: int|
                    1 <= i < s2.len() && (i - 1) / 2 != mm implies #[trigger] entry_cmp_spec(
                    s2[i],
                    s2[(i - 1) / 2],
                ) <= 0 by {
                    let par = (i - 1) / 2;
                    if i == mm {
                        assert(par == jj);
                        assert(s2[i] == x && s2[par] == w);
                    } else if i == jj {
                        assert(s2[i] == w && s2[par] == s[par]);
                        assert(entry_cmp_spec(s[mm], s[(jj - 1) / 2]) <= 0);
                    } else if par == jj {
                        assert(i == 2 * jj + 1 || i == 2 * jj + 2);
                        assert(s2[i] == s[i] && s2[par] == w);
                        assert(entry_cmp_spec(s[i], s[mm]) <= 0);
                    } else {
                        assert(s2[i] == s[i] && s2[par] == s[par]);
                        assert(entry_cmp_spec(s[i], s[par]) <= 0);
                    }
                }
                assert forall|cc: int|
                    1 <= cc < s2.len() && (cc - 1) / 2 == mm implies #[trigger] entry_cmp_spec(
                    s2[cc],
                    s2[(mm - 1) / 2],
                ) <= 0 by {
                    assert(cc >= 2 * mm + 1);
                    assert(s2[cc] == s[cc]);
                    assert((mm - 1) / 2 == jj);
                    assert(entry_cmp_spec(s[cc], s[mm]) <= 0);
                }
                assert(heap_except_down(s2, mm));
                assert(bridge_down(s2, mm));
            }
        }
        vec_swap(v, j, m);
        j = m;
    }
}

/// In a heap of entries sharing one lawful handle, the root ranks at or
/// above every entry.
pub proof fn lemma_root_is_max<T, D, C: Compare<T, D>>(
    s: Seq<Entry<T, C, D>>,
    h: CmpHandle<C, D>,
)
    requires
        s.len() > 0,
        all_bound(s, h),
        handle_lawful(h),
        heap_prop(s),
    ensures
        forall|i: int| 0 <= i < s.len() ==> #[trigger] entry_cmp_spec(s[i], s[0]) <= 0,
{
    assert forall|i: int| 0 <= i < s.len() implies #[trigger] entry_cmp_spec(s[i], s[0]) <= 0 by {
        lemma_below_root(s, h, i);
    }
}

/// Each entry ranks at or below the root, by walking its parent chain.
proof fn lemma_below_root<T, D, C: Compare<T, D>>(
    s: Seq<Entry<T, C, D>>,
    h: CmpHandle<C, D>,
    i: int,
)
    requires
        0 <= i < s.len(),
        all_bound(s, h),
        handle_lawful(h),
        heap_prop(s),
    ensures
        entry_cmp_spec(s[i], s[0]) <= 0,
    decreases i,
{
    if i == 0 {
        lemma_entry_antisym(h, s[0], s[0]);
    } else {
        let p = (i - 1) / 2;
        assert(entry_cmp_spec(s[i], s[p]) <= 0);
        lemma_below_root(s, h, p);
        lemma_entry_trans(h, s[i], s[p], s[0]);
    }
}

} // verus!
