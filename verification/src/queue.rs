//! The priority queue façade: put, get, peek, replace, reverse and
//! comparator replacement over the ordering engine.

use crate::entry::{entry_cmp_spec, lemma_entry_antisym, Entry};
use crate::heap::{
    all_bound, distinct_ctrs, heap_except_up, heap_prop, lemma_perm_distinct_ctrs,
    lemma_root_is_max, sift_down, sift_up,
};
use crate::order::{handle_lawful, CmpBase, CmpHandle, Compare};
use std::rc::Rc;
use vstd::prelude::*;

verus! {

broadcast use
    vstd::seq_lib::group_to_multiset_ensures,
    vstd::multiset::group_multiset_axioms,
;

/// A priority queue: a max-heap of entries, the comparator installation
/// that future insertions will be bound to, and the next insertion counter.
///
/// The ghost `ordered` flag records whether every live entry is still bound
/// to the current comparator installation: it is set when the queue is
/// created, emptied or rebuilt, and cleared when a comparator is installed
/// over live entries. While it holds, and the installed comparator obeys
/// the comparator laws, the heap property holds and the root entry ranks
/// highest.
pub struct PriorityQueue<T, D, C> {
    compare: CmpHandle<C, D>,
    insertion_ctr: usize,
    array: Vec<Entry<T, C, D>>,
    ordered: Ghost<bool>,
}

impl<T, D, C> View for PriorityQueue<T, D, C> {
    type V = Seq<Entry<T, C, D>>;

    closed spec fn view(&self) -> Seq<Entry<T, C, D>> {
        self.array@
    }
}

/// The entries of `s` rebuilt for a reversal: each keeps its element, is
/// bound to the handle `h`, and receives the counter `start + (s.len() - 1
/// - i)` at position `i`. Counters are handed out in reverse position
/// order: the order in which the rebuild drains the array. Relative
/// insertion order among entries the comparator ties is therefore not
/// preserved across a reversal.
pub open spec fn rebuilt_entries<T, D, C: Compare<T, D>>(
    s: Seq<Entry<T, C, D>>,
    h: CmpHandle<C, D>,
    start: usize,
) -> Seq<Entry<T, C, D>> {
    Seq::new(
        s.len(),
        |i: int| Entry { ctr: (start + s.len() - 1 - i) as usize, data: s[i].data, cmp: h },
    )
}

impl<T, D, C: Compare<T, D>> PriorityQueue<T, D, C> {
    /// The comparator installation that future insertions are bound to.
    pub closed spec fn comparator(self) -> CmpHandle<C, D> {
        self.compare
    }

    /// The insertion counter the next entry will receive.
    pub closed spec fn next_ctr(self) -> usize {
        self.insertion_ctr
    }

    /// Whether every live entry is bound to the current comparator
    /// installation, so that the ordering guarantees apply.
    pub closed spec fn ordered(self) -> bool {
        self.ordered@
    }

    /// Well-formedness: live entries carry pairwise distinct counters below
    /// the next one, and while `ordered` holds they are all bound to the
    /// current comparator installation and, if it obeys the comparator laws,
    /// form a max-heap.
    pub closed spec fn wf(self) -> bool {
        &&& forall|i: int|
            0 <= i < self@.len() ==> (#[trigger] self@[i]).ctr < self.insertion_ctr
        &&& distinct_ctrs(self@)
        &&& self.ordered@ ==> all_bound(self@, self.compare)
        &&& self.ordered@ && handle_lawful(self.compare) ==> heap_prop(self@)
    }

    /// An empty queue with no comparator configured: elements will rank by
    /// insertion order alone, most recent first.
    pub fn new() -> (q: Self)
        ensures
            q.wf(),
            q@ == Seq::<Entry<T, C, D>>::empty(),
            q.next_ctr() == 0,
            q.comparator().base.user is None,
            q.comparator().base.ctx is None,
            !q.comparator().rev,
            q.ordered(),
    {
        PriorityQueue {
            compare: CmpHandle { base: Rc::new(CmpBase { user: None, ctx: None }), rev: false },
            insertion_ctr: 0,
            array: Vec::new(),
            ordered: Ghost(true),
        }
    }

    /// Install a comparator (or none) and its context as the queue's
    /// current installation, used by all future insertions. Entries already
    /// queued are left exactly as they are: they stay bound to the
    /// installation under which they were inserted, so they are not
    /// re-ranked relative to each other.
    pub fn set_comparator(&mut self, compare: Option<C>, cb_data: Option<D>)
        requires
            old(self).wf(),
        ensures
            final(self).wf(),
            final(self)@ == old(self)@,
            final(self).next_ctr() == old(self).next_ctr(),
            final(self).comparator().base.user == compare,
            final(self).comparator().base.ctx == cb_data,
            final(self).comparator().rev == false,
            final(self).ordered() == (old(self)@.len() == 0),
    {
        let empty = self.array.len() == 0;
        self.compare = CmpHandle {
            base: Rc::new(CmpBase { user: compare, ctx: cb_data }),
            rev: false,
        };
        self.ordered = Ghost(empty);
    }

    /// Insert an element: it is wrapped in an entry carrying the next
    /// insertion counter and the current comparator installation, and sifted
    /// into place.
    pub fn put(&mut self, thing: T)
        requires
            old(self).wf(),
            old(self).next_ctr() < usize::MAX,
        ensures
            final(self).wf(),
            final(self).comparator() == old(self).comparator(),
            final(self).next_ctr() == old(self).next_ctr() + 1,
            final(self)@.len() == old(self)@.len() + 1,
            final(self)@.to_multiset() == old(self)@.to_multiset().insert(
                (Entry {
                    ctr: old(self).next_ctr(),
                    data: thing,
                    cmp: old(self).comparator(),
                }),
            ),
            final(self).ordered() == (old(self).ordered() || old(self)@.len() == 0),
    {
        let ghost pre = self.array@;
        let ghost was_empty = pre.len() == 0;
        let e = Entry { ctr: self.insertion_ctr, data: thing, cmp: self.compare.duplicate() };
        self.array.push(e);
        proof {
            let s = self.array@;
            assert(s == pre.push(e));
            let j = s.len() - 1;
            if self.ordered@ && handle_lawful(self.compare) {
                assert forall|i: int|
                    1 <= i < s.len() && i != j implies #[trigger] entry_cmp_spec(
                    s[i],
                    s[(i - 1) / 2],
                ) <= 0 by {
                    assert(s[i] == pre[i] && s[(i - 1) / 2] == pre[(i - 1) / 2]);
                    assert(entry_cmp_spec(pre[i], pre[(i - 1) / 2]) <= 0);
                }
                assert(heap_except_up(s, j));
            }
        }
        let idx = self.array.len() - 1;
        sift_up(&mut self.array, idx, Ghost(self.compare));
        self.insertion_ctr = self.insertion_ctr + 1;
        let ghost now = self.ordered@ || was_empty;
        self.ordered = Ghost(now);
        proof {
            let s = pre.push(e);
            assert forall|i: int|
                0 <= i < self@.len() implies (#[trigger] self@[i]).ctr < self.insertion_ctr by {
                assert(s.contains(self@[i]));
                let k = choose|k: int| 0 <= k < s.len() && s[k] == self@[i];
                if k < pre.len() {
                    assert(pre[k].ctr < self.insertion_ctr);
                } else {
                    assert(s[k] == e);
                }
            }
            assert forall|i: int, j: int|
                #![trigger s[i], s[j]]
                0 <= i < j < s.len() implies s[i].ctr != s[j].ctr by {
                if j < pre.len() {
                    assert(s[i] == pre[i] && s[j] == pre[j]);
                } else {
                    assert(s[j] == e && s[i] == pre[i]);
                }
            }
            lemma_perm_distinct_ctrs(s, self@);
            if self.ordered@ {
                assert forall|i: int|
                    0 <= i < self@.len() implies (#[trigger] self@[i]).cmp == self.compare by {
                    if !(old(self).ordered()) {
                        assert(s.contains(self@[i]));
                        let k = choose|k: int| 0 <= k < s.len() && s[k] == self@[i];
                        assert(pre.len() == 0);
                        assert(s[k] == e);
                    }
                }
                if handle_lawful(self.compare) {
                    if !(old(self).ordered()) {
                        assert(self@.len() == 1);
                    }
                }
            }
        }
    }

    /// Remove and return the element of the root entry, or nothing when the
    /// queue is empty.
    pub fn get(&mut self) -> (r: Option<T>)
        requires
            old(self).wf(),
        ensures
            final(self).wf(),
            final(self).comparator() == old(self).comparator(),
            final(self).next_ctr() == old(self).next_ctr(),
            final(self).ordered() == (old(self).ordered() || old(self)@.len() <= 1),
            old(self)@.len() == 0 ==> r is None && final(self)@ == old(self)@,
            old(self)@.len() > 0 ==> r == Some(old(self)@[0].data)
                && final(self)@.len() == old(self)@.len() - 1
                && final(self)@.to_multiset() == old(self)@.to_multiset().remove(old(self)@[0]),
    {
        let ghost pre = self.array@;
        if self.array.len() == 0 {
            self.ordered = Ghost(true);
            return None;
        }
        let top = self.array.swap_remove(0);
        proof {
            let s1 = pre.update(0, pre.last());
            let s = self.array@;
            assert(s == s1.drop_last());
            assert(s1.drop_last() =~= s1.remove(s1.len() - 1));
            assert(s1.to_multiset() == pre.to_multiset().insert(pre.last()).remove(pre[0]));
            assert(s1[s1.len() - 1] == pre.last());
            assert(s.to_multiset() == s1.to_multiset().remove(pre.last()));
            assert(pre.to_multiset().count(pre[0]) > 0);
            assert(pre.to_multiset().count(pre.last()) > 0);
            assert(s.to_multiset() =~= pre.to_multiset().remove(pre[0]));
            assert forall|i: int| 0 <= i < s.len() implies pre.contains(#[trigger] s[i]) by {
                if i == 0 {
                    assert(s[i] == pre.last());
                } else {
                    assert(s[i] == pre[i]);
                }
            }
            assert forall|i: int, j: int|
                #![trigger s[i], s[j]]
                0 <= i < j < s.len() implies s[i].ctr != s[j].ctr by {
                assert(s[j] == pre[j]);
                if i == 0 {
                    assert(s[i] == pre.last());
                    assert(pre[j].ctr != pre[pre.len() - 1].ctr);
                } else {
                    assert(s[i] == pre[i]);
                }
            }
            assert(distinct_ctrs(s));
            if self.ordered@ && handle_lawful(self.compare) {
                assert forall|i: int|
                    1 <= i < s.len() && (i - 1) / 2 != 0 implies #[trigger] entry_cmp_spec(
                    s[i],
                    s[(i - 1) / 2],
                ) <= 0 by {
                    assert((i - 1) / 2 >= 1);
                    assert(s[i] == pre[i] && s[(i - 1) / 2] == pre[(i - 1) / 2]);
                    assert(entry_cmp_spec(pre[i], pre[(i - 1) / 2]) <= 0);
                }
            }
        }
        if self.array.len() > 0 {
            sift_down(&mut self.array, Ghost(self.compare));
        }
        proof {
            lemma_perm_distinct_ctrs(pre.update(0, pre.last()).drop_last(), self@);
            assert forall|i: int|
                0 <= i < self@.len() implies (#[trigger] self@[i]).ctr < self.insertion_ctr by {
                assert(pre.contains(self@[i]));
                let k = choose|k: int| 0 <= k < pre.len() && pre[k] == self@[i];
            }
            if self.ordered@ {
                assert forall|i: int|
                    0 <= i < self@.len() implies (#[trigger] self@[i]).cmp == self.compare by {
                    assert(pre.contains(self@[i]));
                    let k = choose|k: int| 0 <= k < pre.len() && pre[k] == self@[i];
                }
            }
        }
        let ghost now = self.ordered@ || pre.len() <= 1;
        self.ordered = Ghost(now);
        proof {
            if self.ordered@ && handle_lawful(self.compare) && !(old(self).ordered()) {
                assert(pre.len() <= 1);
                assert(self@.len() == 0);
            }
        }
        Some(top.data)
    }

    /// How many entries are live.
    pub fn len(&self) -> (n: usize)
        ensures
            n == self@.len(),
    {
        self.array.len()
    }

    /// The insertion counter the next entry will receive.
    pub fn next_counter(&self) -> (n: usize)
        ensures
            n == self.next_ctr(),
    {
        self.insertion_ctr
    }

    /// A read-only view of the root entry's element, or nothing when the
    /// queue is empty. The queue is not changed.
    pub fn peek(&self) -> (r: Option<&T>)
        ensures
            self@.len() == 0 ==> r is None,
            self@.len() > 0 ==> (r matches Some(d) && *d == self@[0].data),
    {
        if self.array.len() == 0 {
            None
        } else {
            Some(&self.array[0].data)
        }
    }

    /// Overwrite the root entry in place with a fresh entry for `thing`
    /// (next counter, current comparator installation) and restore the heap
    /// by a single sift; on an empty queue this degrades to `put`.
    pub fn replace(&mut self, thing: T)
        requires
            old(self).wf(),
            old(self).next_ctr() < usize::MAX,
        ensures
            final(self).wf(),
            final(self).comparator() == old(self).comparator(),
            final(self).next_ctr() == old(self).next_ctr() + 1,
            final(self).ordered() == (old(self).ordered() || old(self)@.len() <= 1),
            old(self)@.len() == 0 ==> final(self)@.len() == 1 && final(self)@.to_multiset()
                == old(self)@.to_multiset().insert(
                (Entry {
                    ctr: old(self).next_ctr(),
                    data: thing,
                    cmp: old(self).comparator(),
                }),
            ),
            old(self)@.len() > 0 ==> final(self)@.len() == old(self)@.len()
                && final(self)@.to_multiset() == old(self)@.to_multiset().remove(old(self)@[0]).insert(
                (Entry {
                    ctr: old(self).next_ctr(),
                    data: thing,
                    cmp: old(self).comparator(),
                }),
            ),
    {
        if self.array.len() == 0 {
            self.put(thing);
            return;
        }
        let ghost pre = self.array@;
        let e = Entry { ctr: self.insertion_ctr, data: thing, cmp: self.compare.duplicate() };
        let slot = &mut self.array[0];
        *slot = e;
        self.insertion_ctr = self.insertion_ctr + 1;
        proof {
            let s = self.array@;
            assert(s == pre.update(0, e));
            assert(s.to_multiset() == pre.to_multiset().insert(e).remove(pre[0]));
            assert(pre.to_multiset().count(pre[0]) > 0);
            assert(s.to_multiset() =~= pre.to_multiset().remove(pre[0]).insert(e));
            if self.ordered@ && handle_lawful(self.compare) {
                assert forall|i: int|
                    1 <= i < s.len() && (i - 1) / 2 != 0 implies #[trigger] entry_cmp_spec(
                    s[i],
                    s[(i - 1) / 2],
                ) <= 0 by {
                    assert((i - 1) / 2 >= 1);
                    assert(s[i] == pre[i] && s[(i - 1) / 2] == pre[(i - 1) / 2]);
                    assert(entry_cmp_spec(pre[i], pre[(i - 1) / 2]) <= 0);
                }
            }
        }
        sift_down(&mut self.array, Ghost(self.compare));
        proof {
            let s = pre.update(0, e);
            assert forall|i: int, j: int|
                #![trigger s[i], s[j]]
                0 <= i < j < s.len() implies s[i].ctr != s[j].ctr by {
                assert(s[j] == pre[j]);
                if i == 0 {
                    assert(s[i] == e);
                    assert(pre[j].ctr < e.ctr);
                } else {
                    assert(s[i] == pre[i]);
                }
            }
            lemma_perm_distinct_ctrs(s, self@);
            assert forall|i: int|
                0 <= i < self@.len() implies (#[trigger] self@[i]).ctr < self.insertion_ctr by {
                assert(s.contains(self@[i]));
                let k = choose|k: int| 0 <= k < s.len() && s[k] == self@[i];
                if k == 0 {
                    assert(s[k] == e);
                } else {
                    assert(s[k] == pre[k]);
                }
            }
            if self.ordered@ {
                assert forall|i: int|
                    0 <= i < self@.len() implies (#[trigger] self@[i]).cmp == self.compare by {
                    assert(s.contains(self@[i]));
                    let k = choose|k: int| 0 <= k < s.len() && s[k] == self@[i];
                    if k != 0 {
                        assert(s[k] == pre[k]);
                        if !(old(self).ordered()) {
                            assert(pre.len() == 1);
                        }
                    }
                }
            }
        }
        let ghost now = self.ordered@ || pre.len() <= 1;
        self.ordered = Ghost(now);
        proof {
            if self.ordered@ && handle_lawful(self.compare) && !(old(self).ordered()) {
                assert(pre.len() == 1);
                assert(self@.len() == 1);
            }
        }
    }

    /// Flip the ranking polarity of the current comparator installation and
    /// apply it retroactively: every live entry is drained (in reverse
    /// position order), rebuilt with the flipped installation and a freshly
    /// assigned counter, and reinserted, so the heap is ordered by the
    /// flipped installation throughout.
    pub fn reverse(&mut self)
        requires
            old(self).wf(),
            old(self).next_ctr() + old(self)@.len() <= usize::MAX,
        ensures
            final(self).wf(),
            final(self).comparator().base == old(self).comparator().base,
            final(self).comparator().rev == !old(self).comparator().rev,
            final(self).next_ctr() == old(self).next_ctr() + old(self)@.len(),
            final(self)@.len() == old(self)@.len(),
            final(self)@.to_multiset() == rebuilt_entries(
                old(self)@,
                final(self).comparator(),
                old(self).next_ctr(),
            ).to_multiset(),
            final(self).ordered(),
    {
        let ghost pre = self.array@;
        let ghost start = self.insertion_ctr;
        let h2 = self.compare.reversed();
        self.compare = h2;
        let ghost target = rebuilt_entries(pre, self.compare, start);
        let mut rebuilt: Vec<Entry<T, C, D>> = Vec::new();
        loop
            invariant
                self.compare == h2,
                h2.base == old(self).comparator().base,
                h2.rev == !old(self).comparator().rev,
                self.array@.len() <= pre.len(),
                self.array@ == pre.subrange(0, self.array@.len() as int),
                self.insertion_ctr == start + (pre.len() - self.array@.len()),
                start + pre.len() <= usize::MAX,
                rebuilt@.len() == pre.len() - self.array@.len(),
                rebuilt@.to_multiset() == target.subrange(
                    self.array@.len() as int,
                    pre.len() as int,
                ).to_multiset(),
                all_bound(rebuilt@, self.compare),
                handle_lawful(self.compare) ==> heap_prop(rebuilt@),
                forall|i: int|
                    0 <= i < rebuilt@.len() ==> (#[trigger] rebuilt@[i]).ctr
                        < self.insertion_ctr,
                target == rebuilt_entries(pre, self.compare, start),
            ensures
                self.array@.len() == 0,
            decreases self.array@.len(),
        {
            if self.array.len() == 0 {
                break;
            }
            let ghost before = self.array@;
            let en = self.array.pop().unwrap();
            let ghost k = self.array@.len() as int;
            proof {
                assert(self.array@ == before.subrange(0, before.len() - 1));
                assert(self.array@ =~= pre.subrange(0, k));
                assert(en == before[k]);
                assert(en == pre[k]);
            }
            let e2 = Entry {
                ctr: self.insertion_ctr,
                data: en.data,
                cmp: self.compare.duplicate(),
            };
            let ghost rpre = rebuilt@;
            rebuilt.push(e2);
            proof {
                let s = rebuilt@;
                assert(s == rpre.push(e2));
                let j = s.len() - 1;
                if handle_lawful(self.compare) {
                    assert forall|i: int|
                        1 <= i < s.len() && i != j implies #[trigger] entry_cmp_spec(
                        s[i],
                        s[(i - 1) / 2],
                    ) <= 0 by {
                        assert(s[i] == rpre[i] && s[(i - 1) / 2] == rpre[(i - 1) / 2]);
                        assert(entry_cmp_spec(rpre[i], rpre[(i - 1) / 2]) <= 0);
                    }
                    assert(heap_except_up(s, j));
                }
            }
            let idx = rebuilt.len() - 1;
            sift_up(&mut rebuilt, idx, Ghost(self.compare));
            self.insertion_ctr = self.insertion_ctr + 1;
            proof {
                let s = rpre.push(e2);
                assert(e2 == target[k]);
                assert(target.subrange(k, pre.len() as int) =~= seq![target[k]]
                    + target.subrange(k + 1, pre.len() as int));
                let tail = target.subrange(k + 1, pre.len() as int);
                assert(tail.insert(0, target[k]) =~= seq![target[k]] + tail);
                assert((seq![target[k]] + tail).to_multiset() == tail.to_multiset().insert(
                    target[k],
                ));
                assert(rebuilt@.to_multiset() == rpre.to_multiset().insert(e2));
                assert(rebuilt@.to_multiset() == target.subrange(
                    k,
                    pre.len() as int,
                ).to_multiset());
                assert forall|i: int|
                    0 <= i < rebuilt@.len() implies (#[trigger] rebuilt@[i]).ctr
                    < self.insertion_ctr by {
                    assert(s.contains(rebuilt@[i]));
                    let kk = choose|kk: int| 0 <= kk < s.len() && s[kk] == rebuilt@[i];
                    if kk < rpre.len() {
                        assert(s[kk] == rpre[kk]);
                    } else {
                        assert(s[kk] == e2);
                    }
                }
                assert forall|i: int|
                    0 <= i < rebuilt@.len() implies (#[trigger] rebuilt@[i]).cmp
                    == self.compare by {
                    assert(s.contains(rebuilt@[i]));
                    let kk = choose|kk: int| 0 <= kk < s.len() && s[kk] == rebuilt@[i];
                }
            }
        }
        proof {
            assert(target.subrange(0, pre.len() as int) =~= target);
            assert forall|i: int, j: int|
                #![trigger target[i], target[j]]
                0 <= i < j < target.len() implies target[i].ctr != target[j].ctr by {
                assert(target[i].ctr == (start + pre.len() - 1 - i) as usize);
                assert(target[j].ctr == (start + pre.len() - 1 - j) as usize);
            }
            lemma_perm_distinct_ctrs(target, rebuilt@);
        }
        self.array = rebuilt;
        self.ordered = Ghost(true);
    }
}

/// While the queue's order guarantee is intact and the installed comparator
/// obeys the comparator laws, no live entry ranks above the root entry — so
/// `peek` and `get`, which both answer with the root entry's element, answer
/// with a highest-ranked one.
pub proof fn lemma_root_ranks_highest<T, D, C: Compare<T, D>>(q: PriorityQueue<T, D, C>)
    requires
        q.wf(),
        q.ordered(),
        handle_lawful(q.comparator()),
        q@.len() > 0,
    ensures
        forall|i: int| 0 <= i < q@.len() ==> #[trigger] entry_cmp_spec(q@[i], q@[0]) <= 0,
{
    lemma_root_is_max(q@, q.comparator());
}

/// Two queues that hold the same entries, with intact order guarantees
/// under one lawful comparator installation, agree on the root entry: the
/// highest-ranked entry is unique, so whatever array layout each heap has,
/// `peek`, `get` and `replace` act on the same entry in both. In particular
/// a queue built by `replace` on an empty queue holds the same entries as
/// one built by `put`, and a queue changed by `replace` holds the same
/// entries as one that removed its root and then inserted the element, so
/// the subsequent outputs agree as well.
pub proof fn lemma_same_entries_same_root<T, D, C: Compare<T, D>>(
    q1: PriorityQueue<T, D, C>,
    q2: PriorityQueue<T, D, C>,
)
    requires
        q1.wf(),
        q2.wf(),
        q1.ordered(),
        q2.ordered(),
        q1.comparator() == q2.comparator(),
        handle_lawful(q1.comparator()),
        q1@.to_multiset() == q2@.to_multiset(),
        q1@.len() > 0,
    ensures
        q2@.len() > 0,
        q1@[0] == q2@[0],
{
    let h = q1.comparator();
    assert(q1@.to_multiset().len() == q1@.len());
    assert(q2@.to_multiset().len() == q2@.len());
    assert(q2@.len() == q1@.len());
    let r1 = q1@[0];
    let r2 = q2@[0];
    lemma_root_is_max(q1@, h);
    lemma_root_is_max(q2@, h);
    // Each root sits somewhere in the other queue, so each ranks at or
    // below the other.
    assert(q1@.contains(r1));
    assert(q2@.to_multiset().count(r1) > 0);
    assert(q2@.contains(r1));
    let k2 = choose|k: int| 0 <= k < q2@.len() && q2@[k] == r1;
    assert(entry_cmp_spec(q2@[k2], q2@[0]) <= 0);
    assert(q2@.contains(r2));
    assert(q1@.to_multiset().count(r2) > 0);
    assert(q1@.contains(r2));
    let k1 = choose|k: int| 0 <= k < q1@.len() && q1@[k] == r2;
    assert(entry_cmp_spec(q1@[k1], q1@[0]) <= 0);
    lemma_entry_antisym(h, r1, r2);
    assert(entry_cmp_spec(r1, r2) == 0);
    // A tied ranking means equal insertion counters, and counters are
    // pairwise distinct within one queue.
    assert(r1.ctr == r2.ctr);
    if r1 != r2 {
        assert(k1 != 0);
        assert(q1@[0].ctr != q1@[k1].ctr);
        assert(false);
    }
}

/// With no comparator configured and the polarity unflipped, the root entry
/// is a most recently inserted one: the queue behaves as a last-in,
/// first-out stack.
pub proof fn lemma_default_most_recent_first<T, D, C: Compare<T, D>>(q: PriorityQueue<T, D, C>)
    requires
        q.wf(),
        q.ordered(),
        q.comparator().base.user is None,
        !q.comparator().rev,
        q@.len() > 0,
    ensures
        forall|i: int| 0 <= i < q@.len() ==> (#[trigger] q@[i]).ctr <= q@[0].ctr,
{
    lemma_root_is_max(q@, q.comparator());
    assert forall|i: int| 0 <= i < q@.len() implies (#[trigger] q@[i]).ctr <= q@[0].ctr by {
        assert(entry_cmp_spec(q@[i], q@[0]) <= 0);
        assert(q@[i].cmp == q.comparator());
    }
}

} // verus!
