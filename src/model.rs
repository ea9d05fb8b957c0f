//! The mathematical model of an [`Arena`](crate::Arena): what each slot
//! holds, its generation, and the order of the occupied slots, newest
//! first. Every operation of the arena is stated as a change of this model.
use vstd::prelude::*;

use crate::Index;
use vstd::set_lib::{lemma_int_range, lemma_len_subset, set_int_range};

verus! {

/// The generation a slot moves to when it is emptied: one more, wrapping
/// around to zero after the largest `usize`.
pub open spec fn next_generation(g: usize) -> usize {
    if g == usize::MAX {
        0
    } else {
        (g + 1) as usize
    }
}

/// Keeps the positions that are not in `gone`.
pub open spec fn kept_by(gone: Set<usize>) -> spec_fn(usize) -> bool {
    |q: usize| !gone.contains(q)
}

/// The content of an arena with `generations.len()` slots.
pub struct ArenaModel<T> {
    /// The current generation of each slot.
    pub generations: Seq<usize>,
    /// The item in each slot, `None` for a free slot.
    pub values: Seq<Option<T>>,
    /// The occupied slots, most recently inserted first.
    pub order: Seq<usize>,
}

impl<T> ArenaModel<T> {
    /// The number of slots.
    pub open spec fn capacity(self) -> nat {
        self.generations.len()
    }

    /// The number of items.
    pub open spec fn len(self) -> nat {
        self.order.len()
    }

    /// The order lists each occupied slot once, and only those.
    pub open spec fn wf(self) -> bool {
        &&& self.generations.len() <= usize::MAX
        &&& self.values.len() == self.generations.len()
        &&& self.order.no_duplicates()
        &&& forall|k: int| 0 <= k < self.order.len() ==> self.order[k] < self.generations.len()
        &&& forall|p: int|
            #![trigger self.values[p]]
            0 <= p < self.values.len() ==> (self.values[p] is Some <==> self.order.contains(
                p as usize,
            ))
    }

    /// A fresh arena: every slot free, at generation zero.
    pub open spec fn empty(capacity: nat) -> Self {
        ArenaModel {
            generations: Seq::new(capacity, |p: int| 0usize),
            values: Seq::new(capacity, |p: int| None),
            order: Seq::empty(),
        }
    }

    /// `i` names a slot of this arena, at that slot's current generation.
    pub open spec fn is_current(self, i: Index) -> bool {
        &&& i.spec_slot() < self.capacity()
        &&& self.generations[i.spec_slot() as int] == i.spec_generation()
    }

    /// The item that `i` names, if any.
    pub open spec fn get(self, i: Index) -> Option<T> {
        if self.is_current(i) {
            self.values[i.spec_slot() as int]
        } else {
            None
        }
    }

    /// An item can be inserted with `i`: it is current and its slot free.
    pub open spec fn accepts(self, i: Index) -> bool {
        self.is_current(i) && self.values[i.spec_slot() as int] is None
    }

    /// The arena after `v` is put in the slot of `i`, which becomes the
    /// newest item.
    pub open spec fn inserted(self, i: Index, v: T) -> Self {
        ArenaModel {
            generations: self.generations,
            values: self.values.update(i.spec_slot() as int, Some(v)),
            order: seq![i.spec_slot()].add(self.order),
        }
    }

    /// The arena after the item in the slot of `i` is replaced by `v`.
    pub open spec fn replaced(self, i: Index, v: T) -> Self {
        ArenaModel {
            generations: self.generations,
            values: self.values.update(i.spec_slot() as int, Some(v)),
            order: self.order,
        }
    }

    /// Slot `p` is occupied and its item is among those taken out.
    pub open spec fn leaves(self, gone: Set<usize>, p: int) -> bool {
        gone.contains(p as usize) && self.values[p] is Some
    }

    /// The arena after the items in the slots of `gone` are taken out:
    /// those slots become free, at their next generation, and the other
    /// items keep their order.
    pub open spec fn without(self, gone: Set<usize>) -> Self {
        ArenaModel {
            generations: Seq::new(
                self.generations.len(),
                |p: int|
                    if self.leaves(gone, p) {
                        next_generation(self.generations[p])
                    } else {
                        self.generations[p]
                    },
            ),
            values: Seq::new(
                self.values.len(),
                |p: int|
                    if self.leaves(gone, p) {
                        None
                    } else {
                        self.values[p]
                    },
            ),
            order: self.order.filter(kept_by(gone)),
        }
    }

    /// The arena after a removal with `i`: unchanged unless `i` names an item.
    pub open spec fn removed(self, i: Index) -> Self {
        if self.get(i) is Some {
            self.without(set![i.spec_slot()])
        } else {
            self
        }
    }

    /// `gone` holds exactly those occupied slots whose item `f` answered
    /// with `verdict`; `f` answered every other item the other way.
    pub open spec fn verdicts<F: Fn(&T) -> bool>(self, f: F, verdict: bool, gone: Set<usize>) -> bool {
        &&& forall|p: usize| gone.contains(p) ==> self.order.contains(p)
        &&& forall|k: int|
            #![trigger self.order[k]]
            0 <= k < self.order.len() ==> {
                let v = self.values[self.order[k] as int]->Some_0;
                &&& gone.contains(self.order[k]) ==> f.ensures((&v,), verdict)
                &&& !gone.contains(self.order[k]) ==> f.ensures((&v,), !verdict)
            }
    }

    /// The index of the item now in slot `p`.
    pub open spec fn index_at(self, p: usize) -> Index {
        Index::spec_new(p, self.generations[p as int])
    }

    /// The items with their indices, newest first.
    pub open spec fn entries(self) -> Seq<(Index, T)> {
        self.order.map_values(|p: usize| (self.index_at(p), self.values[p as int]->Some_0))
    }
}

/// An arena never holds more items than it has slots.
pub proof fn lemma_len_at_most_capacity<T>(m: ArenaModel<T>)
    requires
        m.wf(),
    ensures
        m.len() <= m.capacity(),
{
    let t = m.order.map_values(|x: usize| x as int);
    assert(t.no_duplicates()) by {
        assert forall|a: int, b: int| 0 <= a < t.len() && 0 <= b < t.len() && a != b implies t[a]
            != t[b] by {
            assert(m.order[a] != m.order[b]);
        }
    }
    let range = set_int_range(0, m.capacity() as int);
    assert(t.to_set().subset_of(range)) by {
        assert forall|x: int| t.to_set().contains(x) implies range.contains(x) by {
            let k = choose|k: int| 0 <= k < t.len() && t[k] == x;
            assert(m.order[k] < m.capacity());
        }
    }
    lemma_int_range(0, m.capacity() as int);
    t.unique_seq_to_set();
    lemma_len_subset(t.to_set(), range);
}

/// Filtering with a predicate that every element meets changes nothing.
pub proof fn lemma_filter_keeps_all<A>(s: Seq<A>, pred: spec_fn(A) -> bool)
    requires
        forall|i: int| 0 <= i < s.len() ==> pred(s[i]),
    ensures
        s.filter(pred) == s,
    decreases s.len(),
{
    reveal(Seq::filter);
    if s.len() > 0 {
        lemma_filter_keeps_all(s.drop_last(), pred);
        assert(s.drop_last().push(s.last()) =~= s);
    }
}

/// In a sequence without duplicates, filtering out the element at `k`
/// is removing position `k`.
pub proof fn lemma_filter_out_one(s: Seq<usize>, k: int)
    requires
        s.no_duplicates(),
        0 <= k < s.len(),
    ensures
        s.filter(kept_by(set![s[k]])) == s.remove(k),
{
    let pred = kept_by(set![s[k]]);
    let a = s.take(k);
    let b = seq![s[k]];
    let c = s.skip(k + 1);
    assert(s =~= a + (b + c));
    Seq::filter_distributes_over_add(a, b + c, pred);
    Seq::filter_distributes_over_add(b, c, pred);
    assert forall|i: int| 0 <= i < a.len() implies pred(a[i]) by {
        assert(s[i] != s[k]);
    }
    assert forall|i: int| 0 <= i < c.len() implies pred(c[i]) by {
        assert(s[k + 1 + i] != s[k]);
    }
    lemma_filter_keeps_all(a, pred);
    lemma_filter_keeps_all(c, pred);
    assert(b.drop_last() =~= Seq::<usize>::empty());
    reveal_with_fuel(Seq::filter, 2);
    assert(b.filter(pred) =~= Seq::<usize>::empty());
    assert(s.remove(k) =~= a + c);
}

/// Replacing the item at position `k` of the order leaves the entries
/// after `k` as they were.
pub proof fn lemma_entries_after_replace<T>(m: ArenaModel<T>, k: int)
    requires
        m.wf(),
        0 <= k < m.order.len(),
    ensures
        forall|v: T|
            #![trigger m.replaced(m.index_at(m.order[k]), v)]
            m.replaced(m.index_at(m.order[k]), v).entries().skip(k + 1) == m.entries().skip(k + 1),
{
    let p = m.order[k];
    assert forall|v: T|
        #![trigger m.replaced(m.index_at(m.order[k]), v)]
        m.replaced(m.index_at(m.order[k]), v).entries().skip(k + 1) == m.entries().skip(k + 1) by {
        let n = m.replaced(m.index_at(p), v);
        assert(m.index_at(p).spec_slot() == p);
        assert forall|j: int| k < j < m.order.len() implies #[trigger] n.entries()[j]
            == m.entries()[j] by {
            assert(m.order[j] != p);
        }
        assert(n.entries().skip(k + 1) =~= m.entries().skip(k + 1));
    }
}

/// Filtering twice is filtering once with both predicates.
pub proof fn lemma_filter_twice(s: Seq<usize>, a: Set<usize>, b: Set<usize>)
    ensures
        s.filter(kept_by(a)).filter(kept_by(b)) == s.filter(kept_by(a.union(b))),
    decreases s.len(),
{
    reveal(Seq::filter);
    if s.len() > 0 {
        lemma_filter_twice(s.drop_last(), a, b);
        let x = s.last();
        let once = s.drop_last().filter(kept_by(a));
        if kept_by(a)(x) {
            assert(once.push(x).drop_last() =~= once);
        }
    }
}

/// Taking out the items of `gone` and then the item of `p` is taking out
/// the items of both at once.
pub proof fn lemma_without_one_more<T>(m: ArenaModel<T>, gone: Set<usize>, p: usize)
    requires
        m.wf(),
        m.order.contains(p),
        !gone.contains(p),
    ensures
        m.without(gone).without(set![p]) == m.without(gone.insert(p)),
{
    let a = m.without(gone);
    let b = m.without(gone.insert(p));
    assert(m.values[p as int] is Some);
    assert(gone.union(set![p]) =~= gone.insert(p));
    lemma_filter_twice(m.order, gone, set![p]);
    assert(a.without(set![p]).generations =~= b.generations);
    assert(a.without(set![p]).values =~= b.values);
}

/// With `gone` drawn from the first `v` positions of the order, the order
/// after taking them out is what is left of those positions, followed by
/// the rest of the order unchanged.
pub proof fn lemma_order_split<T>(m: ArenaModel<T>, gone: Set<usize>, v: int)
    requires
        m.wf(),
        0 <= v <= m.order.len(),
        forall|p: usize| gone.contains(p) ==> m.order.take(v).contains(p),
    ensures
        m.without(gone).order == m.order.take(v).filter(kept_by(gone)) + m.order.skip(v),
{
    let s = m.order;
    assert(s =~= s.take(v) + s.skip(v));
    Seq::filter_distributes_over_add(s.take(v), s.skip(v), kept_by(gone));
    assert forall|i: int| 0 <= i < s.skip(v).len() implies kept_by(gone)(s.skip(v)[i]) by {
        if gone.contains(s[v + i]) {
            let j = choose|j: int| 0 <= j < v && s.take(v)[j] == s[v + i];
            assert(s[j] == s[v + i]);
        }
    }
    lemma_filter_keeps_all(s.skip(v), kept_by(gone));
}

} // verus!
