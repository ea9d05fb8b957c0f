//! Laws that relate the operations of an [`Arena`](crate::Arena), stated
//! over its model. Each operation's contract names the model it leaves
//! behind, so each law here speaks of the operations themselves.
use vstd::prelude::*;

use crate::model::{kept_by, lemma_filter_out_one, next_generation, ArenaModel};
use crate::Index;

verus! {

/// Inserting keeps the model well-formed.
pub proof fn lemma_inserted_wf<T>(m: ArenaModel<T>, i: Index, v: T)
    requires
        m.wf(),
        m.accepts(i),
    ensures
        m.inserted(i, v).wf(),
{
    let n = m.inserted(i, v);
    let p = i.spec_slot();
    assert(!m.order.contains(p)) by {
        assert(m.values[p as int] is None);
    }
    assert forall|q: int|
        #![trigger n.values[q]]
        0 <= q < n.values.len() implies (n.values[q] is Some <==> n.order.contains(q as usize)) by {
        if q != p {
            if m.order.contains(q as usize) {
                let k = choose|k: int| 0 <= k < m.order.len() && m.order[k] == q;
                assert(n.order[k + 1] == q);
            }
            if n.order.contains(q as usize) {
                let k = choose|k: int| 0 <= k < n.order.len() && n.order[k] == q;
                assert(m.order[k - 1] == q);
            }
        } else {
            assert(n.order[0] == p);
        }
    }
    assert forall|a: int, b: int| 0 <= a < n.order.len() && 0 <= b < n.order.len() && a != b implies n.order[a]
        != n.order[b] by {
        if a > 0 {
            assert(m.order.contains(n.order[a]));
        }
        if b > 0 {
            assert(m.order.contains(n.order[b]));
        }
    }
    assert forall|k: int| 0 <= k < n.order.len() implies n.order[k] < n.generations.len() by {
        if k > 0 {
            assert(n.order[k] == m.order[k - 1]);
        }
    }
}

/// The capacity never changes: no insertion, removal, replacement or
/// filtering alters the number of slots.
pub proof fn lemma_capacity_is_constant<T>(m: ArenaModel<T>, i: Index, v: T, gone: Set<usize>)
    ensures
        m.inserted(i, v).capacity() == m.capacity(),
        m.replaced(i, v).capacity() == m.capacity(),
        m.removed(i).capacity() == m.capacity(),
        m.without(gone).capacity() == m.capacity(),
{
}

/// An index whose item has been removed stays stale: looking it up,
/// removing with it again, or looking it up after another item has been
/// inserted (into that same slot, too) finds nothing.
pub proof fn lemma_removed_index_is_stale<T>(m: ArenaModel<T>, i: Index, j: Index, v: T)
    requires
        m.wf(),
        m.get(i) is Some,
    ensures
        m.removed(i).get(i) is None,
        m.removed(i).removed(i) == m.removed(i),
        m.removed(i).accepts(j) ==> m.removed(i).inserted(j, v).get(i) is None,
{
    let p = i.spec_slot();
    assert(m.leaves(set![p], p as int));
    assert(m.removed(i).generations[p as int] == next_generation(
        m.generations[p as int],
    ));
}

/// An insertion followed by a lookup finds the item; a removal then hands
/// it back, and a lookup after that finds nothing.
pub proof fn lemma_round_trip<T>(m: ArenaModel<T>, i: Index, v: T)
    requires
        m.wf(),
        m.accepts(i),
    ensures
        m.inserted(i, v).get(i) == Some(v),
        m.inserted(i, v).removed(i).get(i) is None,
{
    lemma_inserted_wf(m, i, v);
    lemma_removed_index_is_stale(m.inserted(i, v), i, i, v);
}

/// A new item comes first; the others follow in their order.
pub proof fn lemma_inserted_is_newest<T>(m: ArenaModel<T>, i: Index, v: T)
    requires
        m.wf(),
        m.accepts(i),
    ensures
        m.inserted(i, v).entries() == seq![(i, v)] + m.entries(),
{
    let n = m.inserted(i, v);
    let p = i.spec_slot();
    assert(!m.order.contains(p)) by {
        assert(m.values[p as int] is None);
    }
    assert(n.index_at(p) == i);
    assert forall|k: int| 0 <= k < m.order.len() implies n.entries()[k + 1] == m.entries()[k] by {
        assert(n.order[k + 1] == m.order[k]);
        assert(m.order[k] != p);
    }
    assert(n.entries() =~= seq![(i, v)] + m.entries());
}

/// The arena after the insertions of `items`, first to last.
pub open spec fn inserted_all<T>(m: ArenaModel<T>, items: Seq<(Index, T)>) -> ArenaModel<T>
    decreases items.len(),
{
    if items.len() == 0 {
        m
    } else {
        inserted_all(m, items.drop_last()).inserted(items.last().0, items.last().1)
    }
}

/// Each of `items`, in turn, can be inserted with its index.
pub open spec fn accepts_all<T>(m: ArenaModel<T>, items: Seq<(Index, T)>) -> bool
    decreases items.len(),
{
    items.len() == 0 || (accepts_all(m, items.drop_last()) && inserted_all(
        m,
        items.drop_last(),
    ).accepts(items.last().0))
}

/// After insertions with no removal in between, the items come newest
/// first: the inserted ones in reverse order of insertion, then the ones
/// that were there before.
pub proof fn lemma_insertions_newest_first<T>(m: ArenaModel<T>, items: Seq<(Index, T)>)
    requires
        m.wf(),
        accepts_all(m, items),
    ensures
        inserted_all(m, items).wf(),
        inserted_all(m, items).entries() == items.reverse() + m.entries(),
    decreases items.len(),
{
    if items.len() == 0 {
        assert(items.reverse() + m.entries() =~= m.entries());
    } else {
        let rest = items.drop_last();
        let (i, v) = items.last();
        lemma_insertions_newest_first(m, rest);
        let before = inserted_all(m, rest);
        lemma_inserted_wf(before, i, v);
        lemma_inserted_is_newest(before, i, v);
        assert(items.reverse() =~= seq![(i, v)] + rest.reverse());
        assert(seq![(i, v)] + (rest.reverse() + m.entries()) =~= items.reverse() + m.entries());
    }
}

/// Removing an item, wherever it stands, leaves the other items in the
/// order they had.
pub proof fn lemma_removal_keeps_order<T>(m: ArenaModel<T>, i: Index, k: int)
    requires
        m.wf(),
        m.get(i) is Some,
        0 <= k < m.order.len(),
        m.order[k] == i.spec_slot(),
    ensures
        m.removed(i).entries() == m.entries().remove(k),
{
    let p = i.spec_slot();
    let n = m.removed(i);
    lemma_filter_out_one(m.order, k);
    assert(n.order == m.order.remove(k));
    assert forall|j: int| 0 <= j < n.order.len() implies #[trigger] n.entries()[j]
        == m.entries().remove(k)[j] by {
        let q = n.order[j];
        if j < k {
            assert(q == m.order[j]);
        } else {
            assert(q == m.order[j + 1]);
        }
        assert(q != p);
        assert(!m.leaves(set![p], q as int));
    }
    assert(n.entries() =~= m.entries().remove(k));
}

/// Keeping the items that `keep` accepts leaves the same arena as
/// draining those that `drop`, its negation, accepts: the slots taken out
/// are the same, and so is what remains, in the same order.
pub proof fn lemma_retain_matches_drain<T, F: Fn(&T) -> bool, G: Fn(&T) -> bool>(
    m: ArenaModel<T>,
    keep: F,
    drop: G,
    retained_out: Set<usize>,
    drained: Set<usize>,
)
    requires
        m.wf(),
        forall|x: &T, b: bool| drop.ensures((x,), b) <==> keep.ensures((x,), !b),
        forall|x: &T| !(keep.ensures((x,), true) && keep.ensures((x,), false)),
        m.verdicts(keep, false, retained_out),
        m.verdicts(drop, true, drained),
    ensures
        retained_out == drained,
        m.without(retained_out) == m.without(drained),
{
    assert forall|p: usize| retained_out.contains(p) <==> drained.contains(p) by {
        if retained_out.contains(p) || drained.contains(p) {
            let k = choose|k: int| 0 <= k < m.order.len() && m.order[k] == p;
            assert(m.order[k] == p);
        }
    }
    assert(retained_out =~= drained);
}

/// One operation on an arena, as its contract describes it on the model.
///
/// `Insert` stands for `insert` and `insert_with_index`, `Replace` for a
/// write through `get_mut` or `iter_mut`, `Remove` for `remove`, and
/// `RemoveAll` for what `retain` or a drain leaves behind.
pub enum Step<T> {
    Insert(Index, T),
    Replace(Index, T),
    Remove(Index),
    RemoveAll(Set<usize>),
}

/// The arena after one step; a refused insertion or a write through an
/// index that names no item changes nothing.
pub open spec fn step<T>(m: ArenaModel<T>, s: Step<T>) -> ArenaModel<T> {
    match s {
        Step::Insert(i, v) => if m.accepts(i) {
            m.inserted(i, v)
        } else {
            m
        },
        Step::Replace(i, v) => if m.get(i) is Some {
            m.replaced(i, v)
        } else {
            m
        },
        Step::Remove(i) => m.removed(i),
        Step::RemoveAll(gone) => m.without(gone),
    }
}

/// The arena after `steps`, first to last.
pub open spec fn run<T>(m: ArenaModel<T>, steps: Seq<Step<T>>) -> ArenaModel<T>
    decreases steps.len(),
{
    if steps.len() == 0 {
        m
    } else {
        step(run(m, steps.drop_last()), steps.last())
    }
}

/// Generation `g` moved on `d` times, wrapping at most once.
pub open spec fn advanced(g: usize, d: int) -> int {
    if g + d <= usize::MAX {
        g + d
    } else {
        g + d - (usize::MAX + 1)
    }
}

/// The capacity never changes, whatever operations follow one another.
pub proof fn lemma_capacity_constant_over_runs<T>(m: ArenaModel<T>, steps: Seq<Step<T>>)
    ensures
        run(m, steps).capacity() == m.capacity(),
    decreases steps.len(),
{
    if steps.len() > 0 {
        lemma_capacity_constant_over_runs(m, steps.drop_last());
    }
}

/// Over `steps`, the generation of slot `p` moves on at most once per step.
proof fn lemma_generation_moves_on<T>(m: ArenaModel<T>, steps: Seq<Step<T>>, p: int) -> (d: int)
    requires
        0 <= p < m.capacity(),
        steps.len() < usize::MAX,
    ensures
        0 <= d <= steps.len(),
        run(m, steps).generations[p] == advanced(m.generations[p], d),
    decreases steps.len(),
{
    if steps.len() == 0 {
        0
    } else {
        let before = run(m, steps.drop_last());
        let d0 = lemma_generation_moves_on(m, steps.drop_last(), p);
        lemma_capacity_constant_over_runs(m, steps.drop_last());
        let g = before.generations[p];
        let after = step(before, steps.last());
        if after.generations[p] == g {
            d0
        } else {
            assert(after.generations[p] == next_generation(g));
            d0 + 1
        }
    }
}

/// An index whose item has been removed stays stale through any later
/// operations, inserts into the same slot included, as long as that slot's
/// generation has not wrapped around: here, fewer than `usize::MAX`
/// operations follow the removal.
pub proof fn lemma_removed_index_stale_over_runs<T>(
    m: ArenaModel<T>,
    i: Index,
    steps: Seq<Step<T>>,
)
    requires
        m.wf(),
        m.get(i) is Some,
        steps.len() < usize::MAX,
    ensures
        run(m.removed(i), steps).get(i) is None,
        run(m.removed(i), steps).removed(i) == run(m.removed(i), steps),
{
    let p = i.spec_slot() as int;
    let g = i.spec_generation();
    lemma_removed_index_is_stale(m, i, i, m.values[p]->Some_0);
    let after = m.removed(i);
    assert(after.generations[p] == advanced(g, 1));
    let d = lemma_generation_moves_on(after, steps, p);
    lemma_capacity_constant_over_runs(after, steps);
    let later = run(after, steps);
    assert(later.generations[p] == advanced(g, d + 1));
    assert(later.generations[p] != g);
}

} // verus!
