use std::collections::HashMap;

use vstd::prelude::*;

use crate::astar_state::{key_space, lemma_key_space_bound, AStarState};

verus! {

/// The heap position of the parent of position `i`.
pub open spec fn parent(i: int) -> int {
    (i - 1) / 2
}

/// Position `a` lies on the way from position `i` up to the root.
pub open spec fn on_path(a: int, i: int) -> bool
    decreases i,
{
    if i <= 0 {
        a == i
    } else {
        a == i || on_path(a, parent(i))
    }
}

/// The parent of a position on the way up from `i` is on that way too.
proof fn lemma_parent_on_path(a: int, i: int)
    requires
        on_path(a, i),
        a > 0,
    ensures
        on_path(parent(a), i),
    decreases i,
{
    if i > 0 && a != i {
        lemma_parent_on_path(a, parent(i));
    }
    if a == i {
        assert(on_path(parent(i), parent(i)));
    }
}

/// Every position's cost is at least its parent's: the root holds a minimum.
pub open spec fn is_heap(costs: Seq<usize>) -> bool {
    forall|i: int| 0 < i < costs.len() ==> costs[parent(i)] <= #[trigger] costs[i]
}

/// `k` is an entry of `m` whose cost no other entry undercuts.
pub open spec fn is_min_entry<V>(m: Map<u64, (V, usize)>, k: u64) -> bool {
    &&& m.contains_key(k)
    &&& forall|j: u64| #[trigger] m.contains_key(j) ==> m[k].1 <= m[j].1
}

/// The entries after `value` is offered under `key` at cost `cost`: it takes
/// the key's place unless an entry that costs no more already holds it.
pub open spec fn offer<V>(m: Map<u64, (V, usize)>, key: u64, value: V, cost: usize) -> Map<
    u64,
    (V, usize),
> {
    if m.contains_key(key) && m[key].1 <= cost {
        m
    } else {
        m.insert(key, (value, cost))
    }
}

/// The entries after each of `states` whose key is not in `closed` is
/// offered in turn, under its key and at its cost `f`.
pub open spec fn relaxed<V: AStarState>(
    m: Map<u64, (V, usize)>,
    closed: Set<u64>,
    states: Seq<V>,
) -> Map<u64, (V, usize)>
    decreases states.len(),
{
    if states.len() == 0 {
        m
    } else {
        let before = relaxed(m, closed, states.drop_last());
        let s = states.last();
        if closed.contains(s.spec_key()) {
            before
        } else {
            offer(before, s.spec_key(), s, s.spec_f())
        }
    }
}

/// What holds of every entry and of every offered state, under its key,
/// holds of every entry after relaxing, and no entry takes a closed key.
pub proof fn lemma_relaxed_keeps<V: AStarState>(
    m: Map<u64, (V, usize)>,
    closed: Set<u64>,
    states: Seq<V>,
    holds: spec_fn(u64, V) -> bool,
)
    requires
        forall|k: u64| #[trigger]
            m.contains_key(k) ==> !closed.contains(k) && holds(k, m[k].0) && m[k].1
                == m[k].0.spec_f(),
        forall|i: int| 0 <= i < states.len() ==> holds((#[trigger] states[i]).spec_key(), states[i]),
    ensures
        forall|k: u64| #[trigger]
            relaxed(m, closed, states).contains_key(k) ==> !closed.contains(k) && holds(
                k,
                relaxed(m, closed, states)[k].0,
            ) && relaxed(m, closed, states)[k].1 == relaxed(m, closed, states)[k].0.spec_f(),
    decreases states.len(),
{
    if states.len() > 0 {
        let rest = states.drop_last();
        assert forall|i: int| 0 <= i < rest.len() implies holds((#[trigger] rest[i]).spec_key(), rest[i]) by {
            assert(rest[i] == states[i]);
        }
        lemma_relaxed_keeps(m, closed, rest, holds);
        let before = relaxed(m, closed, rest);
        let last = states.last();
        assert(holds(last.spec_key(), last));
        assert forall|k: u64| #[trigger]
            relaxed(m, closed, states).contains_key(k) implies !closed.contains(k) && holds(
                k,
                relaxed(m, closed, states)[k].0,
            ) && relaxed(m, closed, states)[k].1 == relaxed(m, closed, states)[k].0.spec_f() by {
            if k != last.spec_key() || closed.contains(last.spec_key()) {
                assert(before.contains_key(k));
            }
        }
    }
}

/// Offering a key twice keeps the cheaper of the two offers, and the earlier
/// one on a tie: a lower cost replaces the entry, a higher one changes nothing.
pub proof fn lemma_decrease_key<V>(
    m: Map<u64, (V, usize)>,
    key: u64,
    first: V,
    first_cost: usize,
    second: V,
    second_cost: usize,
)
    requires
        !m.contains_key(key),
    ensures
        second_cost < first_cost ==> offer(offer(m, key, first, first_cost), key, second, second_cost)
            == m.insert(key, (second, second_cost)),
        first_cost <= second_cost ==> offer(offer(m, key, first, first_cost), key, second, second_cost)
            == m.insert(key, (first, first_cost)),
{
    assert(offer(m, key, first, first_cost) == m.insert(key, (first, first_cost)));
    if second_cost < first_cost {
        assert(m.insert(key, (first, first_cost)).insert(key, (second, second_cost)) =~= m.insert(
            key,
            (second, second_cost),
        ));
    }
}

/// Taking minimum entries one after another yields costs that never decrease.
pub proof fn lemma_extraction_order<V>(m: Map<u64, (V, usize)>, first: u64, second: u64)
    requires
        is_min_entry(m, first),
        is_min_entry(m.remove(first), second),
    ensures
        m[first].1 <= m.remove(first)[second].1,
{
    assert(m.contains_key(second));
}

/// A minimum entry of an open list that holds no closed key is not closed
/// yet: closing it adds a key to the closed set. So no key is expanded twice,
/// and as there are at most `key_space()` keys, expansion comes to an end.
pub proof fn lemma_expansion_closes_new_key<V>(
    open: Map<u64, (V, usize)>,
    closed: Set<u64>,
    key: u64,
)
    requires
        closed.finite(),
        forall|k: u64| #[trigger] open.contains_key(k) ==> !closed.contains(k),
        is_min_entry(open, key),
    ensures
        !closed.contains(key),
        closed.insert(key).len() == closed.len() + 1,
        closed.insert(key).len() <= key_space(),
{
    lemma_key_space_bound(closed.insert(key));
}

/// Relies on `<[T]>::swap`: the elements at positions `i` and `j` trade places.
#[verifier::external_body]
fn swap_slots<T>(v: &mut Vec<T>, i: usize, j: usize)
    requires
        i < old(v).len(),
        j < old(v).len(),
    ensures
        final(v)@ == old(v)@.update(i as int, old(v)@[j as int]).update(j as int, old(v)@[i as int]),
{
    v.swap(i, j);
}

struct Slot<V> {
    key: u64,
    cost: usize,
    state: V,
}

/// The frontier of the search: a binary min-heap of states ordered by the cost
/// each had when it was offered, with an index from key to heap position so
/// that each key holds at most one entry.
pub struct OpenList<V> {
    heap: Vec<Slot<V>>,
    map: HashMap<u64, usize>,
}

impl<V> OpenList<V> {
    /// The entries: each key with its state and its cost.
    pub closed spec fn model(&self) -> Map<u64, (V, usize)> {
        Map::new(
            |k: u64| self.map@.contains_key(k),
            |k: u64| (self.heap@[self.map@[k] as int].state, self.heap@[self.map@[k] as int].cost),
        )
    }

    /// The heap position of the entry under `k`.
    pub closed spec fn position(&self, k: u64) -> int {
        self.map@[k] as int
    }

    /// The costs in heap order.
    pub closed spec fn costs(&self) -> Seq<usize> {
        self.heap@.map_values(|s: Slot<V>| s.cost)
    }

    spec fn indexed(&self) -> bool {
        &&& forall|i: int|
            #![trigger self.heap@[i]]
            0 <= i < self.heap@.len() ==> self.map@.contains_key(self.heap@[i].key)
                && self.map@[self.heap@[i].key] == i
        &&& forall|k: u64| #[trigger]
            self.map@.contains_key(k) ==> self.map@[k] < self.heap@.len()
                && self.heap@[self.map@[k] as int].key == k
        &&& self.map@.dom().finite()
        &&& self.map@.len() == self.heap@.len()
    }

    spec fn ordered(&self) -> bool {
        forall|i: int|
            0 < i < self.heap@.len() ==> self.heap@[parent(i)].cost <= #[trigger] self.heap@[i].cost
    }

    /// Heap order holds but between `c` and its parent; `c`'s children are
    /// also no cheaper than that parent.
    spec fn ordered_above(&self, c: int) -> bool {
        &&& forall|i: int|
            0 < i < self.heap@.len() && i != c ==> self.heap@[parent(i)].cost
                <= #[trigger] self.heap@[i].cost
        &&& c > 0 ==> forall|i: int|
            0 < i < self.heap@.len() && parent(i) == c ==> self.heap@[parent(c)].cost
                <= #[trigger] self.heap@[i].cost
    }

    /// Heap order holds but between `c` and its children; `c`'s children are
    /// also no cheaper than `c`'s parent.
    spec fn ordered_below(&self, c: int) -> bool {
        &&& forall|i: int|
            0 < i < self.heap@.len() && parent(i) != c ==> self.heap@[parent(i)].cost
                <= #[trigger] self.heap@[i].cost
        &&& c > 0 ==> forall|i: int|
            0 < i < self.heap@.len() && parent(i) == c ==> self.heap@[parent(c)].cost
                <= #[trigger] self.heap@[i].cost
    }

    pub closed spec fn wf(&self) -> bool {
        self.indexed() && self.ordered()
    }

    proof fn lemma_model_len(&self)
        requires
            self.indexed(),
        ensures
            self.model().len() == self.heap@.len(),
            self.model().dom() == self.map@.dom(),
    {
        assert(self.model().dom() =~= self.map@.dom());
    }

    /// A well-formed open list keeps its costs in heap order: no position
    /// costs less than its parent, so the root costs least.
    ///
    /// The costs are those of the entries, each at the entry's own position,
    /// so that they are the entries' costs rearranged.
    pub proof fn lemma_heap_order(&self)
        requires
            self.wf(),
        ensures
            is_heap(self.costs()),
            self.costs().len() == self.model().len(),
            self.model().dom().finite(),
            forall|k: u64| #[trigger]
                self.model().contains_key(k) ==> 0 <= self.position(k) < self.costs().len()
                    && self.costs()[self.position(k)] == self.model()[k].1,
            forall|k: u64, j: u64|
                #![trigger self.position(k), self.position(j)]
                self.model().contains_key(k) && self.model().contains_key(j) && k != j
                    ==> self.position(k) != self.position(j),
    {
        self.lemma_model_len();
        assert forall|i: int| 0 < i < self.costs().len() implies self.costs()[parent(i)]
            <= #[trigger] self.costs()[i] by {
            assert(self.heap@[i].cost == self.costs()[i]);
        }
    }

    proof fn lemma_root_le(&self, i: int)
        requires
            self.ordered(),
            0 <= i < self.heap@.len(),
        ensures
            self.heap@[0].cost <= self.heap@[i].cost,
        decreases i,
    {
        if i > 0 {
            assert(self.heap@[parent(i)].cost <= self.heap@[i].cost);
            self.lemma_root_le(parent(i));
        }
    }

    proof fn lemma_root_is_min(&self)
        requires
            self.wf(),
            self.heap@.len() > 0,
        ensures
            is_min_entry(self.model(), self.heap@[0].key),
            self.model()[self.heap@[0].key] == (self.heap@[0].state, self.heap@[0].cost),
    {
        assert(self.heap@[0].key == self.heap@[0].key);
        assert forall|j: u64| #[trigger] self.model().contains_key(j) implies self.model()[
            self.heap@[0].key
        ].1 <= self.model()[j].1 by {
            self.lemma_root_le(self.map@[j] as int);
        }
    }

    pub fn new() -> (r: Self)
        ensures
            r.wf(),
            r.model() == Map::<u64, (V, usize)>::empty(),
            r.model().dom().finite(),
            is_heap(r.costs()),
    {
        let r = OpenList { heap: Vec::new(), map: HashMap::new() };
        proof {
            assert(r.model() =~= Map::<u64, (V, usize)>::empty());
            r.lemma_heap_order();
        }
        r
    }

    pub fn is_empty(&self) -> (r: bool)
        requires
            self.wf(),
        ensures
            r == (self.model().len() == 0),
    {
        proof {
            self.lemma_model_len();
        }
        self.heap.len() == 0
    }

    /// The number of entries.
    pub fn len(&self) -> (r: usize)
        requires
            self.wf(),
        ensures
            r == self.model().len(),
            self.model().dom().finite(),
    {
        proof {
            self.lemma_model_len();
        }
        self.heap.len()
    }

    /// Offers `value` under `key` at the cost `value.f()`: it replaces the
    /// key's entry only where it costs strictly less.
    pub fn insert(&mut self, key: u64, value: V)
        where
            V: AStarState,
        requires
            old(self).wf(),
        ensures
            final(self).wf(),
            is_heap(final(self).costs()),
            final(self).model() == offer(old(self).model(), key, value, value.spec_f()),
            final(self).model().dom().finite(),
    {
        let cost = value.f();
        self.insert_at_cost(key, value, cost);
        proof {
            self.lemma_heap_order();
        }
    }

    /// Offers `value` under `key` at cost `cost`: it replaces the key's entry
    /// only where it costs strictly less.
    pub fn insert_at_cost(&mut self, key: u64, value: V, cost: usize)
        requires
            old(self).wf(),
        ensures
            final(self).wf(),
            final(self).model() == offer(old(self).model(), key, value, cost),
            final(self).model().dom().finite(),
    {
        let found = self.map.get(&key);
        match found {
            Some(position) => {
                let index: usize = *position;
                proof {
                    assert(self.model().contains_key(key));
                }
                if cost < self.heap[index].cost {
                    let ghost before = self.model();
                    self.heap.set(index, Slot { key, cost, state: value });
                    proof {
                        assert(self.indexed());
                        assert(self.ordered_above(index as int)) by {
                            assert forall|i: int|
                                0 < i < self.heap@.len() && parent(i) == index && index > 0 implies self.heap@[parent(
                                index as int,
                            )].cost <= #[trigger] self.heap@[i].cost by {
                                assert(old(self).heap@[parent(i)].cost <= old(self).heap@[i].cost);
                                assert(old(self).heap@[parent(index as int)].cost <= old(
                                    self,
                                ).heap@[index as int].cost);
                            }
                        }
                        assert(self.model() =~= before.insert(key, (value, cost)));
                    }
                    self.bubble_up(index);
                } else {
                    proof {
                        assert(self.model() == offer(old(self).model(), key, value, cost));
                    }
                }
            },
            None => {
                let ghost before = self.model();
                let index = self.heap.len();
                self.heap.push(Slot { key, cost, state: value });
                self.map.insert(key, index);
                proof {
                    assert(!before.contains_key(key));
                    assert(self.map@.dom() =~= old(self).map@.dom().insert(key));
                    assert(self.heap@[index as int].key == key);
                    assert(self.indexed());
                    assert(self.ordered_above(index as int));
                    assert(self.model() =~= before.insert(key, (value, cost)));
                }
                self.bubble_up(index);
            },
        }
        proof {
            self.lemma_model_len();
        }
    }

    /// The state of a minimum entry, or `None` when there is none.
    pub fn min(&self) -> (r: Option<&V>)
        requires
            self.wf(),
        ensures
            r.is_none() <==> self.model().len() == 0,
            r matches Some(v) ==> exists|k: u64|
                is_min_entry(self.model(), k) && *v == #[trigger] self.model()[k].0,
    {
        proof {
            self.lemma_model_len();
        }
        if self.heap.len() == 0 {
            None
        } else {
            proof {
                self.lemma_root_is_min();
                let k = self.heap@[0].key;
                assert(is_min_entry(self.model(), k) && self.heap@[0].state == self.model()[k].0);
            }
            Some(&self.heap[0].state)
        }
    }

    /// Removes a minimum entry and returns its state, or `None` when there is none.
    pub fn extract_min(&mut self) -> (r: Option<V>)
        requires
            old(self).wf(),
        ensures
            final(self).wf(),
            is_heap(final(self).costs()),
            final(self).model().dom().finite(),
            r.is_none() <==> old(self).model().len() == 0,
            r.is_none() ==> final(self).model() == old(self).model(),
            r matches Some(v) ==> exists|k: u64|
                is_min_entry(old(self).model(), k) && v == #[trigger] old(self).model()[k].0
                    && final(self).model() == old(self).model().remove(k),
    {
        let r = self.extract_min_entry();
        match r {
            Some(entry) => {
                proof {
                    self.lemma_heap_order();
                }
                Some(entry.1)
            },
            None => {
                proof {
                    self.lemma_heap_order();
                }
                None
            },
        }
    }

    /// Removes a minimum entry and returns its key and state.
    pub(crate) fn extract_min_entry(&mut self) -> (r: Option<(u64, V)>)
        requires
            old(self).wf(),
        ensures
            final(self).wf(),
            r.is_none() <==> old(self).model().len() == 0,
            r.is_none() ==> final(self).model() == old(self).model(),
            r matches Some(e) ==> is_min_entry(old(self).model(), e.0) && e.1 == old(
                self,
            ).model()[e.0].0 && final(self).model() == old(self).model().remove(e.0),
    {
        proof {
            self.lemma_model_len();
        }
        if self.heap.len() == 0 {
            return None;
        }
        proof {
            self.lemma_root_is_min();
        }
        let ghost before = self.model();
        let last = self.heap.len() - 1;
        self.swap(0, last);
        let popped = self.pop();
        proof {
            assert(self.ordered_below(0)) by {
                assert forall|i: int|
                    0 < i < self.heap@.len() && parent(i) != 0 implies self.heap@[parent(i)].cost
                    <= #[trigger] self.heap@[i].cost by {
                    assert(old(self).heap@[parent(i)].cost <= old(self).heap@[i].cost);
                }
            }
        }
        if self.heap.len() > 0 {
            self.bubble_down(0);
        }
        popped
    }

    /// Exchanges two heap positions and keeps the index in step.
    fn swap(&mut self, i: usize, j: usize)
        requires
            old(self).indexed(),
            i < old(self).heap@.len(),
            j < old(self).heap@.len(),
        ensures
            final(self).indexed(),
            final(self).heap@ == old(self).heap@.update(i as int, old(self).heap@[j as int]).update(
                j as int,
                old(self).heap@[i as int],
            ),
            final(self).model() == old(self).model(),
    {
        swap_slots(&mut self.heap, i, j);
        let key_i = self.heap[i].key;
        let key_j = self.heap[j].key;
        self.map.insert(key_i, i);
        self.map.insert(key_j, j);
        proof {
            assert(self.map@.dom() =~= old(self).map@.dom());
            assert(self.indexed());
            assert(self.model() =~= old(self).model());
        }
    }

    /// Moves the entry at `index` toward the root until its parent costs no more.
    fn bubble_up(&mut self, index: usize)
        requires
            old(self).indexed(),
            old(self).ordered_above(index as int),
            index < old(self).heap@.len(),
        ensures
            final(self).wf(),
            final(self).model() == old(self).model(),
            final(self).heap@.len() == old(self).heap@.len(),
            forall|j: int|
                0 <= j < final(self).heap@.len() && !on_path(j, index as int)
                    ==> #[trigger] final(self).heap@[j] == old(self).heap@[j],
    {
        let mut current = index;
        let mut settled = false;
        proof {
            assert(on_path(index as int, index as int));
        }
        while current > 0 && !settled
            invariant
                on_path(current as int, index as int),
                self.heap@.len() == old(self).heap@.len(),
                forall|j: int|
                    0 <= j < self.heap@.len() && !on_path(j, index as int) ==> #[trigger] self.heap@[j]
                        == old(self).heap@[j],
                self.indexed(),
                current < self.heap@.len(),
                self.ordered_above(current as int),
                settled ==> current > 0 && self.heap@[parent(current as int)].cost
                    <= self.heap@[current as int].cost,
                self.model() == old(self).model(),
            decreases current + if settled {
                0int
            } else {
                1int
            },
        {
            let up = (current - 1) / 2;
            if self.heap[current].cost >= self.heap[up].cost {
                settled = true;
            } else {
                let ghost prev = self.heap@;
                self.swap(current, up);
                proof {
                    let c = current as int;
                    let p = up as int;
                    lemma_parent_on_path(c, index as int);
                    assert forall|i: int| 0 < i < self.heap@.len() && i != p implies self.heap@[parent(i)].cost
                        <= #[trigger] self.heap@[i].cost by {
                        if i == c {
                        } else if parent(i) == c {
                            assert(prev[parent(c)].cost <= prev[i].cost);
                        } else if parent(i) == p {
                            assert(prev[p].cost <= prev[i].cost);
                        } else {
                            assert(prev[parent(i)].cost <= prev[i].cost);
                        }
                    }
                    if p > 0 {
                        assert forall|i: int| 0 < i < self.heap@.len() && parent(i) == p implies self.heap@[parent(
                            p,
                        )].cost <= #[trigger] self.heap@[i].cost by {
                            assert(prev[parent(p)].cost <= prev[p].cost);
                            if i != c {
                                assert(prev[p].cost <= prev[i].cost);
                            }
                        }
                    }
                }
                current = up;
            }
        }
        proof {
            assert forall|i: int| 0 < i < self.heap@.len() implies self.heap@[parent(i)].cost
                <= #[trigger] self.heap@[i].cost by {
                if i == current as int {
                }
            }
        }
    }

    /// Moves the entry at `index` away from the root until no child costs less.
    #[verifier::rlimit(60)]
    fn bubble_down(&mut self, index: usize)
        requires
            old(self).indexed(),
            old(self).ordered_below(index as int),
            index < old(self).heap@.len(),
        ensures
            final(self).wf(),
            final(self).model() == old(self).model(),
    {
        let len = self.heap.len();
        let mut current = index;
        let mut settled = false;
        while !settled
            invariant
                self.indexed(),
                self.heap@.len() == len,
                current < len,
                !settled ==> self.ordered_below(current as int),
                settled ==> self.ordered(),
                self.model() == old(self).model(),
            decreases len - current + if settled {
                0int
            } else {
                1int
            },
        {
            let mut smallest = current;
            if current < len / 2 {
                let left = 2 * current + 1;
                if self.heap[left].cost < self.heap[smallest].cost {
                    smallest = left;
                }
                let right = left + 1;
                if right < len && self.heap[right].cost < self.heap[smallest].cost {
                    smallest = right;
                }
            }
            proof {
                let c = current as int;
                assert forall|i: int| 0 < i < len && parent(i) == c implies self.heap@[smallest as int].cost
                    <= #[trigger] self.heap@[i].cost by {
                    assert(i == 2 * c + 1 || i == 2 * c + 2);
                }
            }
            if smallest == current {
                settled = true;
            } else {
                let ghost prev = self.heap@;
                self.swap(current, smallest);
                proof {
                    let c = current as int;
                    let s = smallest as int;
                    assert(parent(s) == c);
                    assert forall|i: int| 0 < i < len && parent(i) != s implies self.heap@[parent(i)].cost
                        <= #[trigger] self.heap@[i].cost by {
                        if i == s {
                        } else if parent(i) == c {
                            assert(prev[s].cost <= prev[i].cost);
                        } else if i == c {
                            assert(prev[parent(c)].cost <= prev[s].cost);
                        } else {
                            assert(prev[parent(i)].cost <= prev[i].cost);
                        }
                    }
                    assert forall|i: int| 0 < i < len && parent(i) == s implies self.heap@[parent(s)].cost
                        <= #[trigger] self.heap@[i].cost by {
                        assert(prev[s].cost <= prev[i].cost);
                    }
                }
                current = smallest;
            }
        }
    }

    /// Removes the last heap position and its key.
    fn pop(&mut self) -> (r: Option<(u64, V)>)
        requires
            old(self).indexed(),
        ensures
            final(self).indexed(),
            old(self).heap@.len() == 0 ==> r.is_none() && final(self).heap@ == old(self).heap@,
            old(self).heap@.len() > 0 ==> {
                let last = old(self).heap@.last();
                &&& r == Some((last.key, last.state))
                &&& final(self).heap@ == old(self).heap@.drop_last()
                &&& final(self).model() == old(self).model().remove(last.key)
            },
    {
        match self.heap.pop() {
            None => None,
            Some(slot) => {
                let Slot { key, cost: _, state } = slot;
                self.map.remove(&key);
                proof {
                    let n = old(self).heap@.len() - 1;
                    assert(old(self).map@[key] == n);
                    assert(self.map@.dom() =~= old(self).map@.dom().remove(key));
                    assert forall|k: u64| #[trigger] self.map@.contains_key(k) implies self.map@[k]
                        < self.heap@.len() && self.heap@[self.map@[k] as int].key == k by {
                        assert(old(self).heap@[old(self).map@[k] as int].key == k);
                    }
                    assert(self.indexed());
                    assert(self.model() =~= old(self).model().remove(key));
                }
                Some((key, state))
            },
        }
    }
}

} // verus!
