use std::collections::HashMap;

use vstd::prelude::*;

use crate::astar_state::{key_space, lemma_key_space_bound, AStarState};
use crate::open_list::{is_min_entry, lemma_expansion_closes_new_key, lemma_relaxed_keeps, relaxed, OpenList};

verus! {

/// A state whose successors come with the label of the transition taken.
///
/// `spec_transition(next, change)` says that `next` is reached from this
/// state by the transition labelled `change`.
pub trait TracedState<C>: AStarState {
    spec fn spec_transition(&self, next: Self, change: C) -> bool;

    fn generate_traced_successors(&self) -> (r: Vec<(Self, C)>)
        ensures
            forall|i: int|
                0 <= i < r@.len() ==> self.spec_transition((#[trigger] r@[i]).0, r@[i].1),
    ;
}

/// `states` runs along `path`: each state is reached from the one before it
/// by the transition that `path` lists at that place.
pub open spec fn walks<S: TracedState<C>, C>(states: Seq<S>, path: Seq<C>) -> bool {
    &&& states.len() == path.len() + 1
    &&& forall|i: int|
        0 <= i < path.len() ==> #[trigger] states[i].spec_transition(states[i + 1], path[i])
}

/// `to` is reached from `from` by applying the transitions of `path` in order.
pub open spec fn leads_to<S: TracedState<C>, C>(from: S, path: Seq<C>, to: S) -> bool {
    exists|states: Seq<S>|
        #[trigger] walks(states, path) && states[0] == from && states.last() == to
}

/// Some state that a path leads to from `from` has the key `key`.
pub open spec fn key_led_to<S: TracedState<C>, C>(from: S, key: u64) -> bool {
    exists|path: Seq<C>, s: S| #[trigger] leads_to(from, path, s) && s.spec_key() == key
}

/// `w` carries a label, and its state is reached from `parent` by the
/// transition with that label.
pub open spec fn arrives_from<T: TracedState<C>, C>(parent: T, w: TracedStateWrapper<T, C>) -> bool {
    match w.change {
        Some(c) => parent.spec_transition(w.state, c),
        None => false,
    }
}

/// A state with the key of the state it was generated from and the label of
/// the transition that led to it; both are absent for the start state.
pub struct TracedStateWrapper<T, C> {
    pub state: T,
    pub prev_key: Option<u64>,
    pub change: Option<C>,
}

impl<T: TracedState<C>, C> TracedStateWrapper<T, C> {
    /// Wraps a start state: no predecessor, no incoming transition.
    pub fn new(state: T) -> (r: Self)
        ensures
            r.state == state,
            r.prev_key.is_none(),
            r.change.is_none(),
    {
        TracedStateWrapper { state, prev_key: None, change: None }
    }

    /// The successors of the wrapped state, each wrapped with this state's
    /// key as predecessor and the label of its transition.
    pub fn generate_states(&self) -> (r: Vec<Self>)
        ensures
            forall|i: int|
                0 <= i < r@.len() ==> (#[trigger] r@[i]).prev_key == Some(self.state.spec_key())
                    && arrives_from(self.state, r@[i]),
    {
        let key = self.key();
        let successors = self.state.generate_traced_successors();
        let r = Self::wrap_successors(key, successors);
        proof {
            assert forall|i: int| 0 <= i < r@.len() implies (#[trigger] r@[i]).prev_key == Some(
                self.state.spec_key(),
            ) && arrives_from(self.state, r@[i]) by {
                assert(r@[i].change == Some(successors@[i].1));
            }
        }
        r
    }

    /// Wraps each successor with `key` as predecessor and its own label,
    /// keeping their order.
    pub fn wrap_successors(key: u64, successors: Vec<(T, C)>) -> (r: Vec<Self>)
        ensures
            r@.len() == successors@.len(),
            forall|i: int|
                0 <= i < r@.len() ==> (#[trigger] r@[i]).state == successors@[i].0 && r@[i].prev_key
                    == Some(key) && r@[i].change == Some(successors@[i].1),
    {
        let ghost items = successors@;
        let mut wrapped: Vec<Self> = Vec::new();
        for pair in it: successors
            invariant
                it.seq() == items,
                wrapped@.len() == it.index(),
                forall|i: int|
                    0 <= i < wrapped@.len() ==> (#[trigger] wrapped@[i]).state == items[i].0
                        && wrapped@[i].prev_key == Some(key) && wrapped@[i].change == Some(items[i].1),
        {
            proof {
                assert(pair == items[wrapped@.len() as int]);
            }
            let (successor, change) = pair;
            wrapped.push(TracedStateWrapper { state: successor, prev_key: Some(key), change: Some(change) });
        }
        wrapped
    }
}

impl<T: TracedState<C>, C> AStarState for TracedStateWrapper<T, C> {
    open spec fn spec_key(&self) -> u64 {
        self.state.spec_key()
    }

    open spec fn spec_f(&self) -> usize {
        self.state.spec_f()
    }

    open spec fn spec_is_goal(&self) -> bool {
        self.state.spec_is_goal()
    }

    fn key(&self) -> u64 {
        self.state.key()
    }

    fn h(&self) -> usize {
        self.state.h()
    }

    fn f(&self) -> usize {
        self.state.f()
    }

    fn g(&self) -> usize {
        self.state.g()
    }

    fn is_goal(&self) -> bool {
        self.state.is_goal()
    }
}

/// What a successful traced search reports: the labels of the transitions
/// from the start to the goal, in order, how many keys were expanded before
/// the goal was taken from the open list, and the goal state.
///
/// `expanded` records the expanded keys in order, and `frontier` the entries
/// of the open list when the goal was taken; a result built by `new` records
/// neither.
pub struct TracedResult<S, C> {
    pub path: Vec<C>,
    pub iterations: usize,
    pub final_state: S,
    pub expanded: Ghost<Seq<u64>>,
    pub frontier: Ghost<Map<u64, (TracedStateWrapper<S, C>, usize)>>,
}

impl<S: TracedState<C>, C> TracedResult<S, C> {
    pub fn new(path: Vec<C>, iterations: usize, final_state: S) -> (r: Self)
        ensures
            r.path == path,
            r.iterations == iterations,
            r.final_state == final_state,
            r.expanded@ == Seq::<u64>::empty(),
            r.frontier@ == Map::<u64, (TracedStateWrapper<S, C>, usize)>::empty(),
    {
        TracedResult {
            path,
            iterations,
            final_state,
            expanded: Ghost(Seq::empty()),
            frontier: Ghost(Map::empty()),
        }
    }
}

/// The label of a transition as a sequence of zero or one labels.
pub open spec fn label_seq<C>(change: Option<C>) -> Seq<C> {
    match change {
        Some(c) => seq![c],
        None => Seq::empty(),
    }
}

/// The labels that lead to the entry under `key` in `closed`, first to last:
/// the trail to its predecessor, then its own label. The walk uses each entry
/// at most once and stops at an entry with no predecessor or at a key that is
/// not there.
pub open spec fn trail<S, C>(closed: Map<u64, TracedStateWrapper<S, C>>, key: u64) -> Seq<C>
    decreases closed.len(),
{
    if closed.dom().finite() && closed.contains_key(key) {
        let before = match closed[key].prev_key {
            Some(p) => trail(closed.remove(key), p),
            None => Seq::empty(),
        };
        before + label_seq(closed[key].change)
    } else {
        Seq::empty()
    }
}

/// The trail to `key` where there is one, and nothing where there is none.
pub open spec fn trail_from<S, C>(closed: Map<u64, TracedStateWrapper<S, C>>, key: Option<u64>) -> Seq<C> {
    match key {
        Some(k) => trail(closed, k),
        None => Seq::empty(),
    }
}

/// Turning a sequence around puts its last item first.
proof fn lemma_reverse_last<C>(s: Seq<C>)
    requires
        s.len() > 0,
    ensures
        s.reverse() == seq![s.last()] + s.drop_last().reverse(),
{
    assert(s.reverse() =~= seq![s.last()] + s.drop_last().reverse());
}

/// The path to a goal whose predecessor key and incoming label are
/// `prev_key` and `change`: the labels along the trail to the predecessor
/// through `closed`, first to last, then the goal's own label. Entries are
/// taken out of `closed` as the walk goes back.
pub fn reconstruct_path<S, C>(
    closed: HashMap<u64, TracedStateWrapper<S, C>>,
    prev_key: Option<u64>,
    change: Option<C>,
) -> (r: Vec<C>)
    requires
        closed@.dom().finite(),
    ensures
        r@ == trail_from(closed@, prev_key) + label_seq(change),
{
    let ghost target = trail_from(closed@, prev_key) + label_seq(change);
    let mut closed = closed;
    let mut backward: Vec<C> = Vec::new();
    match change {
        Some(c) => {
            backward.push(c);
        },
        None => {},
    }
    proof {
        assert(label_seq(change) =~= backward@.reverse());
    }
    let mut current = prev_key;
    loop
        invariant
            closed@.dom().finite(),
            target == trail_from(closed@, current) + backward@.reverse(),
        ensures
            target == backward@.reverse(),
        decreases closed@.len(),
    {
        match current {
            None => {
                proof {
                    assert(target =~= backward@.reverse());
                }
                break ;
            },
            Some(key) => {
                let ghost before = closed@;
                let ghost back_before = backward@;
                let removed = closed.remove(&key);
                match removed {
                    None => {
                        proof {
                            assert(target =~= backward@.reverse());
                        }
                        break ;
                    },
                    Some(entry) => {
                        proof {
                            assert(closed@.dom() =~= before.dom().remove(key));
                            assert(before[key] == entry);
                        }
                        let TracedStateWrapper { state: _, prev_key: entry_prev, change: entry_change } =
                            entry;
                        match entry_change {
                            Some(c) => {
                                backward.push(c);
                                proof {
                                    lemma_reverse_last(backward@);
                                    assert(backward@.drop_last() =~= back_before);
                                }
                            },
                            None => {},
                        }
                        proof {
                            assert(backward@.reverse() =~= label_seq(entry_change) + back_before.reverse());
                            assert(target =~= trail_from(closed@, entry_prev) + backward@.reverse());
                        }
                        current = entry_prev;
                    },
                }
            },
        }
    }
    let mut path: Vec<C> = Vec::new();
    proof {
        assert(target =~= path@ + backward@.reverse());
    }
    while backward.len() > 0
        invariant
            target == path@ + backward@.reverse(),
        decreases backward.len(),
    {
        let ghost back_before = backward@;
        match backward.pop() {
            Some(c) => {
                proof {
                    lemma_reverse_last(back_before);
                    assert(path@.push(c) + backward@.reverse() =~= path@ + back_before.reverse());
                }
                path.push(c);
            },
            None => {},
        }
    }
    proof {
        assert(path@ =~= target);
    }
    path
}

/// One more transition extends a path that leads to `mid`.
proof fn lemma_leads_step<S: TracedState<C>, C>(from: S, path: Seq<C>, mid: S, to: S, c: C)
    requires
        leads_to(from, path, mid),
        mid.spec_transition(to, c),
    ensures
        leads_to(from, path.push(c), to),
{
    let states = choose|states: Seq<S>|
        #[trigger] walks(states, path) && states[0] == from && states.last() == mid;
    let longer = states.push(to);
    assert forall|i: int| 0 <= i < path.push(c).len() implies #[trigger] longer[i].spec_transition(
        longer[i + 1],
        path.push(c)[i],
    ) by {
        if i < path.len() {
            assert(states[i].spec_transition(states[i + 1], path[i]));
        }
    }
    assert(walks(longer, path.push(c)));
}

/// The empty path leads from a state to itself.
proof fn lemma_leads_nowhere<S: TracedState<C>, C>(from: S)
    ensures
        leads_to(from, Seq::<C>::empty(), from),
{
    assert(walks(seq![from], Seq::<C>::empty()));
}

/// `w` is the start state itself, or it is reached by the transition with its
/// label from the state closed under its recorded predecessor key.
spec fn recorded<S: TracedState<C>, C>(
    w: TracedStateWrapper<S, C>,
    closed: Map<u64, TracedStateWrapper<S, C>>,
    start: S,
) -> bool {
    match w.prev_key {
        None => w.state == start && w.change is None,
        Some(p) => closed.contains_key(p) && arrives_from(closed[p].state, w),
    }
}

/// Every entry of `closed` ranked below `bound` is recorded, and its
/// predecessor is ranked below it, so that no chain of predecessors loops.
spec fn chained<S: TracedState<C>, C>(
    closed: Map<u64, TracedStateWrapper<S, C>>,
    rank: Map<u64, nat>,
    start: S,
    bound: nat,
) -> bool {
    forall|j: u64|
        #[trigger] closed.contains_key(j) && rank[j] < bound ==> recorded(closed[j], closed, start)
            && match closed[j].prev_key {
            Some(p) => rank[p] < rank[j],
            None => true,
        }
}

/// Along a chain of recorded entries, the trail to an entry leads from the
/// start to that entry's state.
proof fn lemma_trail_leads<S: TracedState<C>, C>(
    closed: Map<u64, TracedStateWrapper<S, C>>,
    rank: Map<u64, nat>,
    start: S,
    key: u64,
    bound: nat,
)
    requires
        closed.dom().finite(),
        closed.contains_key(key),
        rank[key] < bound,
        chained(closed, rank, start, bound),
    ensures
        leads_to(start, trail(closed, key), closed[key].state),
        trail(closed, key).len() < closed.len(),
    decreases rank[key],
{
    let w = closed[key];
    let rest = closed.remove(key);
    assert(closed.dom().contains(key));
    assert(rest.dom() =~= closed.dom().remove(key));
    match w.prev_key {
        None => {
            assert(recorded(w, closed, start));
            assert(trail(closed, key) =~= Seq::<C>::empty());
            lemma_leads_nowhere::<S, C>(start);
        },
        Some(p) => {
            assert(rank[p] < rank[key]);
            assert forall|j: u64|
                #[trigger] rest.contains_key(j) && rank[j] < rank[key] implies recorded(
                rest[j],
                rest,
                start,
            ) && match rest[j].prev_key {
                Some(q) => rank[q] < rank[j],
                None => true,
            } by {
                assert(closed.contains_key(j));
            }
            lemma_trail_leads(rest, rank, start, p, rank[key]);
            let c = w.change->Some_0;
            let path = trail(closed, key);
            assert(path =~= trail(rest, p).push(c));
            assert(path.len() > 0);
            assert(path.drop_last() =~= trail(rest, p));
            assert(path.last() == c);
            assert(leads_to(start, path.drop_last(), closed[p].state));
            lemma_leads_step(start, trail(rest, p), closed[p].state, w.state, c);
        },
    }
}

/// The path that a recorded entry's predecessor and label give leads from the
/// start to its state.
proof fn lemma_path_leads<S: TracedState<C>, C>(
    closed: Map<u64, TracedStateWrapper<S, C>>,
    rank: Map<u64, nat>,
    start: S,
    w: TracedStateWrapper<S, C>,
)
    requires
        closed.dom().finite(),
        recorded(w, closed, start),
        chained(closed, rank, start, closed.len()),
        forall|k: u64| #[trigger] closed.contains_key(k) ==> rank.contains_key(k) && rank[k] < closed.len(),
    ensures
        leads_to(start, trail_from(closed, w.prev_key) + label_seq(w.change), w.state),
        (trail_from(closed, w.prev_key) + label_seq(w.change)).len() <= closed.len(),
{
    let path = trail_from(closed, w.prev_key) + label_seq(w.change);
    match w.prev_key {
        None => {
            assert(path =~= Seq::<C>::empty());
            lemma_leads_nowhere::<S, C>(start);
        },
        Some(p) => {
            lemma_trail_leads(closed, rank, start, p, closed.len());
            let c = w.change->Some_0;
            assert(path =~= trail(closed, p).push(c));
            lemma_leads_step(start, trail(closed, p), closed[p].state, w.state, c);
        },
    }
}

/// Offers to the open list, in order, each of `successors` whose key is not
/// closed, under its key and at its cost `f`.
pub fn relax<S: TracedState<C>, C>(
    open_list: &mut OpenList<TracedStateWrapper<S, C>>,
    closed: &HashMap<u64, TracedStateWrapper<S, C>>,
    successors: Vec<TracedStateWrapper<S, C>>,
)
    requires
        old(open_list).wf(),
    ensures
        final(open_list).wf(),
        final(open_list).model() == relaxed(old(open_list).model(), closed@.dom(), successors@),
{
    let ghost items = successors@;
    let ghost m0 = open_list.model();
    for successor in it: successors
        invariant
            it.seq() == items,
            open_list.wf(),
            open_list.model() == relaxed(m0, closed@.dom(), items.take(it.index() as int)),
    {
        let ghost i = it.index() as int;
        proof {
            assert(successor == items[i]);
            assert(items.take(i + 1).drop_last() =~= items.take(i));
            assert(items.take(i + 1).last() == items[i]);
        }
        let successor_key = successor.key();
        if !closed.contains_key(&successor_key) {
            open_list.insert(successor_key, successor);
        }
    }
    proof {
        assert(items.take(items.len() as int) =~= items);
    }
}

/// Runs A* from `initial_state`, recording for each state its predecessor's
/// key and the label of the transition that led to it. Returns the first goal
/// taken from the open list with the labels from the start to it, or `None`
/// when the open list runs dry first. Applying the returned labels in order
/// to the start reaches the returned state, and there are no more labels
/// than expanded keys. A start that is a goal is returned at once, with an
/// empty path and no expansion.
///
/// Each step closes the key of the entry it takes, and no closed key is
/// offered again, so no key is expanded twice and the search always ends.
pub fn traced_astar<S: TracedState<C>, C>(initial_state: S) -> (r: Option<TracedResult<S, C>>)
    ensures
        r matches Some(res) ==> res.final_state.spec_is_goal() && leads_to(
            initial_state,
            res.path@,
            res.final_state,
        ) && res.path@.len() <= res.iterations,
        r matches Some(res) ==> is_min_entry(res.frontier@, res.final_state.spec_key())
            && res.frontier@[res.final_state.spec_key()].0.state == res.final_state && forall|k: u64|
            #[trigger] res.frontier@.contains_key(k) ==> res.frontier@[k].1
                == res.frontier@[k].0.state.spec_f(),
        r matches Some(res) ==> res.expanded@.no_duplicates() && res.expanded@.len()
            == res.iterations && !res.expanded@.contains(res.final_state.spec_key()),
        r matches Some(res) ==> forall|i: int|
            0 <= i < res.expanded@.len() ==> key_led_to(initial_state, #[trigger] res.expanded@[i]),
        initial_state.spec_is_goal() ==> (r matches Some(res) && res.path@.len() == 0
            && res.iterations == 0 && res.final_state == initial_state),
{
    let ghost start = initial_state;
    let ghost mut rank: Map<u64, nat> = Map::empty();
    let mut open_list: OpenList<TracedStateWrapper<S, C>> = OpenList::new();
    let mut closed_list: HashMap<u64, TracedStateWrapper<S, C>> = HashMap::new();
    let initial_key = initial_state.key();
    open_list.insert(initial_key, TracedStateWrapper::new(initial_state));
    let ghost mut first = true;
    let ghost mut expanded: Seq<u64> = Seq::empty();
    let ghost root = TracedStateWrapper::<S, C> { state: start, prev_key: None, change: None };
    proof {
        assert(open_list.model() =~= map![initial_key => (root, root.spec_f())]);
    }
    loop
        invariant
            start == initial_state,
            root == (TracedStateWrapper::<S, C> { state: start, prev_key: None, change: None }),
            first ==> open_list.model() == map![initial_key => (root, root.spec_f())]
                && closed_list@.len() == 0,
            !first ==> !start.spec_is_goal(),
            expanded.no_duplicates(),
            expanded.len() == closed_list@.len(),
            forall|i: int| 0 <= i < expanded.len() ==> key_led_to(start, #[trigger] expanded[i]),
            forall|k: u64| closed_list@.contains_key(k) <==> #[trigger] expanded.contains(k),
            open_list.wf(),
            closed_list@.dom().finite(),
            forall|k: u64| #[trigger]
                open_list.model().contains_key(k) ==> !closed_list@.contains_key(k)
                    && open_list.model()[k].1 == open_list.model()[k].0.spec_f()
                    && open_list.model()[k].0.state.spec_key() == k && recorded(
                    open_list.model()[k].0,
                    closed_list@,
                    start,
                ),
            forall|k: u64| #[trigger] closed_list@.contains_key(k) ==> rank.contains_key(k) && rank[k] < closed_list@.len(),
            chained(closed_list@, rank, start, closed_list@.len()),
        decreases key_space() - closed_list@.len(),
    {
        proof {
            lemma_key_space_bound(closed_list@.dom());
        }
        let ghost open_prev = open_list.model();
        let entry = open_list.extract_min_entry();
        match entry {
            None => {
                proof {
                    if first {
                        assert(open_prev.contains_key(initial_key));
                    }
                }
                return None;
            },
            Some(entry) => {
                let (key, current_state) = entry;
                proof {
                    if first {
                        assert(open_prev.contains_key(key));
                        assert(key == initial_key);
                    }
                }
                if current_state.is_goal() {
                    proof {
                        assert(open_prev.contains_key(key));
                        lemma_path_leads(closed_list@, rank, start, current_state);
                    }
                    let TracedStateWrapper { state, prev_key, change } = current_state;
                    let iterations = closed_list.len();
                    let path = reconstruct_path(closed_list, prev_key, change);
                    return Some(
                        TracedResult {
                            path,
                            iterations,
                            final_state: state,
                            expanded: Ghost(expanded),
                            frontier: Ghost(open_prev),
                        },
                    );
                }
                let successors = current_state.generate_states();
                let ghost closed_before = closed_list@;
                let ghost parent = current_state;
                closed_list.insert(key, current_state);
                proof {
                    first = false;
                    assert(!expanded.contains(key)) by {
                        lemma_expansion_closes_new_key(open_prev, closed_before.dom(), key);
                    }
                    let expanded_before = expanded;
                    expanded = expanded.push(key);
                    assert(open_prev.contains_key(key));
                    lemma_path_leads(closed_before, rank, start, parent);
                    assert forall|i: int| 0 <= i < expanded.len() implies key_led_to(
                        start,
                        #[trigger] expanded[i],
                    ) by {
                        if i == expanded.len() - 1 {
                            let path = trail_from(closed_before, parent.prev_key) + label_seq(parent.change);
                            assert(leads_to(start, path, parent.state) && parent.state.spec_key() == expanded[i]);
                        } else {
                            assert(expanded[i] == expanded_before[i]);
                        }
                    }
                    assert forall|k: u64| closed_list@.contains_key(k) <==> #[trigger] expanded.contains(k) by {
                        if expanded.contains(k) && k != key {
                            let i = choose|i: int| 0 <= i < expanded.len() && expanded[i] == k;
                            assert(expanded_before[i] == k);
                        }
                        if k == key {
                            assert(expanded[expanded.len() - 1] == key);
                        } else if expanded_before.contains(k) {
                            let i = choose|i: int| 0 <= i < expanded_before.len() && expanded_before[i] == k;
                            assert(expanded[i] == k);
                        }
                    }
                    lemma_expansion_closes_new_key(open_prev, closed_before.dom(), key);
                    assert(closed_list@.dom() =~= closed_before.dom().insert(key));
                    let rank_before = rank;
                    rank = rank.insert(key, closed_before.len());
                    assert forall|j: u64| #[trigger]
                        closed_list@.contains_key(j) && rank[j] < closed_list@.len() implies recorded(
                        closed_list@[j],
                        closed_list@,
                        start,
                    ) && match closed_list@[j].prev_key {
                        Some(p) => rank[p] < rank[j],
                        None => true,
                    } by {
                        if j != key {
                            assert(closed_before.contains_key(j));
                            assert(rank_before[j] < closed_before.len());
                        }
                    }
                    assert forall|k: u64| #[trigger] open_list.model().contains_key(k) implies !closed_list@.contains_key(k)
                        && open_list.model()[k].1 == open_list.model()[k].0.spec_f()
                        && open_list.model()[k].0.state.spec_key() == k && recorded(
                        open_list.model()[k].0,
                        closed_list@,
                        start,
                    ) by {
                        assert(open_prev.contains_key(k));
                        let w = open_list.model()[k].0;
                        match w.prev_key {
                            Some(p) => {
                                assert(closed_before.contains_key(p));
                            },
                            None => {},
                        }
                    }
                }
                proof {
                    assert forall|i: int| 0 <= i < successors@.len() implies (#[trigger] successors@[i]).spec_key()
                        == successors@[i].state.spec_key() && recorded(successors@[i], closed_list@, start) by {
                        assert(successors@[i].prev_key == Some(parent.state.spec_key()));
                        assert(open_prev.contains_key(key));
                    }
                    let ghost_closed = closed_list@;
                    lemma_relaxed_keeps(
                        open_list.model(),
                        ghost_closed.dom(),
                        successors@,
                        |k: u64, w: TracedStateWrapper<S, C>| w.state.spec_key() == k && recorded(w, ghost_closed, start),
                    );
                }
                relax(&mut open_list, &closed_list, successors);
            },
        }
    }
}

} // verus!
