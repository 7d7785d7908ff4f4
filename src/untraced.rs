use std::collections::HashSet;

use vstd::prelude::*;

use crate::astar_state::{key_space, lemma_key_space_bound, AStarState};
use crate::open_list::{is_min_entry, lemma_expansion_closes_new_key, lemma_relaxed_keeps, relaxed, OpenList};

verus! {

/// A state whose successors come without transition labels.
///
/// `spec_successor(next)` says that `next` is a successor of this state.
pub trait UntracedState: AStarState {
    spec fn spec_successor(&self, next: Self) -> bool;

    fn generate_successors(&self) -> (r: Vec<Self>)
        ensures
            forall|i: int| 0 <= i < r@.len() ==> self.spec_successor(#[trigger] r@[i]),
    ;
}

/// Each of `states` is a successor of the one before it.
pub open spec fn steps<S: UntracedState>(states: Seq<S>) -> bool {
    forall|i: int| 0 <= i < states.len() - 1 ==> #[trigger] states[i].spec_successor(states[i + 1])
}

/// `to` is reached from `from` through zero or more successors.
pub open spec fn reaches<S: UntracedState>(from: S, to: S) -> bool {
    exists|states: Seq<S>|
        #[trigger] steps(states) && states.len() > 0 && states[0] == from && states.last() == to
}

/// Some state reached from `from` has the key `key`.
pub open spec fn key_reached<S: UntracedState>(from: S, key: u64) -> bool {
    exists|s: S| #[trigger] reaches(from, s) && s.spec_key() == key
}

/// A state reaches itself.
proof fn lemma_reaches_itself<S: UntracedState>(s: S)
    ensures
        reaches(s, s),
{
    assert(steps(seq![s]));
}

/// A successor of a reached state is reached.
proof fn lemma_reaches_successor<S: UntracedState>(from: S, mid: S, to: S)
    requires
        reaches(from, mid),
        mid.spec_successor(to),
    ensures
        reaches(from, to),
{
    let states = choose|states: Seq<S>|
        #[trigger] steps(states) && states.len() > 0 && states[0] == from && states.last() == mid;
    let longer = states.push(to);
    assert forall|i: int| 0 <= i < longer.len() - 1 implies #[trigger] longer[i].spec_successor(
        longer[i + 1],
    ) by {
        if i < states.len() - 1 {
            assert(states[i].spec_successor(states[i + 1]));
        }
    }
    assert(steps(longer));
}

/// What a successful search without tracing reports: how many keys were
/// expanded before the goal was taken from the open list, and the goal state.
/// `expanded` records the expanded keys in order, and `frontier` the entries
/// of the open list when the goal was taken; a result built by `new` records
/// neither.
pub struct UntracedResult<S> {
    pub iterations: usize,
    pub final_state: S,
    pub expanded: Ghost<Seq<u64>>,
    pub frontier: Ghost<Map<u64, (S, usize)>>,
}

impl<S: UntracedState> UntracedResult<S> {
    pub fn new(iterations: usize, final_state: S) -> (r: Self)
        ensures
            r.iterations == iterations,
            r.final_state == final_state,
            r.expanded@ == Seq::<u64>::empty(),
            r.frontier@ == Map::<u64, (S, usize)>::empty(),
    {
        UntracedResult {
            iterations,
            final_state,
            expanded: Ghost(Seq::empty()),
            frontier: Ghost(Map::empty()),
        }
    }
}

/// Offers to the open list, in order, each of `successors` whose key is not
/// in `closed`, under its key and at its cost `f`.
pub fn relax<S: UntracedState>(open_list: &mut OpenList<S>, closed: &HashSet<u64>, successors: Vec<S>)
    requires
        old(open_list).wf(),
    ensures
        final(open_list).wf(),
        final(open_list).model() == relaxed(old(open_list).model(), closed@, successors@),
{
    let ghost items = successors@;
    let ghost m0 = open_list.model();
    for successor in it: successors
        invariant
            it.seq() == items,
            open_list.wf(),
            open_list.model() == relaxed(m0, closed@, items.take(it.index() as int)),
    {
        let ghost i = it.index() as int;
        proof {
            assert(successor == items[i]);
            assert(items.take(i + 1).drop_last() =~= items.take(i));
            assert(items.take(i + 1).last() == items[i]);
        }
        let successor_key = successor.key();
        if !closed.contains(&successor_key) {
            open_list.insert(successor_key, successor);
        }
    }
    proof {
        assert(items.take(items.len() as int) =~= items);
    }
}

/// Runs A* from `initial_state` and returns the first goal taken from the
/// open list, or `None` when the open list runs dry first. The goal returned
/// is reached from the start through successors; a start that is a goal is
/// returned at once, with no expansion.
///
/// Each step closes the key of the entry it takes, and no closed key is
/// offered again, so no key is expanded twice and the search always ends.
pub fn untraced_astar<S: UntracedState>(initial_state: S) -> (r: Option<UntracedResult<S>>)
    ensures
        r matches Some(res) ==> res.final_state.spec_is_goal() && reaches(
            initial_state,
            res.final_state,
        ),
        r matches Some(res) ==> is_min_entry(res.frontier@, res.final_state.spec_key())
            && res.frontier@[res.final_state.spec_key()].0 == res.final_state && forall|k: u64| #[trigger]
            res.frontier@.contains_key(k) ==> res.frontier@[k].1 == res.frontier@[k].0.spec_f(),
        r matches Some(res) ==> res.expanded@.no_duplicates() && res.expanded@.len()
            == res.iterations && !res.expanded@.contains(res.final_state.spec_key()),
        r matches Some(res) ==> forall|i: int|
            0 <= i < res.expanded@.len() ==> key_reached(initial_state, #[trigger] res.expanded@[i]),
        initial_state.spec_is_goal() ==> (r matches Some(res) && res.iterations == 0
            && res.final_state == initial_state),
{
    let ghost start = initial_state;
    proof {
        lemma_reaches_itself(start);
    }
    let mut open_list: OpenList<S> = OpenList::new();
    let mut closed_list: HashSet<u64> = HashSet::new();
    let initial_key = initial_state.key();
    open_list.insert(initial_key, initial_state);
    let ghost mut first = true;
    let ghost mut expanded: Seq<u64> = Seq::empty();
    proof {
        assert(open_list.model() =~= map![initial_key => (start, start.spec_f())]);
    }
    loop
        invariant
            start == initial_state,
            open_list.wf(),
            closed_list@.finite(),
            forall|k: u64| #[trigger]
                open_list.model().contains_key(k) ==> !closed_list@.contains(k) && reaches(
                    start,
                    open_list.model()[k].0,
                ) && open_list.model()[k].0.spec_key() == k && open_list.model()[k].1
                    == open_list.model()[k].0.spec_f(),
            first ==> open_list.model() == map![initial_key => (start, start.spec_f())]
                && closed_list@.len() == 0,
            !first ==> !start.spec_is_goal(),
            expanded.no_duplicates(),
            expanded.len() == closed_list@.len(),
            forall|i: int| 0 <= i < expanded.len() ==> key_reached(start, #[trigger] expanded[i]),
            forall|k: u64| closed_list@.contains(k) <==> #[trigger] expanded.contains(k),
        decreases key_space() - closed_list@.len(),
    {
        proof {
            lemma_key_space_bound(closed_list@);
        }
        let ghost open_prev = open_list.model();
        let entry = open_list.extract_min_entry();
        match entry {
            None => {
                proof {
                    if first {
                        assert(open_prev.contains_key(initial_key));
                    }
                }
                return None;
            },
            Some(entry) => {
                let (key, current_state) = entry;
                proof {
                    assert(open_prev.contains_key(key));
                    if first {
                        assert(key == initial_key);
                    }
                }
                if current_state.is_goal() {
                    let iterations = closed_list.len();
                    return Some(
                        UntracedResult {
                            iterations,
                            final_state: current_state,
                            expanded: Ghost(expanded),
                            frontier: Ghost(open_prev),
                        },
                    );
                }
                let ghost closed_before = closed_list@;
                closed_list.insert(key);
                proof {
                    first = false;
                    lemma_expansion_closes_new_key(open_prev, closed_before, key);
                    assert(!expanded.contains(key));
                    let expanded_before = expanded;
                    expanded = expanded.push(key);
                    assert forall|i: int| 0 <= i < expanded.len() implies key_reached(
                        start,
                        #[trigger] expanded[i],
                    ) by {
                        if i == expanded.len() - 1 {
                            assert(reaches(start, current_state) && current_state.spec_key() == expanded[i]);
                        } else {
                            assert(expanded[i] == expanded_before[i]);
                        }
                    }
                    assert forall|k: u64| closed_list@.contains(k) <==> #[trigger] expanded.contains(k) by {
                        if expanded.contains(k) && k != key {
                            let i = choose|i: int| 0 <= i < expanded.len() && expanded[i] == k;
                            assert(expanded_before[i] == k);
                        }
                        if k == key {
                            assert(expanded[expanded.len() - 1] == key);
                        } else if expanded_before.contains(k) {
                            let i = choose|i: int| 0 <= i < expanded_before.len() && expanded_before[i] == k;
                            assert(expanded[i] == k);
                        }
                    }
                    assert forall|k: u64| #[trigger] open_list.model().contains_key(k) implies !closed_list@.contains(k)
                        && reaches(start, open_list.model()[k].0) && open_list.model()[k].0.spec_key() == k
                        && open_list.model()[k].1 == open_list.model()[k].0.spec_f() by {
                        assert(open_prev.contains_key(k));
                    }
                }
                let successors = current_state.generate_successors();
                proof {
                    assert forall|i: int| 0 <= i < successors@.len() implies reaches(
                        start,
                        #[trigger] successors@[i],
                    ) by {
                        lemma_reaches_successor(start, current_state, successors@[i]);
                    }
                    let ghost_closed = closed_list@;
                    lemma_relaxed_keeps(
                        open_list.model(),
                        ghost_closed,
                        successors@,
                        |k: u64, v: S| reaches(start, v) && v.spec_key() == k,
                    );
                }
                relax(&mut open_list, &closed_list, successors);
            },
        }
    }
}

} // verus!
