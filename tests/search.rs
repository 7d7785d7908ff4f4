use std::cell::RefCell;
use std::collections::HashMap;
use std::rc::Rc;

use astar::{
    reconstruct_path, traced_astar, untraced_astar, AStarState, TracedResult, TracedState,
    TracedStateWrapper, UntracedResult, UntracedState,
};

struct Graph {
    edges: Vec<Vec<(u64, usize)>>,
    heuristic: Vec<usize>,
    goal: Option<u64>,
    expanded: RefCell<Vec<u64>>,
}

#[derive(Clone)]
struct Node {
    id: u64,
    g_cost: usize,
    graph: Rc<Graph>,
}

impl AStarState for Node {
    fn spec_key(&self) -> u64 {
        self.key()
    }

    fn spec_f(&self) -> usize {
        self.f()
    }

    fn spec_is_goal(&self) -> bool {
        self.is_goal()
    }

    fn key(&self) -> u64 {
        self.id
    }

    fn h(&self) -> usize {
        self.graph.heuristic[self.id as usize]
    }

    fn f(&self) -> usize {
        self.g() + self.h()
    }

    fn g(&self) -> usize {
        self.g_cost
    }

    fn is_goal(&self) -> bool {
        self.graph.goal == Some(self.id)
    }
}

impl Node {
    fn next(&self) -> Vec<(Node, (u64, u64))> {
        self.graph.expanded.borrow_mut().push(self.id);
        self.graph.edges[self.id as usize]
            .iter()
            .map(|&(to, cost)| {
                (Node { id: to, g_cost: self.g_cost + cost, graph: self.graph.clone() }, (self.id, to))
            })
            .collect()
    }
}

impl UntracedState for Node {
    fn spec_successor(&self, next: Self) -> bool {
        self.graph.edges[self.id as usize]
            .iter()
            .any(|&(to, cost)| to == next.id && next.g_cost == self.g_cost + cost)
    }

    fn generate_successors(&self) -> Vec<Self> {
        self.next().into_iter().map(|(n, _)| n).collect()
    }
}

impl TracedState<(u64, u64)> for Node {
    fn spec_transition(&self, next: Self, change: (u64, u64)) -> bool {
        change == (self.id, next.id)
            && self.graph.edges[self.id as usize]
                .iter()
                .any(|&(to, cost)| to == next.id && next.g_cost == self.g_cost + cost)
    }

    fn generate_traced_successors(&self) -> Vec<(Self, (u64, u64))> {
        self.next()
    }
}

fn graph(edges: Vec<Vec<(u64, usize)>>, goal: Option<u64>) -> Rc<Graph> {
    let n = edges.len();
    Rc::new(Graph { edges, heuristic: vec![0; n], goal, expanded: RefCell::new(Vec::new()) })
}

fn start(graph: &Rc<Graph>) -> Node {
    Node { id: 0, g_cost: 0, graph: graph.clone() }
}

#[test]
fn start_that_is_the_goal_needs_no_expansion() {
    let g = graph(vec![vec![(1, 1)], vec![]], Some(0));
    let result = untraced_astar(start(&g)).unwrap();
    assert_eq!(result.iterations, 0);
    assert_eq!(result.final_state.id, 0);

    let g = graph(vec![vec![(1, 1)], vec![]], Some(0));
    let result = traced_astar(start(&g)).unwrap();
    assert_eq!(result.iterations, 0);
    assert!(result.path.is_empty());
    assert_eq!(result.final_state.id, 0);
    assert!(g.expanded.borrow().is_empty());
}

#[test]
fn chain_yields_both_transitions_in_order() {
    let g = graph(vec![vec![(1, 1)], vec![(2, 1)], vec![]], Some(2));
    let result = traced_astar(start(&g)).unwrap();
    assert_eq!(result.path, vec![(0, 1), (1, 2)]);
    // start and A are expanded; the goal is recognised when it is taken out.
    assert_eq!(result.iterations, 2);
    assert_eq!(result.final_state.id, 2);
    assert_eq!(result.final_state.g_cost, 2);

    let g = graph(vec![vec![(1, 1)], vec![(2, 1)], vec![]], Some(2));
    let result = untraced_astar(start(&g)).unwrap();
    assert_eq!(result.iterations, 2);
    assert_eq!(result.final_state.g_cost, 2);
}

#[test]
fn cheaper_route_found_later_wins() {
    // 0 -> 1 costs 1, 1 -> 3 costs 10; 0 -> 2 costs 3, 2 -> 3 costs 1.
    let edges = vec![vec![(1, 1), (2, 3)], vec![(3, 10)], vec![(3, 1)], vec![]];
    let g = graph(edges.clone(), Some(3));
    let result = traced_astar(start(&g)).unwrap();
    assert_eq!(result.path, vec![(0, 2), (2, 3)]);
    assert_eq!(result.final_state.g_cost, 4);
    assert_eq!(result.iterations, 3);

    let g = graph(edges, Some(3));
    let result = untraced_astar(start(&g)).unwrap();
    assert_eq!(result.final_state.g_cost, 4);
    assert_eq!(result.final_state.id, 3);
    assert_eq!(result.iterations, 3);
}

#[test]
fn successors_are_successors() {
    let g = graph(vec![vec![(1, 2), (2, 3)], vec![], vec![]], None);
    let root = start(&g);
    let next = root.generate_successors();
    assert_eq!(next.len(), 2);
    assert!(next.iter().all(|n| root.spec_successor(n.clone())));
    assert!(!root.spec_successor(Node { id: 1, g_cost: 9, graph: g.clone() }));
}

#[test]
fn path_replays_from_start_to_final_state() {
    let edges = vec![
        vec![(1, 2), (2, 5)],
        vec![(2, 1), (3, 7)],
        vec![(3, 2), (4, 9)],
        vec![(4, 1), (0, 1)],
        vec![],
    ];
    let g = graph(edges.clone(), Some(4));
    let result = traced_astar(start(&g)).unwrap();
    let mut at: u64 = 0;
    let mut cost: usize = 0;
    for &(from, to) in &result.path {
        assert_eq!(from, at);
        let edge = edges[from as usize].iter().find(|e| e.0 == to).unwrap();
        cost += edge.1;
        at = to;
    }
    assert_eq!(at, result.final_state.id);
    assert_eq!(cost, result.final_state.g_cost);
    assert_eq!(cost, 6);
    assert_eq!(result.path, vec![(0, 1), (1, 2), (2, 3), (3, 4)]);

    // The same check through the transition relation the states declare.
    let mut state = start(&g);
    for &(from, to) in &result.path {
        let next = state.generate_traced_successors().into_iter().find(|(_, c)| *c == (from, to)).unwrap().0;
        assert!(state.spec_transition(next.clone(), (from, to)));
        state = next;
    }
    assert_eq!(state.id, result.final_state.id);
    assert_eq!(state.g_cost, result.final_state.g_cost);
}

#[test]
fn cyclic_space_without_goal_ends_and_expands_each_key_once() {
    let edges = vec![vec![(1, 1), (2, 1)], vec![(0, 1), (2, 1)], vec![(0, 1), (1, 1), (3, 4)], vec![(0, 1)]];
    let g = graph(edges.clone(), None);
    assert!(untraced_astar(start(&g)).is_none());
    let mut seen = g.expanded.borrow().clone();
    assert_eq!(seen.len(), 4);
    seen.sort();
    seen.dedup();
    assert_eq!(seen.len(), 4);

    let g = graph(edges, None);
    assert!(traced_astar(start(&g)).is_none());
    let mut seen = g.expanded.borrow().clone();
    assert_eq!(seen.len(), 4);
    seen.sort();
    seen.dedup();
    assert_eq!(seen.len(), 4);
}

#[test]
fn unreachable_goal_gives_none() {
    let g = graph(vec![vec![(1, 1)], vec![], vec![]], Some(2));
    assert!(traced_astar(start(&g)).is_none());
    let g = graph(vec![vec![(1, 1)], vec![], vec![]], Some(2));
    assert!(untraced_astar(start(&g)).is_none());
}

#[test]
fn heuristic_steers_the_search() {
    // Two routes of equal cost; the heuristic favours the one through 2.
    let edges = vec![vec![(1, 1), (2, 1)], vec![(3, 1)], vec![(3, 1)], vec![]];
    let g = Rc::new(Graph {
        edges,
        heuristic: vec![1, 5, 1, 0],
        goal: Some(3),
        expanded: RefCell::new(Vec::new()),
    });
    let result = traced_astar(start(&g)).unwrap();
    assert_eq!(result.path, vec![(0, 2), (2, 3)]);
    assert_eq!(result.iterations, 2);
    assert_eq!(*g.expanded.borrow(), vec![0, 2]);
}

fn wrapper(id: u64, prev: Option<u64>, change: Option<char>, g: &Rc<Graph>) -> TracedStateWrapper<Node, char> {
    TracedStateWrapper { state: Node { id, g_cost: 0, graph: g.clone() }, prev_key: prev, change }
}

#[test]
fn reconstruct_path_follows_predecessors() {
    let g = graph(vec![vec![]; 5], None);
    let mut closed = HashMap::new();
    closed.insert(0, wrapper(0, None, None, &g));
    closed.insert(1, wrapper(1, Some(0), Some('a'), &g));
    closed.insert(2, wrapper(2, Some(1), Some('b'), &g));
    closed.insert(4, wrapper(4, Some(0), Some('z'), &g));
    assert_eq!(reconstruct_path(closed, Some(2), Some('c')), vec!['a', 'b', 'c']);
}

#[test]
fn reconstruct_path_stops_at_a_missing_key() {
    let g = graph(vec![vec![]; 5], None);
    let mut closed = HashMap::new();
    closed.insert(2, wrapper(2, Some(1), Some('b'), &g));
    closed.insert(3, wrapper(3, Some(2), Some('c'), &g));
    assert_eq!(reconstruct_path(closed, Some(3), Some('d')), vec!['b', 'c', 'd']);
    assert_eq!(reconstruct_path(HashMap::<u64, TracedStateWrapper<Node, char>>::new(), None, Some('x')), vec!['x']);
    let empty: Vec<char> = reconstruct_path(HashMap::<u64, TracedStateWrapper<Node, char>>::new(), None, None);
    assert!(empty.is_empty());
}

#[test]
fn reconstruct_path_uses_each_entry_once() {
    let g = graph(vec![vec![]; 5], None);
    let mut closed = HashMap::new();
    closed.insert(1, wrapper(1, Some(2), Some('a'), &g));
    closed.insert(2, wrapper(2, Some(1), Some('b'), &g));
    assert_eq!(reconstruct_path(closed, Some(1), Some('g')), vec!['b', 'a', 'g']);
}

#[test]
fn wrappers_record_predecessor_and_label() {
    let g = graph(vec![vec![(1, 2), (2, 3)], vec![], vec![]], None);
    let root = TracedStateWrapper::<Node, (u64, u64)>::new(start(&g));
    assert_eq!(root.prev_key, None);
    assert_eq!(root.change, None);
    assert_eq!(root.key(), 0);
    assert_eq!(root.f(), 0);
    let children = root.generate_states();
    assert_eq!(children.len(), 2);
    assert_eq!(children[0].prev_key, Some(0));
    assert_eq!(children[0].change, Some((0, 1)));
    assert_eq!(children[0].g(), 2);
    assert_eq!(children[1].prev_key, Some(0));
    assert_eq!(children[1].change, Some((0, 2)));
    assert_eq!(children[1].key(), 2);
    assert!(!children[1].is_goal());
    assert_eq!(children[1].h(), 0);
}

#[test]
fn results_hold_what_they_were_given() {
    let g = graph(vec![vec![]], Some(0));
    let r = UntracedResult::new(7, start(&g));
    assert_eq!(r.iterations, 7);
    assert_eq!(r.final_state.id, 0);
    let t: TracedResult<Node, (u64, u64)> = TracedResult::new(vec![(0, 0)], 3, start(&g));
    assert_eq!(t.path, vec![(0, 0)]);
    assert_eq!(t.iterations, 3);
    assert_eq!(t.final_state.g_cost, 0);
}

#[test]
fn relax_offers_unclosed_successors_in_order() {
    let g = graph(vec![vec![]; 5], None);
    let node = |id: u64, g_cost: usize| Node { id, g_cost, graph: g.clone() };
    let mut open = astar::OpenList::new();
    open.insert(1, node(1, 5));
    let mut closed = std::collections::HashSet::new();
    closed.insert(2u64);
    astar::untraced::relax(&mut open, &closed, vec![node(1, 3), node(2, 1), node(3, 9), node(3, 4), node(4, 6)]);
    assert_eq!(open.len(), 3);
    let order: Vec<(u64, usize)> =
        std::iter::from_fn(|| open.extract_min()).map(|n| (n.id, n.g_cost)).collect();
    assert_eq!(order, vec![(1, 3), (3, 4), (4, 6)]);
}

#[test]
fn traced_relax_skips_closed_keys() {
    let g = graph(vec![vec![]; 5], None);
    let mut open = astar::OpenList::new();
    let mut closed = HashMap::new();
    let w = |id: u64, prev: Option<u64>, change: Option<(u64, u64)>| TracedStateWrapper {
        state: Node { id, g_cost: 0, graph: g.clone() },
        prev_key: prev,
        change,
    };
    closed.insert(0u64, w(0, None, None));
    let offered = vec![w(0, Some(1), Some((1, 0))), w(3, Some(0), Some((0, 3)))];
    astar::traced::relax(&mut open, &closed, offered);
    assert_eq!(open.len(), 1);
    let only = open.extract_min().unwrap();
    assert_eq!(only.state.id, 3);
    assert_eq!(only.change, Some((0, 3)));
}

#[test]
fn wrap_successors_keeps_order_and_labels() {
    let g = graph(vec![vec![]; 5], None);
    let items = vec![
        (Node { id: 2, g_cost: 1, graph: g.clone() }, (7, 2)),
        (Node { id: 4, g_cost: 2, graph: g.clone() }, (7, 4)),
    ];
    let wrapped = TracedStateWrapper::wrap_successors(7, items);
    assert_eq!(wrapped.len(), 2);
    assert_eq!(wrapped[0].state.id, 2);
    assert_eq!(wrapped[0].prev_key, Some(7));
    assert_eq!(wrapped[0].change, Some((7, 2)));
    assert_eq!(wrapped[1].state.id, 4);
    assert_eq!(wrapped[1].change, Some((7, 4)));
}

#[test]
fn path_is_no_longer_than_expansions() {
    let edges = vec![vec![(1, 1), (2, 1)], vec![(3, 1)], vec![(3, 5)], vec![(4, 1)], vec![]];
    let g = graph(edges, Some(4));
    let result = traced_astar(start(&g)).unwrap();
    assert_eq!(result.path, vec![(0, 1), (1, 3), (3, 4)]);
    assert!(result.path.len() <= result.iterations);
    assert_eq!(result.iterations, 4);
}
