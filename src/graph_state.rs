use vstd::prelude::*;
use crate::counting::{
    count_upto, lemma_count_bounded, lemma_count_positive, lemma_count_update, lemma_count_witness,
};
use crate::graph::{Direction, Graph, NodeIndex};
use crate::order::{edge_dir, in_pool, pool_nonempty};

verus! {

/// A reserved value marking an uncovered node; graphs stay below this size.
pub const NOT_IN_MAP: NodeIndex = usize::MAX;

/// A reserved value marking a node outside a terminal set; depths start at one.
pub const NOT_IN_SET: usize = 0;

/// Where candidate pairs are drawn from.
#[derive(Copy, Clone, Debug, Eq, PartialEq, Structural)]
pub enum Source {
    /// Uncovered nodes that covered nodes have edges to.
    Outgoing,
    /// Uncovered nodes that have edges to covered nodes.
    Incoming,
    /// Uncovered nodes.
    Uncovered,
}

/// A pair of query and data node indices.
#[derive(Copy, Clone, Debug)]
pub struct Pair {
    pub query_node: NodeIndex,
    pub data_node: NodeIndex,
}

impl Pair {
    pub fn new(query_node: NodeIndex, data_node: NodeIndex) -> (r: Self)
        ensures
            r.query_node == query_node,
            r.data_node == data_node,
    {
        Pair { query_node, data_node }
    }
}

/// Nodes whose entry in `set` is set and which are not covered by `map`.
pub open spec fn terminal(set: Seq<usize>, map: Seq<NodeIndex>) -> spec_fn(int) -> bool {
    |i: int| set[i] != NOT_IN_SET && map[i] == NOT_IN_MAP
}

/// Nodes covered by `map`.
pub open spec fn covered_in(map: Seq<NodeIndex>) -> spec_fn(int) -> bool {
    |i: int| map[i] != NOT_IN_MAP
}

/// Per-graph search bookkeeping: the partial map, the terminal sets and the order
/// in which nodes were covered.
#[derive(Clone, Debug)]
pub struct GraphState<'a> {
    /// The graph.
    pub graph: &'a Graph,
    /// This graph's node indices mapped to the other's, or `NOT_IN_MAP`.
    pub map: Vec<NodeIndex>,
    /// Outgoing terminal set: a nonzero entry is the depth at which the node entered it.
    /// For undirected graphs it holds all terminal nodes.
    pub outgoing: Vec<usize>,
    /// Number of uncovered nodes in the outgoing terminal set.
    pub outgoing_size: usize,
    /// Incoming terminal set, used for directed graphs only.
    pub incoming: Vec<usize>,
    /// Number of uncovered nodes in the incoming terminal set.
    pub incoming_size: usize,
    /// The node covered at depth `i + 1` is at index `i`.
    pub node_stack: Vec<NodeIndex>,
}

impl<'a> GraphState<'a> {
    pub open spec fn n(&self) -> nat {
        self.map@.len()
    }

    /// The node that node `i` is mapped to.
    pub open spec fn image(&self, i: int) -> int {
        self.map@[i] as int
    }

    pub open spec fn covered(&self, i: int) -> bool {
        self.map@[i] != NOT_IN_MAP
    }

    /// Node `i` may be drawn from `source`.
    pub open spec fn in_source(&self, source: Source, i: int) -> bool {
        match source {
            Source::Outgoing => terminal(self.outgoing@, self.map@)(i),
            Source::Incoming => terminal(self.incoming@, self.map@)(i),
            Source::Uncovered => !self.covered(i),
        }
    }

    /// The terminal sets have the graph's size and their sizes are counted right.
    pub open spec fn sets_ok(&self) -> bool {
        &&& self.graph.wf()
        &&& self.map@.len() == self.graph.spec_node_count()
        &&& self.outgoing@.len() == self.n()
        &&& self.incoming@.len() == self.n()
        &&& self.node_stack@.len() == self.n()
        &&& self.n() < NOT_IN_MAP
        &&& self.outgoing_size == count_upto(self.n(), terminal(self.outgoing@, self.map@))
        &&& self.incoming_size == count_upto(self.n(), terminal(self.incoming@, self.map@))
        &&& !self.graph.spec_directed() ==> forall|i: int|
            0 <= i < self.n() ==> #[trigger] self.incoming@[i] == NOT_IN_SET
    }

    /// Well-formed with `depth` nodes covered.
    pub open spec fn wf(&self, depth: nat) -> bool {
        &&& self.sets_ok()
        &&& depth <= self.n()
        &&& count_upto(self.n(), covered_in(self.map@)) == depth
        &&& forall|i: int|
            0 <= i < depth ==> (#[trigger] self.node_stack@[i]) < self.n() && self.covered(
                self.node_stack@[i] as int,
            )
        &&& forall|i: int, j: int|
            0 <= i < depth && 0 <= j < depth && i != j ==> #[trigger] self.node_stack@[i]
                != #[trigger] self.node_stack@[j]
        &&& forall|i: int|
            0 <= i < self.n() ==> self.entered_by(self.outgoing@, i, depth, Direction::Outgoing)
        &&& forall|i: int|
            0 <= i < self.n() ==> self.entered_by(self.incoming@, i, depth, Direction::Incoming)
        &&& self.holds_neighbors(self.outgoing@, depth, Direction::Outgoing)
        &&& self.graph.spec_directed() ==> self.holds_neighbors(
            self.incoming@,
            depth,
            Direction::Incoming,
        )
        &&& forall|x: int| 0 <= x < self.n() && #[trigger] self.covered(x) ==> self.stacked(x, depth)
    }

    /// Node `x` was covered at a depth up to `depth`.
    pub open spec fn stacked(&self, x: int, depth: nat) -> bool {
        exists|j: int| 0 <= j < depth && #[trigger] self.node_stack@[j] == x
    }

    /// Each neighbour in `direction` of the node covered at depth `k + 1` is in `set`,
    /// marked with a depth up to `k + 1`.
    pub open spec fn holds_neighbors(&self, set: Seq<usize>, depth: nat, direction: Direction) -> bool {
        forall|k: int, y: usize|
            0 <= k < depth && #[trigger] self.graph.neighbors_of(
                self.node_stack@[k] as int,
                direction,
            ).contains(y) ==> set[y as int] != NOT_IN_SET && set[y as int] <= k + 1
    }

    /// Node `i` of `set` entered it at a depth up to `depth`, as a neighbour in
    /// `direction` of the node covered at that depth.
    pub open spec fn entered_by(&self, set: Seq<usize>, i: int, depth: nat, direction: Direction) -> bool {
        &&& set[i] <= depth
        &&& set[i] != NOT_IN_SET ==> self.graph.neighbors_of(
            self.node_stack@[set[i] - 1] as int,
            direction,
        ).contains(i as usize)
    }

    /// Node `x` may be drawn from `source` in the state as it was at depth `k`: the
    /// nodes covered below `k` alone, and the terminal entries made up to `k`.
    pub open spec fn in_source_at(&self, k: nat, source: Source, x: int) -> bool {
        match source {
            Source::Outgoing => self.outgoing@[x] != NOT_IN_SET && self.outgoing@[x] <= k
                && !self.stacked(x, k),
            Source::Incoming => self.incoming@[x] != NOT_IN_SET && self.incoming@[x] <= k
                && !self.stacked(x, k),
            Source::Uncovered => !self.stacked(x, k),
        }
    }

    /// The nodes that may be drawn from `source` are those of the pool that the covered
    /// nodes, in the order they were covered, leave.
    pub proof fn lemma_in_pool(&self, depth: nat, source: Source, x: int)
        requires
            self.wf(depth),
            0 <= x < self.n(),
        ensures
            self.in_source(source, x) == in_pool(
                *self.graph,
                self.node_stack@.subrange(0, depth as int),
                source,
                x,
            ),
    {
        let g = *self.graph;
        let placed = self.node_stack@.subrange(0, depth as int);
        if self.covered(x) {
            assert(self.stacked(x, depth));
            let j = choose|j: int| 0 <= j < depth && #[trigger] self.node_stack@[j] == x;
            assert(placed[j] == x as usize);
        }
        if placed.contains(x as usize) {
            let j = choose|j: int| 0 <= j < placed.len() && placed[j] == x as usize;
            assert(self.node_stack@[j] == x);
            assert(self.covered(self.node_stack@[j] as int));
        }
        assert(self.entered_by(self.outgoing@, x, depth, Direction::Outgoing));
        assert(self.entered_by(self.incoming@, x, depth, Direction::Incoming));
        let dirs = if source == Source::Incoming {
            Direction::Incoming
        } else {
            Direction::Outgoing
        };
        let set = if source == Source::Incoming {
            self.incoming@
        } else {
            self.outgoing@
        };
        if source != Source::Uncovered && (dirs == Direction::Outgoing || g.spec_directed()) {
            if set[x] != NOT_IN_SET {
                let j = set[x] - 1;
                let u = self.node_stack@[j];
                g.lemma_neighbors(u as int, dirs);
                let k = choose|k: int|
                    0 <= k < g.neighbors_of(u as int, dirs).len() && g.neighbors_of(
                        u as int,
                        dirs,
                    )[k] == x as usize;
                assert(edge_dir(g, placed[j] as int, x, dirs));
            }
            if exists|j: int| 0 <= j < placed.len() && #[trigger] edge_dir(g, placed[j] as int, x, dirs) {
                let j = choose|j: int| 0 <= j < placed.len() && #[trigger] edge_dir(g, placed[j] as int, x, dirs);
                let u = self.node_stack@[j];
                assert(u < self.n());
                g.lemma_neighbors(u as int, dirs);
                assert(g.neighbors_of(self.node_stack@[j] as int, dirs).contains(x as usize));
            }
        }
    }

    /// A terminal set has uncovered members exactly when its pool is nonempty.
    pub proof fn lemma_size_pool(&self, depth: nat)
        requires
            self.wf(depth),
        ensures
            (self.outgoing_size > 0) == pool_nonempty(
                *self.graph,
                self.node_stack@.subrange(0, depth as int),
                Source::Outgoing,
            ),
            (self.incoming_size > 0) == pool_nonempty(
                *self.graph,
                self.node_stack@.subrange(0, depth as int),
                Source::Incoming,
            ),
    {
        let g = *self.graph;
        let placed = self.node_stack@.subrange(0, depth as int);
        let n = self.n();
        if self.outgoing_size > 0 {
            lemma_count_witness(n, terminal(self.outgoing@, self.map@));
            let x = choose|x: int| 0 <= x < n && #[trigger] terminal(self.outgoing@, self.map@)(x);
            self.lemma_in_pool(depth, Source::Outgoing, x);
        }
        if pool_nonempty(g, placed, Source::Outgoing) {
            let x = choose|x: int| #[trigger] in_pool(g, placed, Source::Outgoing, x);
            self.lemma_in_pool(depth, Source::Outgoing, x);
            lemma_count_positive(n, terminal(self.outgoing@, self.map@), x);
        }
        if self.incoming_size > 0 {
            lemma_count_witness(n, terminal(self.incoming@, self.map@));
            let x = choose|x: int| 0 <= x < n && #[trigger] terminal(self.incoming@, self.map@)(x);
            self.lemma_in_pool(depth, Source::Incoming, x);
        }
        if pool_nonempty(g, placed, Source::Incoming) {
            let x = choose|x: int| #[trigger] in_pool(g, placed, Source::Incoming, x);
            self.lemma_in_pool(depth, Source::Incoming, x);
            lemma_count_positive(n, terminal(self.incoming@, self.map@), x);
        }
    }

    /// At the current depth, the view at that depth is the state itself.
    pub proof fn lemma_view_current(&self, depth: nat, source: Source, x: int)
        requires
            self.wf(depth),
            0 <= x < self.n(),
        ensures
            self.in_source(source, x) == self.in_source_at(depth, source, x),
    {
        assert(self.entered_by(self.outgoing@, x, depth, Direction::Outgoing));
        assert(self.entered_by(self.incoming@, x, depth, Direction::Incoming));
        if self.stacked(x, depth) {
            let j = choose|j: int| 0 <= j < depth && #[trigger] self.node_stack@[j] == x;
            assert(self.covered(self.node_stack@[j] as int));
        }
        if self.covered(x) {
            assert(self.stacked(x, depth));
        }
    }

    /// A push at `depth` leaves the views at the depths below it as they were.
    pub proof fn lemma_push_views(&self, pushed: &Self, node: NodeIndex, depth: usize, k: nat, source: Source, x: int)
        requires
            1 <= depth <= self.n(),
            self.wf((depth - 1) as nat),
            node < self.n(),
            pushed.graph == self.graph,
            pushed.node_stack@ == self.node_stack@.update(depth - 1, node),
            pushed.outgoing@ == entered(
                self.outgoing@,
                self.graph.neighbors_of(node as int, Direction::Outgoing),
                depth,
            ),
            pushed.incoming@ == if self.graph.spec_directed() {
                entered(
                    self.incoming@,
                    self.graph.neighbors_of(node as int, Direction::Incoming),
                    depth,
                )
            } else {
                self.incoming@
            },
            k < depth,
            0 <= x < self.n(),
        ensures
            pushed.in_source_at(k, source, x) == self.in_source_at(k, source, x),
    {
        assert(self.entered_by(self.outgoing@, x, (depth - 1) as nat, Direction::Outgoing));
        assert(self.entered_by(self.incoming@, x, (depth - 1) as nat, Direction::Incoming));
        assert forall|j: int| 0 <= j < k implies pushed.node_stack@[j] == self.node_stack@[j] by {}
        if pushed.stacked(x, k) {
            let j = choose|j: int| 0 <= j < k && #[trigger] pushed.node_stack@[j] == x;
            assert(self.node_stack@[j] == x);
        }
        if self.stacked(x, k) {
            let j = choose|j: int| 0 <= j < k && #[trigger] self.node_stack@[j] == x;
            assert(pushed.node_stack@[j] == x);
        }
    }

    /// Creates the state of `graph` with nothing covered.
    pub fn new(graph: &'a Graph) -> (r: Self)
        requires
            graph.wf(),
            graph.spec_node_count() < NOT_IN_MAP,
        ensures
            r.wf(0),
            r.graph == graph,
            forall|i: int| 0 <= i < r.n() ==> !#[trigger] r.covered(i),
            r.map@ == Seq::new(r.n(), |i: int| NOT_IN_MAP),
            r.outgoing@ == Seq::new(r.n(), |i: int| NOT_IN_SET),
            r.incoming@ == Seq::new(r.n(), |i: int| NOT_IN_SET),
            r.node_stack@ == Seq::new(r.n(), |i: int| 0usize),
            r.outgoing_size == 0,
            r.incoming_size == 0,
    {
        let n = graph.node_count();
        let r = GraphState {
            graph,
            map: vec![NOT_IN_MAP; n],
            outgoing: vec![NOT_IN_SET; n],
            outgoing_size: 0,
            incoming: vec![NOT_IN_SET; n],
            incoming_size: 0,
            node_stack: vec![0; n],
        };
        proof {
            lemma_count_zero(n as nat, terminal(r.outgoing@, r.map@));
            lemma_count_zero(n as nat, terminal(r.incoming@, r.map@));
            lemma_count_zero(n as nat, covered_in(r.map@));
            assert(r.map@ =~= Seq::new(r.n(), |i: int| NOT_IN_MAP));
            assert(r.outgoing@ =~= Seq::new(r.n(), |i: int| NOT_IN_SET));
            assert(r.incoming@ =~= Seq::new(r.n(), |i: int| NOT_IN_SET));
            assert(r.node_stack@ =~= Seq::new(r.n(), |i: int| 0usize));
        }
        r
    }

    /// Returns `true` if `node` is covered by the partial map.
    pub fn is_covered(&self, node: NodeIndex) -> (r: bool)
        requires
            node < self.map@.len(),
        ensures
            r == self.covered(node as int),
    {
        self.map[node] != NOT_IN_MAP
    }

    /// Returns `true` if `node` is in the terminal set `set` and uncovered.
    pub fn in_terminal_set(&self, node: NodeIndex, set: &Vec<usize>) -> (r: bool)
        requires
            node < self.map@.len(),
            node < set@.len(),
        ensures
            r == terminal(set@, self.map@)(node as int),
    {
        set[node] != NOT_IN_SET && !self.is_covered(node)
    }

    /// Returns `true` if `node` may be drawn from `source`.
    pub fn is_candidate(&self, source: Source, node: NodeIndex) -> (r: bool)
        requires
            self.map@.len() == self.outgoing@.len() == self.incoming@.len(),
            node < self.map@.len(),
        ensures
            r == self.in_source(source, node as int),
    {
        match source {
            Source::Outgoing => self.in_terminal_set(node, &self.outgoing),
            Source::Incoming => self.in_terminal_set(node, &self.incoming),
            Source::Uncovered => !self.is_covered(node),
        }
    }

    /// Returns the least node at or after `skip` that may be drawn from `source`.
    pub fn next_node(&self, source: Source, skip: usize) -> (r: Option<NodeIndex>)
        requires
            self.map@.len() == self.outgoing@.len() == self.incoming@.len(),
        ensures
            r matches Some(x) ==> skip <= x < self.n() && self.in_source(source, x as int),
            r matches Some(x) ==> forall|y: int| skip <= y < x ==> !self.in_source(source, y),
            r is None ==> forall|y: int| skip <= y < self.n() ==> !self.in_source(source, y),
    {
        let n = self.map.len();
        let mut node = skip;
        while node < n
            invariant
                self.map@.len() == self.outgoing@.len() == self.incoming@.len(),
                n == self.map@.len(),
                skip <= node,
                forall|y: int| skip <= y < node ==> !self.in_source(source, y),
            decreases n - node,
        {
            if self.is_candidate(source, node) {
                return Some(node);
            }
            node = node + 1;
        }
        None
    }

    /// Returns the first node that may be drawn from `source`.
    pub fn first_node(&self, source: Source) -> (r: Option<NodeIndex>)
        requires
            self.map@.len() == self.outgoing@.len() == self.incoming@.len(),
        ensures
            r matches Some(x) ==> x < self.n() && self.in_source(source, x as int),
            r matches Some(x) ==> forall|y: int| 0 <= y < x ==> !self.in_source(source, y),
            r is None ==> forall|y: int| 0 <= y < self.n() ==> !self.in_source(source, y),
    {
        self.next_node(source, 0)
    }

    /// Puts the neighbours of `node` in `direction` into that direction's terminal set.
    pub fn push_neighbors(&mut self, node: NodeIndex, direction: Direction, depth: usize)
        requires
            old(self).sets_ok(),
            node < old(self).n(),
            depth >= 1,
            direction == Direction::Incoming ==> old(self).graph.spec_directed(),
        ensures
            final(self).sets_ok(),
            final(self).graph == old(self).graph,
            final(self).map == old(self).map,
            final(self).node_stack == old(self).node_stack,
            direction == Direction::Outgoing ==> final(self).incoming == old(self).incoming,
            direction == Direction::Incoming ==> final(self).outgoing == old(self).outgoing,
            direction == Direction::Outgoing ==> final(self).outgoing@ == entered(
                old(self).outgoing@,
                old(self).graph.neighbors_of(node as int, direction),
                depth,
            ),
            direction == Direction::Incoming ==> final(self).incoming@ == entered(
                old(self).incoming@,
                old(self).graph.neighbors_of(node as int, direction),
                depth,
            ),
    {
        let graph = self.graph;
        let neighbors = graph.neighbors(node, direction);
        proof {
            graph.lemma_neighbors(node as int, direction);
        }
        match direction {
            Direction::Outgoing => add_to_terminal(
                &mut self.outgoing,
                &mut self.outgoing_size,
                &self.map,
                neighbors,
                depth,
            ),
            Direction::Incoming => add_to_terminal(
                &mut self.incoming,
                &mut self.incoming_size,
                &self.map,
                neighbors,
                depth,
            ),
        }
    }

    /// Takes the neighbours of `node` in `direction` that entered that direction's
    /// terminal set at `depth` back out of it.
    pub fn pop_neighbors(&mut self, node: NodeIndex, direction: Direction, depth: usize)
        requires
            old(self).sets_ok(),
            node < old(self).n(),
            depth >= 1,
            direction == Direction::Incoming ==> old(self).graph.spec_directed(),
        ensures
            final(self).sets_ok(),
            final(self).graph == old(self).graph,
            final(self).map == old(self).map,
            final(self).node_stack == old(self).node_stack,
            direction == Direction::Outgoing ==> final(self).incoming == old(self).incoming,
            direction == Direction::Incoming ==> final(self).outgoing == old(self).outgoing,
            direction == Direction::Outgoing ==> final(self).outgoing@ == cleared(
                old(self).outgoing@,
                old(self).graph.neighbors_of(node as int, direction),
                depth,
            ),
            direction == Direction::Incoming ==> final(self).incoming@ == cleared(
                old(self).incoming@,
                old(self).graph.neighbors_of(node as int, direction),
                depth,
            ),
    {
        let graph = self.graph;
        let neighbors = graph.neighbors(node, direction);
        proof {
            graph.lemma_neighbors(node as int, direction);
        }
        match direction {
            Direction::Outgoing => remove_from_terminal(
                &mut self.outgoing,
                &mut self.outgoing_size,
                &self.map,
                neighbors,
                depth,
            ),
            Direction::Incoming => remove_from_terminal(
                &mut self.incoming,
                &mut self.incoming_size,
                &self.map,
                neighbors,
                depth,
            ),
        }
    }

    /// Maps `node` to `to_node` at `depth` and grows the terminal sets.
    pub fn push(&mut self, node: NodeIndex, to_node: NodeIndex, depth: usize)
        requires
            depth >= 1,
            old(self).wf((depth - 1) as nat),
            depth <= old(self).n(),
            node < old(self).n(),
            !old(self).covered(node as int),
            to_node != NOT_IN_MAP,
        ensures
            final(self).wf(depth as nat),
            final(self).graph == old(self).graph,
            final(self).map@ == old(self).map@.update(node as int, to_node),
            final(self).node_stack@ == old(self).node_stack@.update(depth - 1, node),
            final(self).outgoing@ == entered(
                old(self).outgoing@,
                old(self).graph.neighbors_of(node as int, Direction::Outgoing),
                depth,
            ),
            final(self).incoming@ == if old(self).graph.spec_directed() {
                entered(
                    old(self).incoming@,
                    old(self).graph.neighbors_of(node as int, Direction::Incoming),
                    depth,
                )
            } else {
                old(self).incoming@
            },
    {
        let ghost n = self.n();
        let ghost before = *self;
        let ghost old_map = self.map@;
        let ghost old_stack = self.node_stack@;
        self.node_stack.set(depth - 1, node);
        self.map.set(node, to_node);
        proof {
            lemma_count_update(n, covered_in(old_map), covered_in(self.map@), node as int);
            lemma_count_update(
                n,
                terminal(self.outgoing@, old_map),
                terminal(self.outgoing@, self.map@),
                node as int,
            );
            lemma_count_update(
                n,
                terminal(self.incoming@, old_map),
                terminal(self.incoming@, self.map@),
                node as int,
            );
            if self.outgoing@[node as int] != NOT_IN_SET {
                lemma_count_positive(n, terminal(self.outgoing@, old_map), node as int);
            }
            if self.incoming@[node as int] != NOT_IN_SET {
                lemma_count_positive(n, terminal(self.incoming@, old_map), node as int);
            }
            assert forall|i: int| 0 <= i < depth - 1 implies old_stack[i] != node by {
                assert(old_map[old_stack[i] as int] != NOT_IN_MAP);
            }
        }
        if self.outgoing[node] != NOT_IN_SET {
            self.outgoing_size = self.outgoing_size - 1;
        }
        let directed = self.graph.is_directed();
        if directed && self.incoming[node] != NOT_IN_SET {
            self.incoming_size = self.incoming_size - 1;
        }
        self.push_neighbors(node, Direction::Outgoing, depth);
        if directed {
            self.push_neighbors(node, Direction::Incoming, depth);
        }
        proof {
            assert(self.node_stack@[depth - 1] == node);
            assert forall|i: int| 0 <= i < n implies self.entered_by(
                self.outgoing@,
                i,
                depth as nat,
                Direction::Outgoing,
            ) by {
                assert(before.entered_by(before.outgoing@, i, (depth - 1) as nat, Direction::Outgoing));
                let k = before.outgoing@[i];
                if self.outgoing@[i] == k && k != NOT_IN_SET {
                    assert(self.node_stack@[k - 1] == old_stack[k - 1]);
                }
            }
            assert forall|i: int| 0 <= i < n implies self.entered_by(
                self.incoming@,
                i,
                depth as nat,
                Direction::Incoming,
            ) by {
                assert(before.entered_by(before.incoming@, i, (depth - 1) as nat, Direction::Incoming));
                let k = before.incoming@[i];
                if self.incoming@[i] == k && k != NOT_IN_SET {
                    assert(self.node_stack@[k - 1] == old_stack[k - 1]);
                }
            }
            before.lemma_push_holds(self, node, depth, Direction::Outgoing);
            if directed {
                before.lemma_push_holds(self, node, depth, Direction::Incoming);
            }
            assert forall|x: int| 0 <= x < n && #[trigger] self.covered(x) implies self.stacked(
                x,
                depth as nat,
            ) by {
                if x == node {
                    assert(self.node_stack@[depth - 1] == x);
                } else {
                    assert(before.covered(x));
                    let j = choose|j: int| 0 <= j < depth - 1 && #[trigger] old_stack[j] == x;
                    assert(self.node_stack@[j] == x);
                }
            }
        }
    }

    /// Pushing `node` at `depth` keeps every covered node's neighbours in the set of
    /// `direction`.
    proof fn lemma_push_holds(&self, pushed: &Self, node: NodeIndex, depth: usize, direction: Direction)
        requires
            1 <= depth <= self.n(),
            self.wf((depth - 1) as nat),
            node < self.n(),
            direction == Direction::Incoming ==> self.graph.spec_directed(),
            pushed.graph == self.graph,
            pushed.node_stack@ == self.node_stack@.update(depth - 1, node),
            direction == Direction::Outgoing ==> pushed.outgoing@ == entered(
                self.outgoing@,
                self.graph.neighbors_of(node as int, direction),
                depth,
            ),
            direction == Direction::Incoming ==> pushed.incoming@ == entered(
                self.incoming@,
                self.graph.neighbors_of(node as int, direction),
                depth,
            ),
        ensures
            direction == Direction::Outgoing ==> pushed.holds_neighbors(
                pushed.outgoing@,
                depth as nat,
                direction,
            ),
            direction == Direction::Incoming ==> pushed.holds_neighbors(
                pushed.incoming@,
                depth as nat,
                direction,
            ),
    {
        let old_set = if direction == Direction::Outgoing {
            self.outgoing@
        } else {
            self.incoming@
        };
        let new_set = if direction == Direction::Outgoing {
            pushed.outgoing@
        } else {
            pushed.incoming@
        };
        assert(new_set == entered(old_set, self.graph.neighbors_of(node as int, direction), depth));
        assert(self.holds_neighbors(old_set, (depth - 1) as nat, direction));
        assert forall|k: int, y: usize|
            0 <= k < depth && #[trigger] pushed.graph.neighbors_of(
                pushed.node_stack@[k] as int,
                direction,
            ).contains(y) implies new_set[y as int] != NOT_IN_SET && new_set[y as int] <= k + 1 by {
            let u = pushed.node_stack@[k];
            if k < depth - 1 {
                assert(u == self.node_stack@[k]);
                assert(u < self.n());
            } else {
                assert(u == node);
            }
            self.graph.lemma_neighbors(u as int, direction);
            let j = choose|j: int|
                0 <= j < self.graph.neighbors_of(u as int, direction).len()
                    && self.graph.neighbors_of(u as int, direction)[j] == y;
            assert(y < self.n());
            assert(self.entered_by(self.outgoing@, y as int, (depth - 1) as nat, Direction::Outgoing));
            assert(self.entered_by(self.incoming@, y as int, (depth - 1) as nat, Direction::Incoming));
            if k < depth - 1 {
                assert(self.graph.neighbors_of(self.node_stack@[k] as int, direction).contains(y));
            }
        }
    }

    /// Uncovers the node covered at `depth`, shrinks the terminal sets back to what
    /// they were before that depth, and returns the node.
    pub fn pop(&mut self, depth: usize) -> (r: NodeIndex)
        requires
            depth >= 1,
            old(self).wf(depth as nat),
        ensures
            final(self).wf((depth - 1) as nat),
            final(self).graph == old(self).graph,
            r == old(self).node_stack@[depth - 1],
            final(self).map@ == old(self).map@.update(r as int, NOT_IN_MAP),
            final(self).node_stack == old(self).node_stack,
            final(self).outgoing@ == left_at(old(self).outgoing@, depth),
            final(self).incoming@ == left_at(old(self).incoming@, depth),
    {
        let ghost n = self.n();
        let ghost before = *self;
        let ghost old_map = self.map@;
        let node = self.node_stack[depth - 1];
        self.map.set(node, NOT_IN_MAP);
        proof {
            lemma_count_update(n, covered_in(old_map), covered_in(self.map@), node as int);
            lemma_count_update(
                n,
                terminal(self.outgoing@, old_map),
                terminal(self.outgoing@, self.map@),
                node as int,
            );
            lemma_count_update(
                n,
                terminal(self.incoming@, old_map),
                terminal(self.incoming@, self.map@),
                node as int,
            );
            lemma_count_bounded(n, terminal(self.outgoing@, self.map@));
            lemma_count_bounded(n, terminal(self.incoming@, self.map@));
            assert forall|i: int| 0 <= i < depth - 1 implies #[trigger] self.node_stack@[i] != node by {
                assert(self.node_stack@[i] != self.node_stack@[depth - 1]);
            }
        }
        if self.outgoing[node] != NOT_IN_SET {
            self.outgoing_size = self.outgoing_size + 1;
        }
        let directed = self.graph.is_directed();
        if directed && self.incoming[node] != NOT_IN_SET {
            self.incoming_size = self.incoming_size + 1;
        }
        self.pop_neighbors(node, Direction::Outgoing, depth);
        if directed {
            self.pop_neighbors(node, Direction::Incoming, depth);
        }
        proof {
            assert forall|i: int| 0 <= i < n implies self.outgoing@[i] == left_at(
                before.outgoing@,
                depth,
            )[i] && self.incoming@[i] == left_at(before.incoming@, depth)[i] by {
                assert(before.entered_by(before.outgoing@, i, depth as nat, Direction::Outgoing));
                assert(before.entered_by(before.incoming@, i, depth as nat, Direction::Incoming));
            }
            assert(self.outgoing@ =~= left_at(before.outgoing@, depth));
            assert(self.incoming@ =~= left_at(before.incoming@, depth));
            assert forall|i: int| 0 <= i < n implies #[trigger] self.entered_by(
                self.outgoing@,
                i,
                (depth - 1) as nat,
                Direction::Outgoing,
            ) by {
                assert(before.entered_by(before.outgoing@, i, depth as nat, Direction::Outgoing));
            }
            assert forall|i: int| 0 <= i < n implies #[trigger] self.entered_by(
                self.incoming@,
                i,
                (depth - 1) as nat,
                Direction::Incoming,
            ) by {
                assert(before.entered_by(before.incoming@, i, depth as nat, Direction::Incoming));
            }
            before.lemma_pop_holds(self, depth, Direction::Outgoing);
            if directed {
                before.lemma_pop_holds(self, depth, Direction::Incoming);
            }
            assert forall|x: int| 0 <= x < n && #[trigger] self.covered(x) implies self.stacked(
                x,
                (depth - 1) as nat,
            ) by {
                assert(before.covered(x));
                let j = choose|j: int| 0 <= j < depth && #[trigger] before.node_stack@[j] == x;
                assert(j != depth - 1);
            }
        }
        node
    }

    /// Popping at `depth` keeps the neighbours of the nodes still covered in the set of
    /// `direction`.
    proof fn lemma_pop_holds(&self, popped: &Self, depth: usize, direction: Direction)
        requires
            1 <= depth <= self.n(),
            self.wf(depth as nat),
            direction == Direction::Incoming ==> self.graph.spec_directed(),
            popped.graph == self.graph,
            popped.node_stack == self.node_stack,
            direction == Direction::Outgoing ==> popped.outgoing@ == left_at(self.outgoing@, depth),
            direction == Direction::Incoming ==> popped.incoming@ == left_at(self.incoming@, depth),
        ensures
            direction == Direction::Outgoing ==> popped.holds_neighbors(
                popped.outgoing@,
                (depth - 1) as nat,
                direction,
            ),
            direction == Direction::Incoming ==> popped.holds_neighbors(
                popped.incoming@,
                (depth - 1) as nat,
                direction,
            ),
    {
        let old_set = if direction == Direction::Outgoing {
            self.outgoing@
        } else {
            self.incoming@
        };
        let new_set = if direction == Direction::Outgoing {
            popped.outgoing@
        } else {
            popped.incoming@
        };
        assert(new_set == left_at(old_set, depth));
        assert(self.holds_neighbors(old_set, depth as nat, direction));
        assert forall|k: int, y: usize|
            0 <= k < depth - 1 && #[trigger] popped.graph.neighbors_of(
                popped.node_stack@[k] as int,
                direction,
            ).contains(y) implies new_set[y as int] != NOT_IN_SET && new_set[y as int] <= k + 1 by {
            let u = self.node_stack@[k];
            self.graph.lemma_neighbors(u as int, direction);
            let j = choose|j: int|
                0 <= j < self.graph.neighbors_of(u as int, direction).len()
                    && self.graph.neighbors_of(u as int, direction)[j] == y;
            assert(y < self.n());
        }
    }

    /// Covering `node` at `depth` and uncovering it again restores the partial map,
    /// the terminal sets and their sizes: `pushed` and `popped` are the states that
    /// `push` and then `pop` leave.
    pub proof fn lemma_push_pop_restores(
        &self,
        pushed: &Self,
        popped: &Self,
        node: NodeIndex,
        to_node: NodeIndex,
        depth: usize,
    )
        requires
            1 <= depth <= self.n(),
            self.wf((depth - 1) as nat),
            node < self.n(),
            pushed.graph == self.graph,
            popped.graph == self.graph,
            pushed.map@ == self.map@.update(node as int, to_node),
            pushed.node_stack@ == self.node_stack@.update(depth - 1, node),
            pushed.outgoing@ == entered(
                self.outgoing@,
                self.graph.neighbors_of(node as int, Direction::Outgoing),
                depth,
            ),
            pushed.incoming@ == if self.graph.spec_directed() {
                entered(
                    self.incoming@,
                    self.graph.neighbors_of(node as int, Direction::Incoming),
                    depth,
                )
            } else {
                self.incoming@
            },
            popped.wf((depth - 1) as nat),
            popped.map@ == pushed.map@.update(pushed.node_stack@[depth - 1] as int, NOT_IN_MAP),
            popped.outgoing@ == left_at(pushed.outgoing@, depth),
            popped.incoming@ == left_at(pushed.incoming@, depth),
            !self.covered(node as int),
        ensures
            popped.map@ == self.map@,
            popped.outgoing@ == self.outgoing@,
            popped.incoming@ == self.incoming@,
            popped.outgoing_size == self.outgoing_size,
            popped.incoming_size == self.incoming_size,
    {
        assert(popped.map@ =~= self.map@);
        assert forall|i: int| 0 <= i < self.n() implies popped.outgoing@[i] == self.outgoing@[i]
            && popped.incoming@[i] == self.incoming@[i] by {
            assert(self.entered_by(self.outgoing@, i, (depth - 1) as nat, Direction::Outgoing));
            assert(self.entered_by(self.incoming@, i, (depth - 1) as nat, Direction::Incoming));
        }
        assert(popped.outgoing@ =~= self.outgoing@);
        assert(popped.incoming@ =~= self.incoming@);
    }

    /// Returns the label of `node`.
    pub fn node_label(&self, node: NodeIndex) -> (r: u64)
        requires
            node < self.graph.spec_node_count(),
        ensures
            r == self.graph.spec_node_label(node as int),
    {
        match self.graph.node_label(node) {
            Some(label) => label,
            None => 0,
        }
    }

    /// Returns the label of the edge from `source` to `target`, which must exist.
    pub fn edge_label(&self, source: NodeIndex, target: NodeIndex) -> (r: u64)
        requires
            self.graph.has_edge(source as int, target as int),
        ensures
            r == self.graph.edge_label_of(source as int, target as int),
    {
        match self.graph.edge_label(source, target) {
            Some(label) => label,
            None => 0,
        }
    }
}

/// `set` once the nodes of `nbrs` that were outside it have entered it at `depth`.
pub open spec fn entered(set: Seq<usize>, nbrs: Seq<NodeIndex>, depth: usize) -> Seq<usize> {
    Seq::new(
        set.len(),
        |i: int|
            if set[i] == NOT_IN_SET && nbrs.contains(i as usize) {
                depth
            } else {
                set[i]
            },
    )
}

/// `set` once the nodes of `nbrs` that entered it at `depth` have left it.
pub open spec fn cleared(set: Seq<usize>, nbrs: Seq<NodeIndex>, depth: usize) -> Seq<usize> {
    Seq::new(
        set.len(),
        |i: int|
            if set[i] == depth && nbrs.contains(i as usize) {
                NOT_IN_SET
            } else {
                set[i]
            },
    )
}

/// `set` once every node that entered it at `depth` has left it.
pub open spec fn left_at(set: Seq<usize>, depth: usize) -> Seq<usize> {
    Seq::new(
        set.len(),
        |i: int|
            if set[i] == depth {
                NOT_IN_SET
            } else {
                set[i]
            },
    )
}

/// The first `j + 1` items of `s` hold `x` when the first `j` do or item `j` is `x`.
proof fn lemma_prefix_contains(s: Seq<NodeIndex>, j: int, x: NodeIndex)
    requires
        0 <= j < s.len(),
    ensures
        s.subrange(0, j + 1).contains(x) == (s.subrange(0, j).contains(x) || s[j] == x),
{
    let short = s.subrange(0, j);
    let long = s.subrange(0, j + 1);
    if short.contains(x) {
        let k = choose|k: int| 0 <= k < short.len() && short[k] == x;
        assert(long[k] == x);
    }
    if s[j] == x {
        assert(long[j] == x);
    }
    if long.contains(x) {
        let k = choose|k: int| 0 <= k < long.len() && long[k] == x;
        if k < j {
            assert(short[k] == x);
        }
    }
}

/// Puts the nodes of `neighbors` that are outside `set` into it, marked with `depth`.
fn add_to_terminal(
    set: &mut Vec<usize>,
    size: &mut usize,
    map: &Vec<NodeIndex>,
    neighbors: &Vec<NodeIndex>,
    depth: usize,
)
    requires
        old(set)@.len() == map@.len(),
        map@.len() < NOT_IN_MAP,
        *old(size) == count_upto(map@.len(), terminal(old(set)@, map@)),
        forall|j: int| 0 <= j < neighbors@.len() ==> #[trigger] neighbors@[j] < map@.len(),
        depth >= 1,
    ensures
        final(set)@ == entered(old(set)@, neighbors@, depth),
        *final(size) == count_upto(map@.len(), terminal(final(set)@, map@)),
{
    let ghost n = map@.len();
    let ghost start = set@;
    let mut j: usize = 0;
    while j < neighbors.len()
        invariant
            set@.len() == n,
            start.len() == n,
            n == map@.len(),
            n < NOT_IN_MAP,
            *size == count_upto(n, terminal(set@, map@)),
            forall|j: int| 0 <= j < neighbors@.len() ==> #[trigger] neighbors@[j] < n,
            depth >= 1,
            j <= neighbors@.len(),
            set@ == entered(start, neighbors@.subrange(0, j as int), depth),
        decreases neighbors@.len() - j,
    {
        let m = neighbors[j];
        let ghost before = set@;
        if set[m] == NOT_IN_SET {
            set.set(m, depth);
            proof {
                lemma_count_update(n, terminal(before, map@), terminal(set@, map@), m as int);
                lemma_count_bounded(n, terminal(set@, map@));
            }
            if map[m] == NOT_IN_MAP {
                *size = *size + 1;
            }
        }
        proof {
            let next = entered(start, neighbors@.subrange(0, j + 1), depth);
            assert forall|i: int| 0 <= i < n implies set@[i] == next[i] by {
                lemma_prefix_contains(neighbors@, j as int, i as usize);
            }
            assert(set@ =~= next);
        }
        j = j + 1;
    }
    proof {
        assert(neighbors@.subrange(0, neighbors@.len() as int) =~= neighbors@);
    }
}

/// Takes out of `set` the nodes of `neighbors` that entered it at `depth`.
fn remove_from_terminal(
    set: &mut Vec<usize>,
    size: &mut usize,
    map: &Vec<NodeIndex>,
    neighbors: &Vec<NodeIndex>,
    depth: usize,
)
    requires
        old(set)@.len() == map@.len(),
        map@.len() < NOT_IN_MAP,
        *old(size) == count_upto(map@.len(), terminal(old(set)@, map@)),
        forall|j: int| 0 <= j < neighbors@.len() ==> #[trigger] neighbors@[j] < map@.len(),
        depth >= 1,
    ensures
        final(set)@ == cleared(old(set)@, neighbors@, depth),
        *final(size) == count_upto(map@.len(), terminal(final(set)@, map@)),
{
    let ghost n = map@.len();
    let ghost start = set@;
    let mut j: usize = 0;
    while j < neighbors.len()
        invariant
            set@.len() == n,
            start.len() == n,
            n == map@.len(),
            n < NOT_IN_MAP,
            *size == count_upto(n, terminal(set@, map@)),
            forall|j: int| 0 <= j < neighbors@.len() ==> #[trigger] neighbors@[j] < n,
            depth >= 1,
            j <= neighbors@.len(),
            set@ == cleared(start, neighbors@.subrange(0, j as int), depth),
        decreases neighbors@.len() - j,
    {
        let m = neighbors[j];
        let ghost before = set@;
        if set[m] == depth {
            proof {
                if map@[m as int] == NOT_IN_MAP {
                    lemma_count_positive(n, terminal(before, map@), m as int);
                }
            }
            set.set(m, NOT_IN_SET);
            proof {
                lemma_count_update(n, terminal(before, map@), terminal(set@, map@), m as int);
            }
            if map[m] == NOT_IN_MAP {
                *size = *size - 1;
            }
        }
        proof {
            let next = cleared(start, neighbors@.subrange(0, j + 1), depth);
            assert forall|i: int| 0 <= i < n implies set@[i] == next[i] by {
                lemma_prefix_contains(neighbors@, j as int, i as usize);
            }
            assert(set@ =~= next);
        }
        j = j + 1;
    }
    proof {
        assert(neighbors@.subrange(0, neighbors@.len() as int) =~= neighbors@);
    }
}

proof fn lemma_count_zero(n: nat, p: spec_fn(int) -> bool)
    requires
        forall|i: int| 0 <= i < n ==> !#[trigger] p(i),
    ensures
        count_upto(n, p) == 0,
    decreases n,
{
    if n > 0 {
        lemma_count_zero((n - 1) as nat, p);
    }
}

} // verus!
