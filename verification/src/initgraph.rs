//! A graph of initialization tasks and stages, and the order in which a run executes them.
//!
//! Nodes name the nodes that they require, that depend on them, that they run after and that
//! they run before. Running a node runs it together with every active node that it requires,
//! directly or not, each after the nodes that it requires or runs after.
use vstd::prelude::*;

use std::collections::VecDeque;

verus! {

/// The execution state of an [`InitGraphNode`].
#[derive(Clone, Copy, Debug, PartialEq, Eq, Structural)]
pub enum State {
    /// The node is not active and is not considered in initialization graph calculations.
    Inactive,
    /// The node is active and considered in initialization graph calculations.
    Active,
    /// The node should be executed.
    Wanted,
    /// The node has been executed.
    Done,
}

/// The information that represents a node before the graph is built.
pub enum CompileTimeDesc {
    /// A synchronization point for other nodes.
    Stage,
    /// A task or operation that should be performed.
    Task {
        /// The nodes that this node requires the successful execution of before executing
        /// itself.
        required: Vec<String>,
        /// The nodes that require the successful execution of this node.
        dependents: Vec<String>,
        /// The nodes that this node runs after, if they run in the same execution.
        after: Vec<String>,
        /// The nodes that this node runs before, if they run in the same execution.
        before: Vec<String>,
    },
}

/// Representation of a task or stage in the initialization graph.
pub struct InitGraphNode {
    /// The name of the node.
    pub name: String,
    /// The state of the node.
    pub state: State,
    /// The links of the node to other nodes, by name.
    pub desc: CompileTimeDesc,
}

impl InitGraphNode {
    /// Creates a task named `name`, active or not, with its links to other nodes by name.
    pub fn new_task(
        name: String,
        active: bool,
        required: Vec<String>,
        dependents: Vec<String>,
        after: Vec<String>,
        before: Vec<String>,
    ) -> (node: Self)
        ensures
            node.name@ == name@,
            node.state == if active { State::Active } else { State::Inactive },
            node.desc matches CompileTimeDesc::Task { required: r, dependents: d, after: a, before: b }
                && r@ == required@ && d@ == dependents@ && a@ == after@ && b@ == before@,
    {
        let state = if active { State::Active } else { State::Inactive };
        InitGraphNode { name, state, desc: CompileTimeDesc::Task { required, dependents, after, before } }
    }

    /// Creates a stage named `name`, active or not.
    pub fn new_stage(name: String, active: bool) -> (node: Self)
        ensures
            node.name@ == name@,
            node.state == if active { State::Active } else { State::Inactive },
            node.desc is Stage,
    {
        let state = if active { State::Active } else { State::Inactive };
        InitGraphNode { name, state, desc: CompileTimeDesc::Stage }
    }

    /// Activates this node, thereby signalling that it is valid for processing.
    pub fn activate(&mut self)
        ensures
            final(self).state == State::Active,
            final(self).name@ == old(self).name@,
    {
        self.state = State::Active;
    }

    /// Deactivates this node, thereby signalling that it is not valid for processing.
    pub fn deactivate(&mut self)
        ensures
            final(self).state == State::Inactive,
            final(self).name@ == old(self).name@,
    {
        self.state = State::Inactive;
    }
}

/// The names that a node requires, that depend on it, that it runs after and that it runs
/// before.
pub open spec fn links(node: InitGraphNode) -> (Seq<String>, Seq<String>, Seq<String>, Seq<String>) {
    match node.desc {
        CompileTimeDesc::Stage => (Seq::empty(), Seq::empty(), Seq::empty(), Seq::empty()),
        CompileTimeDesc::Task { required, dependents, after, before } => (required@, dependents@, after@, before@),
    }
}

/// Every name in `names` is the name of a node other than node `n`.
pub open spec fn names_resolve(nodes: Seq<InitGraphNode>, n: int, names: Seq<String>) -> bool {
    forall|k: int|
        0 <= k < names.len() ==> names[k]@ != nodes[n].name@ && exists|j: int|
            0 <= j < nodes.len() && #[trigger] nodes[j].name@ == names[k]@
}

/// The node names are unique, and every link names another node.
pub open spec fn well_linked(nodes: Seq<InitGraphNode>) -> bool {
    &&& forall|i: int, j: int| 0 <= i < j < nodes.len() ==> nodes[i].name@ != nodes[j].name@
    &&& forall|n: int| 0 <= n < nodes.len() ==> {
        &&& names_resolve(nodes, n, #[trigger] links(nodes[n]).0)
        &&& names_resolve(nodes, n, links(nodes[n]).1)
        &&& names_resolve(nodes, n, links(nodes[n]).2)
        &&& names_resolve(nodes, n, links(nodes[n]).3)
    }
}

/// The index of the node named `name`.
pub open spec fn index_of(nodes: Seq<InitGraphNode>, name: Seq<char>) -> int {
    choose|j: int| 0 <= j < nodes.len() && nodes[j].name@ == name
}

/// The edges between node `n` and the nodes named in `names`: from `n` to each of them when
/// `outgoing`, else from each of them to `n`.
pub open spec fn link_edges(nodes: Seq<InitGraphNode>, n: int, names: Seq<String>, outgoing: bool) -> Seq<(usize, usize)> {
    names.map_values(
        |s: String|
            if outgoing {
                (n as usize, index_of(nodes, s@) as usize)
            } else {
                (index_of(nodes, s@) as usize, n as usize)
            },
    )
}

/// The edges `(node, required)` that node `n` contributes: one to each node it requires, and
/// one from each node that depends on it.
pub open spec fn own_requires_edges(nodes: Seq<InitGraphNode>, n: int) -> Seq<(usize, usize)> {
    link_edges(nodes, n, links(nodes[n]).0, true) + link_edges(nodes, n, links(nodes[n]).1, false)
}

/// The edges `(node, earlier)` that node `n` contributes: one to each node it runs after, and
/// one from each node that it runs before.
pub open spec fn own_after_edges(nodes: Seq<InitGraphNode>, n: int) -> Seq<(usize, usize)> {
    link_edges(nodes, n, links(nodes[n]).2, true) + link_edges(nodes, n, links(nodes[n]).3, false)
}

/// The requirement edges of the first `n` nodes, in the order in which they are linked.
pub open spec fn requires_edges_upto(nodes: Seq<InitGraphNode>, n: nat) -> Seq<(usize, usize)>
    decreases n,
{
    if n == 0 {
        Seq::empty()
    } else {
        requires_edges_upto(nodes, (n - 1) as nat) + own_requires_edges(nodes, n - 1)
    }
}

/// The ordering edges of the first `n` nodes, in the order in which they are linked.
pub open spec fn after_edges_upto(nodes: Seq<InitGraphNode>, n: nat) -> Seq<(usize, usize)>
    decreases n,
{
    if n == 0 {
        Seq::empty()
    } else {
        after_edges_upto(nodes, (n - 1) as nat) + own_after_edges(nodes, n - 1)
    }
}

/// The targets of the edges from `x`, in order.
pub open spec fn edges_from(edges: Seq<(usize, usize)>, x: usize) -> Seq<usize>
    decreases edges.len(),
{
    if edges.len() == 0 {
        Seq::empty()
    } else {
        edges_from(edges.drop_last(), x) + if edges.last().0 == x {
            seq![edges.last().1]
        } else {
            Seq::empty()
        }
    }
}

/// The initialization graph: its nodes, their states, and the links resolved to node indices.
pub struct InitGraph {
    /// The nodes.
    nodes: Vec<InitGraphNode>,
    /// The state of each node.
    states: Vec<State>,
    /// The edges `(node, required)`.
    requires_edges: Vec<(usize, usize)>,
    /// The edges `(node, earlier)`.
    after_edges: Vec<(usize, usize)>,
}

/// Indicates that the nodes to execute cannot be ordered: each of the remaining ones waits for
/// another remaining one.
#[derive(Clone, Copy, Debug, PartialEq, Eq, Structural)]
pub struct CycleError;

impl InitGraph {
    /// The nodes.
    pub closed spec fn spec_nodes(&self) -> Seq<InitGraphNode> {
        self.nodes@
    }

    /// The state of each node.
    pub closed spec fn spec_states(&self) -> Seq<State> {
        self.states@
    }

    /// The requirement edges `(node, required)`.
    pub closed spec fn spec_requires_edges(&self) -> Seq<(usize, usize)> {
        self.requires_edges@
    }

    /// The ordering edges `(node, earlier)`.
    pub closed spec fn spec_after_edges(&self) -> Seq<(usize, usize)> {
        self.after_edges@
    }

    /// The graph is consistent: a state per node and edges between nodes.
    pub closed spec fn wf(&self) -> bool {
        &&& self.states@.len() == self.nodes@.len()
        &&& self.nodes@.len() <= usize::MAX
        &&& forall|k: int| 0 <= k < self.requires_edges@.len() ==> (#[trigger] self.requires_edges@[k]).0
            < self.nodes@.len() && self.requires_edges@[k].1 < self.nodes@.len()
        &&& forall|k: int| 0 <= k < self.after_edges@.len() ==> (#[trigger] self.after_edges@[k]).0
            < self.nodes@.len() && self.after_edges@[k].1 < self.nodes@.len()
    }

    /// Node `x` requires node `y`.
    pub open spec fn requires_edge(&self, x: int, y: int) -> bool {
        exists|k: int| 0 <= k < self.spec_requires_edges().len() && #[trigger] self.spec_requires_edges()[k] == (
        x as usize, y as usize)
    }

    /// Node `x` runs after node `y` when both run.
    pub open spec fn after_edge(&self, x: int, y: int) -> bool {
        exists|k: int| 0 <= k < self.spec_after_edges().len() && #[trigger] self.spec_after_edges()[k] == (
        x as usize, y as usize)
    }
}

/// Returns the index of the node named `name`.
fn find_node(nodes: &Vec<InitGraphNode>, name: &String) -> (index: usize)
    requires
        exists|j: int| 0 <= j < nodes@.len() && #[trigger] nodes@[j].name@ == name@,
    ensures
        index < nodes@.len(),
        nodes@[index as int].name@ == name@,
{
    let mut j: usize = 0;
    while j < nodes.len()
        invariant
            j <= nodes@.len(),
            forall|i: int| 0 <= i < j ==> nodes@[i].name@ != name@,
            exists|j: int| 0 <= j < nodes@.len() && #[trigger] nodes@[j].name@ == name@,
        decreases nodes@.len() - j,
    {
        if nodes[j].name == *name {
            return j;
        }
        j += 1;
    }
    proof {
        let w = choose|w: int| 0 <= w < nodes@.len() && #[trigger] nodes@[w].name@ == name@;
        assert(nodes@[w].name@ != name@);
    }
    0
}


/// With unique names, the node found by name is the one that [`index_of`] names.
proof fn lemma_index_of(nodes: Seq<InitGraphNode>, j: int)
    requires
        0 <= j < nodes.len(),
        forall|a: int, b: int| 0 <= a < b < nodes.len() ==> nodes[a].name@ != nodes[b].name@,
    ensures
        index_of(nodes, nodes[j].name@) == j,
{
    let k = index_of(nodes, nodes[j].name@);
    assert(0 <= k < nodes.len() && nodes[k].name@ == nodes[j].name@);
    if k < j {
        assert(nodes[k].name@ != nodes[j].name@);
    } else if k > j {
        assert(nodes[j].name@ != nodes[k].name@);
    }
}

/// Appends the edges between node `n` and the nodes named in `names` to `edges`.
fn append_links(nodes: &Vec<InitGraphNode>, n: usize, names: &Vec<String>, outgoing: bool, edges: &mut Vec<(usize, usize)>)
    requires
        n < nodes@.len(),
        names_resolve(nodes@, n as int, names@),
        forall|a: int, b: int| 0 <= a < b < nodes@.len() ==> nodes@[a].name@ != nodes@[b].name@,
    ensures
        final(edges)@ == old(edges)@ + link_edges(nodes@, n as int, names@, outgoing),
{
    let ghost start = edges@;
    let mut k: usize = 0;
    while k < names.len()
        invariant
            n < nodes@.len(),
            k <= names@.len(),
            names_resolve(nodes@, n as int, names@),
            forall|a: int, b: int| 0 <= a < b < nodes@.len() ==> nodes@[a].name@ != nodes@[b].name@,
            edges@ == start + link_edges(nodes@, n as int, names@.take(k as int), outgoing),
        decreases names@.len() - k,
    {
        assert(exists|j: int| 0 <= j < nodes@.len() && #[trigger] nodes@[j].name@ == names@[k as int]@);
        let j = find_node(nodes, &names[k]);
        proof {
            lemma_index_of(nodes@, j as int);
        }
        if outgoing {
            edges.push((n, j));
        } else {
            edges.push((j, n));
        }
        assert(names@.take(k as int + 1) =~= names@.take(k as int).push(names@[k as int]));
        assert(link_edges(nodes@, n as int, names@.take(k as int + 1), outgoing) =~= link_edges(
            nodes@, n as int, names@.take(k as int), outgoing).push(
            if outgoing { (n, j) } else { (j, n) },
        ));
        k += 1;
    }
    assert(names@.take(names@.len() as int) =~= names@);
}

impl InitGraph {
    /// Builds the graph from its nodes: every link is resolved to the index of the node that it
    /// names, and each node starts in its own state.
    pub fn initialize(nodes: Vec<InitGraphNode>) -> (graph: Self)
        requires
            well_linked(nodes@),
        ensures
            graph.wf(),
            graph.spec_nodes() == nodes@,
            graph.spec_states() == nodes@.map_values(|node: InitGraphNode| node.state),
            graph.spec_requires_edges() == requires_edges_upto(nodes@, nodes@.len()),
            graph.spec_after_edges() == after_edges_upto(nodes@, nodes@.len()),
    {
        let mut states: Vec<State> = Vec::new();
        let mut requires_edges: Vec<(usize, usize)> = Vec::new();
        let mut after_edges: Vec<(usize, usize)> = Vec::new();
        let mut n: usize = 0;
        while n < nodes.len()
            invariant
                well_linked(nodes@),
                n <= nodes@.len(),
                states@ == nodes@.take(n as int).map_values(|node: InitGraphNode| node.state),
                requires_edges@ == requires_edges_upto(nodes@, n as nat),
                after_edges@ == after_edges_upto(nodes@, n as nat),
            decreases nodes@.len() - n,
        {
            states.push(nodes[n].state);
            assert(nodes@.take(n as int + 1) =~= nodes@.take(n as int).push(nodes@[n as int]));
            assert(states@ =~= nodes@.take(n as int + 1).map_values(|node: InitGraphNode| node.state));
            assert(names_resolve(nodes@, n as int, links(nodes@[n as int]).0));
            match &nodes[n].desc {
                CompileTimeDesc::Stage => {
                    assert(own_requires_edges(nodes@, n as int) =~= Seq::empty());
                    assert(own_after_edges(nodes@, n as int) =~= Seq::empty());
                },
                CompileTimeDesc::Task { required, dependents, after, before } => {
                    append_links(&nodes, n, required, true, &mut requires_edges);
                    append_links(&nodes, n, dependents, false, &mut requires_edges);
                    append_links(&nodes, n, after, true, &mut after_edges);
                    append_links(&nodes, n, before, false, &mut after_edges);
                },
            }
            assert(requires_edges@ =~= requires_edges_upto(nodes@, (n + 1) as nat));
            assert(after_edges@ =~= after_edges_upto(nodes@, (n + 1) as nat));
            n += 1;
        }
        assert(nodes@.take(nodes@.len() as int) =~= nodes@);
        let graph = InitGraph { nodes, states, requires_edges, after_edges };
        proof {
            lemma_edges_in_range(graph.nodes@, graph.nodes@.len());
        }
        graph
    }
}

/// The edges between node `m` and resolvable names join nodes of the list.
proof fn lemma_link_edges_in_range(nodes: Seq<InitGraphNode>, m: int, names: Seq<String>, outgoing: bool)
    requires
        0 <= m < nodes.len(),
        names_resolve(nodes, m, names),
    ensures
        forall|k: int| 0 <= k < link_edges(nodes, m, names, outgoing).len() ==> (#[trigger] link_edges(
            nodes, m, names, outgoing)[k]).0 < nodes.len() && link_edges(nodes, m, names, outgoing)[k].1 < nodes.len(),
{
    assert forall|k: int| 0 <= k < link_edges(nodes, m, names, outgoing).len() implies (#[trigger] link_edges(
        nodes, m, names, outgoing)[k]).0 < nodes.len() && link_edges(nodes, m, names, outgoing)[k].1 < nodes.len() by {
        assert(exists|j: int| 0 <= j < nodes.len() && #[trigger] nodes[j].name@ == names[k]@);
    }
}

/// All edges of `a` and `b` join nodes below `bound`, so all edges of `a + b` do.
proof fn lemma_concat_in_range(a: Seq<(usize, usize)>, b: Seq<(usize, usize)>, bound: int)
    requires
        forall|k: int| 0 <= k < a.len() ==> (#[trigger] a[k]).0 < bound && a[k].1 < bound,
        forall|k: int| 0 <= k < b.len() ==> (#[trigger] b[k]).0 < bound && b[k].1 < bound,
    ensures
        forall|k: int| 0 <= k < (a + b).len() ==> (#[trigger] (a + b)[k]).0 < bound && (a + b)[k].1 < bound,
{
    assert forall|k: int| 0 <= k < (a + b).len() implies (#[trigger] (a + b)[k]).0 < bound && (a + b)[k].1 < bound by {
        if k >= a.len() {
            assert((a + b)[k] == b[k - a.len()]);
        }
    }
}

/// The edges of a well-linked list of nodes join nodes of the list.
proof fn lemma_edges_in_range(nodes: Seq<InitGraphNode>, n: nat)
    requires
        well_linked(nodes),
        n <= nodes.len(),
    ensures
        forall|k: int| 0 <= k < requires_edges_upto(nodes, n).len() ==> (#[trigger] requires_edges_upto(nodes, n)[k]).0
            < nodes.len() && requires_edges_upto(nodes, n)[k].1 < nodes.len(),
        forall|k: int| 0 <= k < after_edges_upto(nodes, n).len() ==> (#[trigger] after_edges_upto(nodes, n)[k]).0
            < nodes.len() && after_edges_upto(nodes, n)[k].1 < nodes.len(),
    decreases n,
{
    if n > 0 {
        lemma_edges_in_range(nodes, (n - 1) as nat);
        let m = n - 1;
        assert(names_resolve(nodes, m, links(nodes[m]).0));
        let l = links(nodes[m]);
        lemma_link_edges_in_range(nodes, m, l.0, true);
        lemma_link_edges_in_range(nodes, m, l.1, false);
        lemma_link_edges_in_range(nodes, m, l.2, true);
        lemma_link_edges_in_range(nodes, m, l.3, false);
        let bound = nodes.len() as int;
        lemma_concat_in_range(link_edges(nodes, m, l.0, true), link_edges(nodes, m, l.1, false), bound);
        lemma_concat_in_range(link_edges(nodes, m, l.2, true), link_edges(nodes, m, l.3, false), bound);
        lemma_concat_in_range(requires_edges_upto(nodes, (n - 1) as nat), own_requires_edges(nodes, m), bound);
        lemma_concat_in_range(after_edges_upto(nodes, (n - 1) as nat), own_after_edges(nodes, m), bound);
    }
}


/// The state that a node has once the marks of an earlier run are cleared.
pub open spec fn cleared(state: State) -> State {
    if state == State::Wanted {
        State::Active
    } else {
        state
    }
}

/// The number of active nodes.
pub open spec fn active_count(states: Seq<State>) -> nat
    decreases states.len(),
{
    if states.len() == 0 {
        0
    } else {
        active_count(states.drop_last()) + if states.last() == State::Active { 1nat } else { 0nat }
    }
}

/// Marking an active node as wanted lowers the number of active nodes by one.
proof fn lemma_active_count_update(states: Seq<State>, i: int, value: State)
    requires
        0 <= i < states.len(),
        states[i] == State::Active,
        value != State::Active,
    ensures
        active_count(states.update(i, value)) + 1 == active_count(states),
    decreases states.len(),
{
    let updated = states.update(i, value);
    if i == states.len() - 1 {
        assert(updated.drop_last() =~= states.drop_last());
    } else {
        assert(updated.drop_last() =~= states.drop_last().update(i, value));
        lemma_active_count_update(states.drop_last(), i, value);
    }
}

impl InitGraph {
    /// Node `x` requires node `y` or runs after it.
    pub open spec fn links_to(&self, x: int, y: int) -> bool {
        self.requires_edge(x, y) || self.after_edge(x, y)
    }

    /// Node `x` waits for a wanted node that it requires or runs after.
    pub open spec fn blocked_in(&self, states: Seq<State>, x: int) -> bool {
        exists|y: int| 0 <= y < states.len() && #[trigger] self.links_to(x, y) && states[y] == State::Wanted
    }

    /// Returns the nodes that node `node` requires, in the order in which they were linked.
    pub fn required(&self, node: usize) -> (required: Vec<usize>)
        ensures
            required@ == edges_from(self.spec_requires_edges(), node),
    {
        targets_from(&self.requires_edges, node)
    }

    /// Returns the nodes that node `node` runs after when they run too, in the order in which
    /// they were linked.
    pub fn after(&self, node: usize) -> (earlier: Vec<usize>)
        ensures
            earlier@ == edges_from(self.spec_after_edges(), node),
    {
        targets_from(&self.after_edges, node)
    }

    /// Returns the current state of node `node`.
    pub fn state(&self, node: usize) -> (state: State)
        requires
            node < self.spec_states().len(),
        ensures
            state == self.spec_states()[node as int],
    {
        self.states[node]
    }

    /// Activates node `node`, thereby signalling that it is valid for processing.
    pub fn activate(&mut self, node: usize)
        requires
            old(self).wf(),
            node < old(self).spec_nodes().len(),
        ensures
            final(self).wf(),
            final(self).spec_nodes() == old(self).spec_nodes(),
            final(self).spec_requires_edges() == old(self).spec_requires_edges(),
            final(self).spec_after_edges() == old(self).spec_after_edges(),
            final(self).spec_states() == old(self).spec_states().update(node as int, State::Active),
    {
        self.states.set(node, State::Active);
    }

    /// Deactivates node `node`, thereby signalling that it is not valid for processing.
    pub fn deactivate(&mut self, node: usize)
        requires
            old(self).wf(),
            node < old(self).spec_nodes().len(),
        ensures
            final(self).wf(),
            final(self).spec_nodes() == old(self).spec_nodes(),
            final(self).spec_requires_edges() == old(self).spec_requires_edges(),
            final(self).spec_after_edges() == old(self).spec_after_edges(),
            final(self).spec_states() == old(self).spec_states().update(node as int, State::Inactive),
    {
        self.states.set(node, State::Inactive);
    }
}

/// Returns the targets of the edges from `x`, in order.
fn targets_from(edges: &Vec<(usize, usize)>, x: usize) -> (targets: Vec<usize>)
    ensures
        targets@ == edges_from(edges@, x),
{
    let mut targets: Vec<usize> = Vec::new();
    let mut k: usize = 0;
    while k < edges.len()
        invariant
            k <= edges@.len(),
            targets@ == edges_from(edges@.take(k as int), x),
        decreases edges@.len() - k,
    {
        assert(edges@.take(k as int + 1).drop_last() =~= edges@.take(k as int));
        if edges[k].0 == x {
            targets.push(edges[k].1);
        }
        assert(targets@ =~= edges_from(edges@.take(k as int + 1), x));
        k += 1;
    }
    assert(edges@.take(edges@.len() as int) =~= edges@);
    targets
}


impl InitGraph {
    /// The graph `after` has the nodes and edges of `self`.
    pub open spec fn same_links(&self, other: &Self) -> bool {
        &&& self.spec_nodes() == other.spec_nodes()
        &&& self.spec_requires_edges() == other.spec_requires_edges()
        &&& self.spec_after_edges() == other.spec_after_edges()
    }

    /// `order` is what a successful run of `node` from `self` executes, and `after` is the
    /// graph once it has run: the executed nodes are distinct, hold `node`, are all done
    /// afterwards while every other node keeps its state with earlier marks cleared; every node
    /// executed besides `node` was active and is required by an executed node; every active
    /// node that an executed node requires is executed; and no node is executed before a node
    /// that it requires or runs after.
    pub open spec fn runs_in_order(&self, after: &Self, node: int, order: Seq<usize>) -> bool {
        let n = self.spec_states().len();
        &&& order.no_duplicates()
        &&& forall|k: int| 0 <= k < order.len() ==> #[trigger] order[k] < n
        &&& order.contains(node as usize)
        &&& forall|i: int| 0 <= i < n ==> #[trigger] after.spec_states()[i] == if order.contains(i as usize) {
            State::Done
        } else {
            cleared(self.spec_states()[i])
        }
        &&& forall|k: int| 0 <= k < order.len() && order[k] != node ==> cleared(self.spec_states()[#[trigger] order[k] as int])
            == State::Active && exists|j: int| 0 <= j < order.len() && self.requires_edge(order[j] as int, order[k] as int)
        &&& forall|k: int, y: int| 0 <= k < order.len() && 0 <= y < n && #[trigger] self.requires_edge(order[k] as int, y)
            && cleared(self.spec_states()[y]) == State::Active ==> order.contains(y as usize)
        &&& forall|a: int, b: int| 0 <= a < b < order.len() ==> !#[trigger] self.links_to(order[a] as int, order[b] as int)
    }

    /// A run stopped with `after` because its remaining nodes wait for one another: at least one
    /// node is still wanted, and each wanted node waits for a wanted node that it requires or
    /// runs after.
    pub open spec fn stuck(&self, after: &Self) -> bool {
        let n = self.spec_states().len();
        &&& after.spec_states().len() == n
        &&& exists|i: int| 0 <= i < n && #[trigger] after.spec_states()[i] == State::Wanted
        &&& forall|i: int| 0 <= i < n && #[trigger] after.spec_states()[i] == State::Wanted ==> after.blocked_in(
            after.spec_states(), i)
        &&& forall|i: int| 0 <= i < n ==> #[trigger] after.spec_states()[i] == State::Done || after.spec_states()[i]
            == State::Wanted || after.spec_states()[i] == cleared(self.spec_states()[i])
    }

    /// Returns `true` if node `x` waits for a wanted node that it requires or runs after.
    fn is_blocked(&self, x: usize) -> (blocked: bool)
        requires
            self.wf(),
        ensures
            blocked == self.blocked_in(self.spec_states(), x as int),
    {
        let mut k: usize = 0;
        while k < self.requires_edges.len()
            invariant
                self.wf(),
                k <= self.requires_edges@.len(),
                forall|j: int| 0 <= j < k && #[trigger] self.requires_edges@[j].0 == x ==> self.states@[self.requires_edges@[j].1 as int]
                    != State::Wanted,
            decreases self.requires_edges@.len() - k,
        {
            let (a, b) = self.requires_edges[k];
            if a == x && self.states[b] == State::Wanted {
                assert(self.spec_requires_edges()[k as int] == (x, b));
                assert(self.requires_edge(x as int, b as int));
                assert(self.links_to(x as int, b as int));
                return true;
            }
            k += 1;
        }
        let mut k: usize = 0;
        while k < self.after_edges.len()
            invariant
                self.wf(),
                k <= self.after_edges@.len(),
                forall|j: int| 0 <= j < self.requires_edges@.len() && #[trigger] self.requires_edges@[j].0 == x
                    ==> self.states@[self.requires_edges@[j].1 as int] != State::Wanted,
                forall|j: int| 0 <= j < k && #[trigger] self.after_edges@[j].0 == x ==> self.states@[self.after_edges@[j].1 as int]
                    != State::Wanted,
            decreases self.after_edges@.len() - k,
        {
            let (a, b) = self.after_edges[k];
            if a == x && self.states[b] == State::Wanted {
                assert(self.spec_after_edges()[k as int] == (x, b));
                assert(self.after_edge(x as int, b as int));
                assert(self.links_to(x as int, b as int));
                return true;
            }
            k += 1;
        }
        proof {
            assert forall|y: int| 0 <= y < self.states@.len() && (self.requires_edge(x as int, y) || self.after_edge(x as int, y))
                implies #[trigger] self.states@[y] != State::Wanted by {
                if self.requires_edge(x as int, y) {
                    let j = choose|j: int| 0 <= j < self.spec_requires_edges().len() && #[trigger] self.spec_requires_edges()[j]
                        == (x as usize, y as usize);
                    assert(self.requires_edges@[j] == (x as usize, y as usize));
                    assert(self.requires_edges@[j].0 == x);
                    assert(self.states@[self.requires_edges@[j].1 as int] != State::Wanted);
                } else {
                    let j = choose|j: int| 0 <= j < self.spec_after_edges().len() && #[trigger] self.spec_after_edges()[j]
                        == (x as usize, y as usize);
                    assert(self.after_edges@[j] == (x as usize, y as usize));
                    assert(self.after_edges@[j].0 == x);
                    assert(self.states@[self.after_edges@[j].1 as int] != State::Wanted);
                }
            }
        }
        false
    }
}


impl InitGraph {
    /// `self` holds the marks of a run of `node` from `before`: the marks of earlier runs are
    /// cleared, `node` and active nodes are marked wanted, each wanted node other than `node`
    /// is required by a wanted node, and no wanted node requires an active one.
    pub open spec fn marked_from(&self, before: &Self, node: int) -> bool {
        let n = before.spec_states().len();
        &&& self.spec_states().len() == n
        &&& self.spec_states()[node] == State::Wanted
        &&& forall|i: int| 0 <= i < n ==> #[trigger] self.spec_states()[i] == cleared(before.spec_states()[i])
            || (self.spec_states()[i] == State::Wanted && (i == node || cleared(before.spec_states()[i]) == State::Active))
        &&& forall|x: int, y: int| 0 <= x < n && 0 <= y < n && #[trigger] self.spec_states()[x] == State::Wanted
            && #[trigger] before.requires_edge(x, y) ==> self.spec_states()[y] != State::Active
        &&& forall|y: int| 0 <= y < n && y != node && #[trigger] self.spec_states()[y] == State::Wanted ==> exists|x: int|
            0 <= x < n && self.spec_states()[x] == State::Wanted && #[trigger] before.requires_edge(x, y)
    }

    /// Clears the marks of earlier runs, then marks `node` and, breadth first, every active node
    /// that a marked node requires.
    fn mark_wanted(&mut self, node: usize)
        requires
            old(self).wf(),
            node < old(self).spec_states().len(),
            cleared(old(self).spec_states()[node as int]) == State::Active,
        ensures
            final(self).wf(),
            final(self).same_links(old(self)),
            final(self).marked_from(old(self), node as int),
    {
        self.clear_wanted();
        let n = self.states.len();
        self.states.set(node, State::Wanted);
        let mut queue: VecDeque<usize> = VecDeque::new();
        queue.push_back(node);
        assert(queue@[0] == node);
        assert forall|a: int| 0 <= a < n && #[trigger] self.states@[a] == State::Wanted implies queue@.contains(a as usize) by {
            assert(a == node);
        }
        while queue.len() > 0
            invariant
                self.wf(),
                self.same_links(old(self)),
                n == self.states@.len(),
                node < n,
                self.states@[node as int] == State::Wanted,
                forall|i: int| 0 <= i < n ==> #[trigger] self.states@[i] == cleared(old(self).states@[i])
                    || (self.states@[i] == State::Wanted && (i == node || cleared(old(self).states@[i]) == State::Active)),
                queue@.no_duplicates(),
                forall|k: int| 0 <= k < queue@.len() ==> #[trigger] queue@[k] < n && self.states@[queue@[k] as int] == State::Wanted,
                forall|x: int, y: int| 0 <= x < n && 0 <= y < n && #[trigger] self.states@[x] == State::Wanted
                    && !queue@.contains(x as usize) && #[trigger] old(self).requires_edge(x, y) ==> self.states@[y] != State::Active,
                forall|y: int| 0 <= y < n && y != node && #[trigger] self.states@[y] == State::Wanted ==> exists|x: int|
                    0 <= x < n && self.states@[x] == State::Wanted && #[trigger] old(self).requires_edge(x, y),
            decreases 2 * active_count(self.states@) + queue@.len(),
        {
            let ghost measure = 2 * active_count(self.states@) + queue@.len();
            let ghost popped = queue@;
            let x = match queue.pop_front() {
                Some(x) => x,
                None => node,
            };
            assert forall|a: usize| popped.contains(a) implies a == x || queue@.contains(a) by {
                let j = choose|j: int| 0 <= j < popped.len() && popped[j] == a;
                if j > 0 {
                    assert(queue@[j - 1] == a);
                }
            }
            assert(!queue@.contains(x)) by {
                if queue@.contains(x) {
                    let j = choose|j: int| 0 <= j < queue@.len() && queue@[j] == x;
                    assert(popped[j + 1] == x && popped[0] == x);
                }
            }
            let mut k: usize = 0;
            while k < self.requires_edges.len()
                invariant
                    self.wf(),
                    self.same_links(old(self)),
                    n == self.states@.len(),
                    node < n,
                    x < n,
                    self.states@[x as int] == State::Wanted,
                    self.states@[node as int] == State::Wanted,
                    k <= self.requires_edges@.len(),
                    !queue@.contains(x),
                    2 * active_count(self.states@) + queue@.len() < measure,
                    forall|i: int| 0 <= i < n ==> #[trigger] self.states@[i] == cleared(old(self).states@[i])
                        || (self.states@[i] == State::Wanted && (i == node || cleared(old(self).states@[i]) == State::Active)),
                    queue@.no_duplicates(),
                    forall|j: int| 0 <= j < queue@.len() ==> #[trigger] queue@[j] < n && self.states@[queue@[j] as int] == State::Wanted,
                    forall|a: int, y: int| 0 <= a < n && 0 <= y < n && a != x && #[trigger] self.states@[a] == State::Wanted
                        && !queue@.contains(a as usize) && #[trigger] old(self).requires_edge(a, y) ==> self.states@[y] != State::Active,
                    forall|j: int| 0 <= j < k && #[trigger] self.requires_edges@[j].0 == x ==> self.states@[self.requires_edges@[j].1 as int]
                        != State::Active,
                    forall|y: int| 0 <= y < n && y != node && #[trigger] self.states@[y] == State::Wanted ==> exists|a: int|
                        0 <= a < n && self.states@[a] == State::Wanted && #[trigger] old(self).requires_edge(a, y),
                decreases self.requires_edges@.len() - k,
            {
                let (a, b) = self.requires_edges[k];
                if a == x && self.states[b] == State::Active {
                    proof {
                        assert(old(self).spec_requires_edges()[k as int] == (x, b));
                        assert(old(self).requires_edge(x as int, b as int));
                        lemma_active_count_update(self.states@, b as int, State::Wanted);
                    }
                    let ghost states_before = self.states@;
                    let ghost queue_before = queue@;
                    self.states.set(b, State::Wanted);
                    queue.push_back(b);
                    proof {
                        assert(states_before[x as int] == State::Wanted);
                        assert(states_before[b as int] == State::Active);
                        assert(self.states@ == states_before.update(b as int, State::Wanted));
                        assert(!queue_before.contains(b)) by {
                            if queue_before.contains(b) {
                                let j = choose|j: int| 0 <= j < queue_before.len() && queue_before[j] == b;
                                assert(states_before[queue_before[j] as int] == State::Wanted);
                            }
                        }
                        assert forall|c: usize| queue_before.contains(c) implies queue@.contains(c) by {
                            let j = choose|j: int| 0 <= j < queue_before.len() && queue_before[j] == c;
                            assert(queue@[j] == c);
                        }
                        assert(queue@[queue@.len() - 1] == b);
                        assert forall|c: int, y: int| 0 <= c < n && 0 <= y < n && c != x && #[trigger] self.states@[c] == State::Wanted
                            && !queue@.contains(c as usize) && #[trigger] old(self).requires_edge(c, y) implies self.states@[y] != State::Active by {
                            assert(c != b);
                            assert(states_before[c] == State::Wanted);
                            assert(!queue_before.contains(c as usize));
                            assert(states_before[y] != State::Active);
                        }
                        assert forall|y: int| 0 <= y < n && y != node && #[trigger] self.states@[y] == State::Wanted implies exists|c: int|
                            0 <= c < n && self.states@[c] == State::Wanted && #[trigger] old(self).requires_edge(c, y) by {
                            if y == b {
                                assert(self.states@[x as int] == State::Wanted && old(self).requires_edge(x as int, y));
                            } else {
                                assert(states_before[y] == State::Wanted);
                                let c = choose|c: int| 0 <= c < n && states_before[c] == State::Wanted && #[trigger] old(self).requires_edge(c, y);
                                assert(self.states@[c] == State::Wanted);
                            }
                        }
                    }
                }
                k += 1;
            }
            proof {
                assert forall|y: int| 0 <= y < n && #[trigger] old(self).requires_edge(x as int, y) implies self.states@[y]
                    != State::Active by {
                    let j = choose|j: int| 0 <= j < old(self).spec_requires_edges().len() && #[trigger] old(self).spec_requires_edges()[j]
                        == (x as usize, y as usize);
                    assert(self.requires_edges@[j].0 == x);
                }
            }
        }
        proof {
            assert forall|x: int, y: int| 0 <= x < n && 0 <= y < n && #[trigger] self.states@[x] == State::Wanted
                && #[trigger] old(self).requires_edge(x, y) implies self.states@[y] != State::Active by {
                assert(!queue@.contains(x as usize));
            }
        }
    }
}


impl InitGraph {
    /// Clears the marks of earlier runs: every wanted node becomes active again.
    fn clear_wanted(&mut self)
        requires
            old(self).wf(),
        ensures
            final(self).wf(),
            final(self).same_links(old(self)),
            final(self).spec_states().len() == old(self).spec_states().len(),
            forall|j: int| 0 <= j < old(self).spec_states().len() ==> #[trigger] final(self).spec_states()[j] == cleared(
                old(self).spec_states()[j]),
    {
        let n = self.states.len();
        let mut i: usize = 0;
        while i < n
            invariant
                self.wf(),
                self.same_links(old(self)),
                n == self.states@.len(),
                n == old(self).states@.len(),
                i <= n,
                forall|j: int| 0 <= j < i ==> #[trigger] self.states@[j] == cleared(old(self).states@[j]),
                forall|j: int| i <= j < n ==> #[trigger] self.states@[j] == old(self).states@[j],
            decreases n - i,
        {
            if self.states[i] == State::Wanted {
                self.states.set(i, State::Active);
            }
            i += 1;
        }
    }
}


impl InitGraph {
    /// Runs node `node` together with every active node that it requires, directly or not, and
    /// returns the nodes in the order in which they execute: a node executes once no node that
    /// it requires or runs after is still waiting to execute. A node that is already done runs
    /// nothing.
    ///
    /// When the remaining nodes all wait for one another, the run stops with [`CycleError`].
    #[verifier::rlimit(50)]
    #[verifier::spinoff_prover]
    pub fn run(&mut self, node: usize) -> (result: Result<Vec<usize>, CycleError>)
        requires
            old(self).wf(),
            node < old(self).spec_states().len(),
            old(self).spec_states()[node as int] != State::Inactive,
        ensures
            final(self).wf(),
            final(self).same_links(old(self)),
            old(self).spec_states()[node as int] == State::Done ==> (result matches Ok(order) && order@.len() == 0
                && final(self).spec_states() == old(self).spec_states()),
            old(self).spec_states()[node as int] != State::Done ==> match result {
                Ok(order) => old(self).runs_in_order(final(self), node as int, order@),
                Err(_) => old(self).stuck(final(self)),
            },
    {
        if self.states[node] == State::Done {
            return Ok(Vec::new());
        }
        self.mark_wanted(node);
        let ghost after_marking: InitGraph = *self;
        let ghost marked = self.states@;
        let n = self.states.len();

        // Gather every wanted node, in index order.
        let mut queue: VecDeque<usize> = VecDeque::new();
        let mut i: usize = 0;
        while i < n
            invariant
                self.wf(),
                self.same_links(old(self)),
                self.states@ == marked,
                n == marked.len(),
                i <= n,
                forall|a: int, b: int| 0 <= a < b < queue@.len() ==> queue@[a] < queue@[b],
                forall|k: int| 0 <= k < queue@.len() ==> #[trigger] queue@[k] < i && marked[queue@[k] as int] == State::Wanted,
                forall|j: int| 0 <= j < i && #[trigger] marked[j] == State::Wanted ==> queue@.contains(j as usize),
            decreases n - i,
        {
            if self.states[i] == State::Wanted {
                let ghost before = queue@;
                queue.push_back(i);
                assert forall|j: int| 0 <= j < i + 1 && #[trigger] marked[j] == State::Wanted implies queue@.contains(j as usize) by {
                    if j < i {
                        let k = choose|k: int| 0 <= k < before.len() && before[k] == j as usize;
                        assert(queue@[k] == j as usize);
                    } else {
                        assert(queue@[queue@.len() - 1] == i);
                    }
                }
            }
            i += 1;
        }
        assert(queue@.no_duplicates());

        let mut order: Vec<usize> = Vec::new();
        let mut node_count: usize = queue.len();
        let mut loops: usize = 0;
        while queue.len() > 0
            invariant
                self.wf(),
                self.same_links(old(self)),
                n == self.states@.len(),
                n == marked.len(),
                n == old(self).spec_states().len(),
                n <= usize::MAX,
                old(self).spec_states()[node as int] != State::Done,
                queue@.no_duplicates(),
                forall|k: int| 0 <= k < queue@.len() ==> #[trigger] queue@[k] < n,
                forall|i: int| 0 <= i < n ==> (#[trigger] self.states@[i] == State::Wanted <==> queue@.contains(i as usize)),
                forall|i: int| 0 <= i < n ==> #[trigger] self.states@[i] == if order@.contains(i as usize) {
                    State::Done
                } else {
                    marked[i]
                },
                order@.no_duplicates(),
                forall|k: int| 0 <= k < order@.len() ==> #[trigger] order@[k] < n && marked[order@[k] as int] == State::Wanted,
                forall|i: int| 0 <= i < n ==> #[trigger] marked[i] == cleared(old(self).spec_states()[i]) || marked[i] == State::Wanted,
                node_count == queue@.len(),
                loops <= node_count,
                forall|j: int| node_count - loops <= j < node_count ==> old(self).blocked_in(self.states@, #[trigger] queue@[j] as int),
                forall|a: int, b: int| 0 <= a < b < order@.len() ==> !#[trigger] old(self).links_to(order@[a] as int, order@[b] as int),
                forall|k: int, y: int| 0 <= k < order@.len() && 0 <= y < n && #[trigger] old(self).links_to(order@[k] as int, y)
                    ==> self.states@[y] != State::Wanted,
            decreases node_count, node_count - loops,
        {
            let ghost queue_before = queue@;
            let x = match queue.pop_front() {
                Some(x) => x,
                None => node,
            };
            if loops == node_count {
                proof {
                    lemma_stuck(old(self), self, queue_before, marked);
                }
                return Err(CycleError);
            }
            let blocked = self.is_blocked(x);
            proof {
                lemma_same_links_blocked(self, old(self), self.states@, x as int);
            }
            if blocked {
                loops += 1;
                queue.push_back(x);
                proof {
                    lemma_rotate(queue_before, queue@);
                    assert forall|j: int| node_count - loops <= j < node_count implies old(self).blocked_in(self.states@,
                        #[trigger] queue@[j] as int) by {
                        if j < node_count - 1 {
                            assert(queue@[j] == queue_before[j + 1]);
                        }
                    }
                }
            } else {
                let ghost states_before = self.states@;
                let ghost order_before = order@;
                order.push(x);
                self.states.set(x, State::Done);
                node_count -= 1;
                loops = 0;
                proof {
                    lemma_pop(queue_before, queue@);
                    lemma_execute_states(states_before, order_before, marked, x, n as int);
                    lemma_order_step(old(self), states_before, order_before, x, n as int);
                }
            }
        }
        proof {
            assert forall|i: int| 0 <= i < n implies #[trigger] self.states@[i] != State::Wanted by {
                if self.states@[i] == State::Wanted {
                    assert(queue@.contains(i as usize));
                }
            }
            lemma_run_finished(old(self), &after_marking, self, node as int, order@);
        }
        Ok(order)
    }
}


/// A run that executed every marked node, in an order that respects the links, executed
/// what [`InitGraph::runs_in_order`] describes.
proof fn lemma_run_finished(before: &InitGraph, marked: &InitGraph, after: &InitGraph, node: int, order: Seq<usize>)
    requires
        marked.marked_from(before, node),
        before.spec_states().len() == after.spec_states().len(),
        0 <= node < before.spec_states().len(),
        forall|i: int| 0 <= i < after.spec_states().len() ==> #[trigger] after.spec_states()[i] != State::Wanted,
        forall|i: int| 0 <= i < after.spec_states().len() ==> #[trigger] after.spec_states()[i] == if order.contains(i as usize) {
            State::Done
        } else {
            marked.spec_states()[i]
        },
        order.no_duplicates(),
        forall|k: int| 0 <= k < order.len() ==> #[trigger] order[k] < before.spec_states().len() && marked.spec_states()[order[k] as int]
            == State::Wanted,
        forall|a: int, b: int| 0 <= a < b < order.len() ==> !#[trigger] before.links_to(order[a] as int, order[b] as int),
    ensures
        before.runs_in_order(after, node, order),
{
    let n = before.spec_states().len();
    let m = marked.spec_states();
    assert forall|i: int| 0 <= i < n && #[trigger] m[i] == State::Wanted implies order.contains(i as usize) by {
        assert(after.spec_states()[i] != State::Wanted);
    }
    assert(order.contains(node as usize));
    assert forall|i: int| 0 <= i < n implies #[trigger] after.spec_states()[i] == if order.contains(i as usize) {
        State::Done
    } else {
        cleared(before.spec_states()[i])
    } by {
        if !order.contains(i as usize) {
            assert(m[i] != State::Wanted);
        }
    }
    assert forall|k: int| 0 <= k < order.len() && order[k] != node implies cleared(before.spec_states()[#[trigger] order[k] as int])
        == State::Active && exists|j: int| 0 <= j < order.len() && before.requires_edge(order[j] as int, order[k] as int) by {
        let y = order[k] as int;
        assert(m[y] == State::Wanted);
        let x = choose|x: int| 0 <= x < n && m[x] == State::Wanted && #[trigger] before.requires_edge(x, y);
        assert(order.contains(x as usize));
        let j = choose|j: int| 0 <= j < order.len() && order[j] == x as usize;
        assert(before.requires_edge(order[j] as int, order[k] as int));
    }
    assert forall|k: int, y: int| 0 <= k < order.len() && 0 <= y < n && #[trigger] before.requires_edge(order[k] as int, y)
        && cleared(before.spec_states()[y]) == State::Active implies order.contains(y as usize) by {
        assert(m[order[k] as int] == State::Wanted);
        assert(m[y] != State::Active);
        assert(m[y] == State::Wanted);
    }
}


/// Executing a wanted node `x` that waits for no wanted node keeps the executed order
/// consistent with the links: no executed node links to a wanted one, and no node executes
/// before a node that it requires or runs after.
proof fn lemma_order_step(g: &InitGraph, states: Seq<State>, order: Seq<usize>, x: usize, n: int)
    requires
        states.len() == n,
        x < n,
        states[x as int] == State::Wanted,
        !g.blocked_in(states, x as int),
        forall|a: int, b: int| 0 <= a < b < order.len() ==> !#[trigger] g.links_to(order[a] as int, order[b] as int),
        forall|k: int, y: int| 0 <= k < order.len() && 0 <= y < n && #[trigger] g.links_to(order[k] as int, y)
            ==> states[y] != State::Wanted,
    ensures
        forall|a: int, b: int| 0 <= a < b < order.push(x).len() ==> !#[trigger] g.links_to(order.push(x)[a] as int, order.push(x)[b] as int),
        forall|k: int, y: int| 0 <= k < order.push(x).len() && 0 <= y < n && #[trigger] g.links_to(order.push(x)[k] as int, y)
            ==> states.update(x as int, State::Done)[y] != State::Wanted,
{
    let o = order.push(x);
    let s = states.update(x as int, State::Done);
    assert forall|k: int, y: int| 0 <= k < o.len() && 0 <= y < n && #[trigger] g.links_to(o[k] as int, y) implies s[y]
        != State::Wanted by {
        if k == o.len() - 1 {
            assert(o[k] == x);
            if y != x && states[y] == State::Wanted {
                assert(g.links_to(x as int, y));
                assert(g.blocked_in(states, x as int));
            }
        } else {
            assert(o[k] == order[k]);
        }
    }
    assert forall|a: int, b: int| 0 <= a < b < o.len() implies !#[trigger] g.links_to(o[a] as int, o[b] as int) by {
        assert(o[a] == order[a]);
        if b == o.len() - 1 {
            assert(o[b] == x);
            assert(states[x as int] == State::Wanted);
        } else {
            assert(o[b] == order[b]);
        }
    }
}


/// Graphs with the same links agree on which nodes wait.
proof fn lemma_same_links_blocked(a: &InitGraph, b: &InitGraph, states: Seq<State>, x: int)
    requires
        a.same_links(b),
    ensures
        a.blocked_in(states, x) == b.blocked_in(states, x),
{
    assert forall|y: int| #[trigger] a.links_to(x, y) == b.links_to(x, y) by {}
    if a.blocked_in(states, x) {
        let y = choose|y: int| 0 <= y < states.len() && #[trigger] a.links_to(x, y) && states[y] == State::Wanted;
        assert(b.links_to(x, y));
    }
    if b.blocked_in(states, x) {
        let y = choose|y: int| 0 <= y < states.len() && #[trigger] b.links_to(x, y) && states[y] == State::Wanted;
        assert(a.links_to(x, y));
    }
}

/// Moving the first element of a queue without duplicates to its back keeps its elements and
/// their uniqueness.
proof fn lemma_rotate(before: Seq<usize>, after: Seq<usize>)
    requires
        before.len() > 0,
        before.no_duplicates(),
        after == before.subrange(1, before.len() as int).push(before[0]),
    ensures
        after.no_duplicates(),
        after.len() == before.len(),
        forall|i: usize| #[trigger] after.contains(i) <==> before.contains(i),
        forall|j: int| 0 <= j < after.len() - 1 ==> #[trigger] after[j] == before[j + 1],
        after[after.len() - 1] == before[0],
{
    assert forall|i: usize| #[trigger] after.contains(i) <==> before.contains(i) by {
        if before.contains(i) {
            let j = choose|j: int| 0 <= j < before.len() && before[j] == i;
            if j == 0 {
                assert(after[after.len() - 1] == i);
            } else {
                assert(after[j - 1] == i);
            }
        }
        if after.contains(i) {
            let j = choose|j: int| 0 <= j < after.len() && after[j] == i;
            if j == after.len() - 1 {
                assert(before[0] == i);
            } else {
                assert(before[j + 1] == i);
            }
        }
    }
    assert forall|a: int, b: int| 0 <= a < b < after.len() implies after[a] != after[b] by {
        if b == after.len() - 1 {
            assert(before[a + 1] != before[0]);
        } else {
            assert(before[a + 1] != before[b + 1]);
        }
    }
}

/// Removing the first element of a queue without duplicates removes exactly that element.
proof fn lemma_pop(before: Seq<usize>, after: Seq<usize>)
    requires
        before.len() > 0,
        before.no_duplicates(),
        after == before.subrange(1, before.len() as int),
    ensures
        after.no_duplicates(),
        !after.contains(before[0]),
        forall|i: usize| i != before[0] ==> (#[trigger] after.contains(i) <==> before.contains(i)),
{
    assert(!after.contains(before[0])) by {
        if after.contains(before[0]) {
            let j = choose|j: int| 0 <= j < after.len() && after[j] == before[0];
            assert(before[j + 1] == before[0]);
        }
    }
    assert forall|i: usize| i != before[0] implies (#[trigger] after.contains(i) <==> before.contains(i)) by {
        if before.contains(i) {
            let j = choose|j: int| 0 <= j < before.len() && before[j] == i;
            assert(after[j - 1] == i);
        }
        if after.contains(i) {
            let j = choose|j: int| 0 <= j < after.len() && after[j] == i;
            assert(before[j + 1] == i);
        }
    }
    assert forall|a: int, b: int| 0 <= a < b < after.len() implies after[a] != after[b] by {
        assert(before[a + 1] != before[b + 1]);
    }
}


/// Executing a wanted node that has not run yet marks it done and adds it to the order.
proof fn lemma_execute_states(states: Seq<State>, order: Seq<usize>, marked: Seq<State>, x: usize, n: int)
    requires
        n <= usize::MAX,
        states.len() == n,
        marked.len() == n,
        x < n,
        states[x as int] == State::Wanted,
        order.no_duplicates(),
        forall|i: int| 0 <= i < n ==> #[trigger] states[i] == if order.contains(i as usize) { State::Done } else { marked[i] },
    ensures
        !order.contains(x),
        order.push(x).no_duplicates(),
        forall|i: int| 0 <= i < n ==> #[trigger] states.update(x as int, State::Done)[i] == if order.push(x).contains(i as usize) {
            State::Done
        } else {
            marked[i]
        },
{
    assert(!order.contains(x)) by {
        if order.contains(x) {
            assert(states[x as int] == State::Done);
        }
    }
    let o = order.push(x);
    assert forall|a: int, b: int| 0 <= a < b < o.len() implies o[a] != o[b] by {
        if b == o.len() - 1 {
            assert(o[a] == order[a]);
        } else {
            assert(o[a] == order[a] && o[b] == order[b]);
        }
    }
    assert forall|i: int| 0 <= i < n implies #[trigger] states.update(x as int, State::Done)[i] == if o.contains(i as usize) {
        State::Done
    } else {
        marked[i]
    } by {
        if i == x {
            assert(o[o.len() - 1] == x);
        } else if o.contains(i as usize) {
            let k = choose|k: int| 0 <= k < o.len() && o[k] == i as usize;
            if k < order.len() {
                assert(order[k] == i as usize);
            } else {
                assert(o[k] == x);
            }
        } else {
            assert(!order.contains(i as usize)) by {
                if order.contains(i as usize) {
                    let k = choose|k: int| 0 <= k < order.len() && order[k] == i as usize;
                    assert(o[k] == i as usize);
                }
            }
        }
    }
}

/// A wanted node that is queued waits for a wanted node.
proof fn lemma_queued_blocked(before: &InitGraph, after: &InitGraph, queue: Seq<usize>, i: int)
    requires
        after.same_links(before),
        queue.contains(i as usize),
        0 <= i <= usize::MAX,
        forall|j: int| 0 <= j < queue.len() ==> before.blocked_in(after.spec_states(), #[trigger] queue[j] as int),
    ensures
        after.blocked_in(after.spec_states(), i),
{
    let j = choose|j: int| 0 <= j < queue.len() && queue[j] == i as usize;
    assert(before.blocked_in(after.spec_states(), queue[j] as int));
    lemma_same_links_blocked(after, before, after.spec_states(), i);
}

/// When every queued node waits for a wanted node, the run is stuck.
proof fn lemma_stuck(before: &InitGraph, after: &InitGraph, queue: Seq<usize>, marked: Seq<State>)
    requires
        before.spec_states().len() <= usize::MAX,
        after.same_links(before),
        after.spec_states().len() == before.spec_states().len(),
        marked.len() == before.spec_states().len(),
        queue.len() > 0,
        forall|k: int| 0 <= k < queue.len() ==> #[trigger] queue[k] < before.spec_states().len(),
        forall|i: int| 0 <= i < before.spec_states().len() ==> (#[trigger] after.spec_states()[i] == State::Wanted
            <==> queue.contains(i as usize)),
        forall|j: int| 0 <= j < queue.len() ==> before.blocked_in(after.spec_states(), #[trigger] queue[j] as int),
        forall|i: int| 0 <= i < before.spec_states().len() ==> #[trigger] after.spec_states()[i] == State::Done
            || after.spec_states()[i] == marked[i],
        forall|i: int| 0 <= i < before.spec_states().len() ==> #[trigger] marked[i] == cleared(before.spec_states()[i])
            || marked[i] == State::Wanted,
    ensures
        before.stuck(after),
{
    let n = before.spec_states().len();
    let q0 = queue[0] as int;
    assert(queue.contains(queue[0]));
    assert(after.spec_states()[q0] == State::Wanted);
    assert forall|i: int| 0 <= i < n && #[trigger] after.spec_states()[i] == State::Wanted implies after.blocked_in(
        after.spec_states(), i) by {
        lemma_queued_blocked(before, after, queue, i);
    }
}


/// Under a ranking that drops along every link, no wanted node of a stuck state ranks below `r`.
proof fn lemma_stuck_ranks(before: &InitGraph, after: &InitGraph, rank: spec_fn(int) -> nat, r: nat)
    requires
        before.stuck(after),
        forall|x: int, y: int| #[trigger] after.links_to(x, y) ==> rank(y) < rank(x),
    ensures
        forall|w: int| 0 <= w < before.spec_states().len() && #[trigger] after.spec_states()[w] == State::Wanted ==> rank(w) >= r,
    decreases r,
{
    if r > 0 {
        lemma_stuck_ranks(before, after, rank, (r - 1) as nat);
        assert forall|w: int| 0 <= w < before.spec_states().len() && #[trigger] after.spec_states()[w] == State::Wanted implies rank(w)
            >= r by {
            assert(after.blocked_in(after.spec_states(), w));
            let y = choose|y: int| 0 <= y < after.spec_states().len() && #[trigger] after.links_to(w, y)
                && after.spec_states()[y] == State::Wanted;
            assert(rank(y) >= r - 1);
        }
    }
}

/// A run of a graph whose nodes can be ranked so that each node ranks above every node that it
/// requires or runs after never gets stuck: when no cycle runs through the links, a run always
/// executes every node that it marks.
pub proof fn law_ranked_graph_never_stuck(before: &InitGraph, after: &InitGraph, rank: spec_fn(int) -> nat)
    requires
        after.same_links(before),
        forall|x: int, y: int| #[trigger] before.links_to(x, y) ==> rank(y) < rank(x),
    ensures
        !before.stuck(after),
{
    if before.stuck(after) {
        assert forall|x: int, y: int| #[trigger] after.links_to(x, y) implies rank(y) < rank(x) by {
            assert(before.links_to(x, y));
        }
        let w = choose|i: int| 0 <= i < before.spec_states().len() && #[trigger] after.spec_states()[i] == State::Wanted;
        lemma_stuck_ranks(before, after, rank, rank(w) + 1);
    }
}

} // verus!
