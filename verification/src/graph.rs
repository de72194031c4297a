//! Nodes, arcs and routes.
use std::collections::BTreeMap;
use vstd::prelude::*;
use vstd::std_specs::cmp::OrdSpec;
use vstd::std_specs::iter::IteratorSpec;
use crate::task::units_needed;

verus! {

/// A directed edge from `start_id` to `end_id`.
///
/// Crossing it takes `length` units of time, and at most `capacity` people
/// may enter it during one unit. Two arcs are the same arc when all five
/// fields agree. `due_date` is recorded and never enforced.
#[derive(Clone, Copy, Debug, PartialEq, Eq, Structural, Hash)]
pub struct Arc {
    pub start_id: u64,
    pub end_id: u64,
    pub length: u64,
    pub capacity: u64,
    pub due_date: u64,
}

/// A place of the graph: an evacuation node, which has a population and a
/// rate at which it can let people go, or a node on the way to safety, which
/// has neither.
#[derive(Debug)]
pub struct Node {
    pub id: u64,
    pub population: Option<u64>,
    pub max_rate: Option<u64>,
    /// The arcs that end here, each once.
    pub incoming: Vec<Arc>,
    /// The arc that leaves this node, if one was attached.
    pub outgoing: Option<Arc>,
}

/// The mathematical content of a [`Node`].
pub struct NodeModel {
    pub id: u64,
    pub population: Option<u64>,
    pub max_rate: Option<u64>,
    pub incoming: Seq<Arc>,
    pub outgoing: Option<Arc>,
}

impl View for Node {
    type V = NodeModel;

    open spec fn view(&self) -> NodeModel {
        NodeModel {
            id: self.id,
            population: self.population,
            max_rate: self.max_rate,
            incoming: self.incoming@,
            outgoing: self.outgoing,
        }
    }
}

/// The mathematical content of a [`Graph`].
pub struct GraphModel {
    pub safe_id: u64,
    pub nodes: Map<u64, NodeModel>,
    pub routes: Seq<Seq<Arc>>,
}

/// A node that is made because an arc names it: it has no population and no
/// largest rate.
pub open spec fn fresh_node(id: u64, incoming: Seq<Arc>, outgoing: Option<Arc>) -> NodeModel {
    NodeModel { id, population: None, max_rate: None, incoming, outgoing }
}

/// `nodes` after `arc` was offered to its start node: a node that has no
/// outgoing arc takes it, one that has keeps its own, and a missing node is
/// made.
pub open spec fn with_outgoing(nodes: Map<u64, NodeModel>, arc: Arc) -> Map<u64, NodeModel> {
    if nodes.contains_key(arc.start_id) {
        let node = nodes[arc.start_id];
        if node.outgoing is None {
            nodes.insert(arc.start_id, NodeModel { outgoing: Some(arc), ..node })
        } else {
            nodes
        }
    } else {
        nodes.insert(arc.start_id, fresh_node(arc.start_id, Seq::empty(), Some(arc)))
    }
}

/// `nodes` after `arc` was offered to its end node: the node puts it behind
/// its incoming arcs unless it is among them, and a missing node is made.
pub open spec fn with_incoming(nodes: Map<u64, NodeModel>, arc: Arc) -> Map<u64, NodeModel> {
    if nodes.contains_key(arc.end_id) {
        let node = nodes[arc.end_id];
        if node.incoming.contains(arc) {
            nodes
        } else {
            nodes.insert(arc.end_id, NodeModel { incoming: node.incoming.push(arc), ..node })
        }
    } else {
        nodes.insert(arc.end_id, fresh_node(arc.end_id, seq![arc], None))
    }
}

/// Whether `arc` is among `arcs`.
pub fn holds_arc(arcs: &Vec<Arc>, arc: Arc) -> (found: bool)
    ensures
        found == arcs@.contains(arc),
{
    let mut i: usize = 0;
    while i < arcs.len()
        invariant
            i <= arcs.len(),
            forall|j: int| 0 <= j < i ==> arcs@[j] != arc,
        decreases arcs.len() - i,
    {
        if arcs[i] == arc {
            return true;
        }
        i += 1;
    }
    false
}

/// The routes of `routes` as sequences of arcs.
pub open spec fn route_seqs(routes: Seq<Vec<Arc>>) -> Seq<Seq<Arc>> {
    Seq::new(routes.len(), |i: int| routes[i]@)
}

/// The time that it takes to cross the first `n` arcs of `route` one after
/// the other.
pub open spec fn length_of(route: Seq<Arc>, n: int) -> nat
    decreases n,
{
    if n <= 0 || n > route.len() {
        0
    } else {
        length_of(route, n - 1) + route[n - 1].length as nat
    }
}

/// The smallest capacity among the first `n` arcs of `route`; the largest
/// 64-bit number where there is none.
pub open spec fn narrowest(route: Seq<Arc>, n: int) -> nat
    decreases n,
{
    if n <= 0 || n > route.len() {
        u64::MAX as nat
    } else if (route[n - 1].capacity as nat) < narrowest(route, n - 1) {
        route[n - 1].capacity as nat
    } else {
        narrowest(route, n - 1)
    }
}

/// The population that `route` evacuates: that of the node at which its
/// first arc starts.
pub open spec fn population_of(nodes: Map<u64, NodeModel>, route: Seq<Arc>) -> Option<u64> {
    if route.len() > 0 && nodes.contains_key(route[0].start_id) {
        nodes[route[0].start_id].population
    } else {
        None
    }
}

/// The earliest time by which the last person of `route` can be safe, were
/// the route alone: the units that its population needs to pass its
/// narrowest arc, and the time to cross the route, less one.
///
/// There is no such time for a route without arcs, without a known
/// population or with an arc that nothing can pass, nor where the formula
/// would give a time before zero.
pub open spec fn route_bound(nodes: Map<u64, NodeModel>, route: Seq<Arc>) -> Option<nat> {
    match population_of(nodes, route) {
        None => None,
        Some(population) => {
            let narrow = narrowest(route, route.len() as int);
            let units = units_needed(population as nat, narrow);
            let crossing = length_of(route, route.len() as int);
            if narrow == 0 || units + crossing == 0 {
                None
            } else {
                Some((units + crossing - 1) as nat)
            }
        },
    }
}

/// Whether each of the first `n` routes has a bound.
pub open spec fn all_bounded(graph: GraphModel, n: int) -> bool {
    forall|i: int| 0 <= i < n ==> (#[trigger] route_bound(graph.nodes, graph.routes[i])) is Some
}

/// The largest bound among the first `n` routes.
pub open spec fn latest_bound(graph: GraphModel, n: int) -> nat
    decreases n,
{
    if n <= 0 || n > graph.routes.len() {
        0
    } else {
        let bound = route_bound(graph.nodes, graph.routes[n - 1]).unwrap_or(0);
        if bound > latest_bound(graph, n - 1) {
            bound
        } else {
            latest_bound(graph, n - 1)
        }
    }
}

/// The sum of the bounds of the first `n` routes.
pub open spec fn summed_bound(graph: GraphModel, n: int) -> nat
    decreases n,
{
    if n <= 0 || n > graph.routes.len() {
        0
    } else {
        summed_bound(graph, n - 1) + route_bound(graph.nodes, graph.routes[n - 1]).unwrap_or(0)
    }
}

/// The lower bounds that the routes of `graph` give: the largest of their
/// bounds and the sum of them. There are none where there is no route or
/// where a route has no bound.
pub open spec fn bounds(graph: GraphModel) -> Option<(nat, nat)> {
    let n = graph.routes.len() as int;
    if n > 0 && all_bounded(graph, n) {
        Some((latest_bound(graph, n), summed_bound(graph, n)))
    } else {
        None
    }
}

/// The sum of bounds grows with the number of routes.
proof fn lemma_summed_bound_grows(graph: GraphModel, m: int, n: int)
    requires
        0 <= m <= n <= graph.routes.len(),
    ensures
        summed_bound(graph, m) <= summed_bound(graph, n),
    decreases n - m,
{
    if m < n {
        lemma_summed_bound_grows(graph, m, n - 1);
    }
}

/// The crossing time grows with the number of arcs.
proof fn lemma_length_of_grows(route: Seq<Arc>, m: int, n: int)
    requires
        0 <= m <= n <= route.len(),
    ensures
        length_of(route, m) <= length_of(route, n),
    decreases n - m,
{
    if m < n {
        lemma_length_of_grows(route, m, n - 1);
    }
}

/// The two nodes that each of `arcs` joins, in order.
pub open spec fn ends_of(arcs: Seq<Arc>) -> Seq<(u64, u64)> {
    Seq::new(arcs.len(), |i: int| (arcs[i].start_id, arcs[i].end_id))
}

/// The edges that end at the first `n` of the nodes `ids`: for each node in
/// turn, its incoming arcs in their order.
pub open spec fn edges_into(nodes: Map<u64, NodeModel>, ids: Seq<u64>, n: int) -> Seq<(u64, u64)>
    decreases n,
{
    if n <= 0 || n > ids.len() {
        Seq::empty()
    } else {
        edges_into(nodes, ids, n - 1) + ends_of(nodes[ids[n - 1]].incoming)
    }
}

/// Whether each number of `ids` is smaller than those behind it.
pub open spec fn ascending(ids: Seq<u64>) -> bool {
    forall|i: int, j: int| 0 <= i < j < ids.len() ==> ids[i] < ids[j]
}

/// What a drawing of a graph shows: the ids of the nodes, and the edges as
/// pairs of ids.
#[derive(Debug)]
pub struct Drawing {
    pub nodes: Vec<u64>,
    pub edges: Vec<(u64, u64)>,
}

/// The edges into the first nodes of a list depend on those nodes only.
proof fn lemma_edges_into_prefix(nodes: Map<u64, NodeModel>, few: Seq<u64>, ids: Seq<u64>, n: int)
    requires
        0 <= n <= few.len() <= ids.len(),
        forall|k: int| 0 <= k < few.len() ==> few[k] == ids[k],
    ensures
        edges_into(nodes, ids, n) == edges_into(nodes, few, n),
    decreases n,
{
    if n > 0 {
        lemma_edges_into_prefix(nodes, few, ids, n - 1);
    }
}

/// Keys in the order in which a map hands them out stand in ascending order.
proof fn lemma_increasing_is_ascending(keys: Seq<u64>)
    requires
        vstd::std_specs::btree::increasing_seq(keys),
    ensures
        ascending(keys),
{
    broadcast use vstd::std_specs::btree::group_btree_axioms;

    assert forall|i: int, j: int| 0 <= i < j < keys.len() implies keys[i] < keys[j] by {
        assert(keys[i].cmp_spec(&keys[j]) is Less);
    }
}

/// The smallest capacity among the arcs of `route`; the largest 64-bit
/// number where there is none.
pub fn narrowest_capacity(route: &Vec<Arc>) -> (narrow: u64)
    ensures
        narrow == narrowest(route@, route@.len() as int),
{
    let mut narrow: u64 = u64::MAX;
    let mut k: usize = 0;
    while k < route.len()
        invariant
            k <= route.len(),
            narrow == narrowest(route@, k as int),
        decreases route.len() - k,
    {
        if route[k].capacity < narrow {
            narrow = route[k].capacity;
        }
        k += 1;
    }
    narrow
}

/// A directed graph whose routes lead from evacuation nodes to one safe node.
#[derive(Debug)]
pub struct Graph {
    safe_id: u64,
    nodes: BTreeMap<u64, Node>,
    routes: Vec<Vec<Arc>>,
}

impl View for Graph {
    type V = GraphModel;

    closed spec fn view(&self) -> GraphModel {
        GraphModel {
            safe_id: self.safe_id,
            nodes: self.nodes@.map_values(|node: Node| node@),
            routes: route_seqs(self.routes@),
        }
    }
}

impl Graph {
    /// The graph with the safe node `safe_id`, and with no node, arc or route
    /// yet.
    pub fn new(safe_id: u64) -> (graph: Graph)
        ensures
            graph@ == (GraphModel {
                safe_id,
                nodes: Map::<u64, NodeModel>::empty(),
                routes: Seq::<Seq<Arc>>::empty(),
            }),
    {
        let graph = Graph { safe_id, nodes: BTreeMap::new(), routes: Vec::new() };
        assert(graph@.nodes =~= Map::<u64, NodeModel>::empty());
        assert(graph@.routes =~= Seq::<Seq<Arc>>::empty());
        graph
    }

    /// The id of the safe node.
    pub fn safe_id(&self) -> (id: u64)
        ensures
            id == self@.safe_id,
    {
        self.safe_id
    }

    /// The routes, in the order in which they were declared.
    pub fn routes(&self) -> (routes: &Vec<Vec<Arc>>)
        ensures
            route_seqs(routes@) == self@.routes,
    {
        &self.routes
    }

    /// The node with this id, if the graph holds one.
    pub fn node(&self, id: u64) -> (node: Option<&Node>)
        ensures
            match node {
                Some(node) => self@.nodes.contains_key(id) && self@.nodes[id] == node@,
                None => !self@.nodes.contains_key(id),
            },
    {
        self.nodes.get(&id)
    }

    /// The bound of one route, where it has one that fits in 64 bits.
    fn bound_of(&self, route: &Vec<Arc>) -> (bound: Option<u64>)
        ensures
            match bound {
                Some(bound) => route_bound(self@.nodes, route@) == Some(bound as nat),
                None => route_bound(self@.nodes, route@) is None || route_bound(
                    self@.nodes,
                    route@,
                )->Some_0 > u64::MAX,
            },
    {
        if route.len() == 0 {
            return None;
        }
        let population: u64 = match self.nodes.get(&route[0].start_id) {
            None => {
                return None;
            },
            Some(node) => match node.population {
                None => {
                    return None;
                },
                Some(population) => population,
            },
        };
        let narrow: u64 = narrowest_capacity(route);
        if narrow == 0 {
            return None;
        }
        let limit: u128 = 0x1_0000_0000_0000_0000;
        let mut crossing: u128 = 0;
        let mut k: usize = 0;
        while k < route.len()
            invariant
                k <= route.len(),
                limit == 0x1_0000_0000_0000_0000,
                crossing == length_of(route@, k as int),
                crossing <= limit,
                narrow > 0,
                narrow == narrowest(route@, route@.len() as int),
                population_of(self@.nodes, route@) == Some(population),
            decreases route.len() - k,
        {
            crossing = crossing + route[k].length as u128;
            k += 1;
            if crossing > limit {
                proof {
                    lemma_length_of_grows(route@, k as int, route@.len() as int);
                }
                return None;
            }
        }
        let full: u64 = population / narrow;
        let units: u64 = if population % narrow > 0 {
            assert(full < population) by (nonlinear_arith)
                requires
                    narrow > 0,
                    full == population / narrow,
                    population % narrow > 0,
            ;
            full + 1
        } else {
            full
        };
        let total: u128 = units as u128 + crossing;
        if total == 0 || total - 1 > u64::MAX as u128 {
            return None;
        }
        Some((total - 1) as u64)
    }

    /// Lower bounds on the time that any schedule needs: the largest and the
    /// sum of the times that each route would need were it alone, which for a
    /// route is the number of units that its population needs to pass its
    /// narrowest arc, and the time to cross the route, less one.
    ///
    /// There are none where the graph has no route, where a route has no
    /// bound, or where the sum does not fit in 64 bits.
    pub fn get_bounds(&self) -> (result: Option<(u64, u64)>)
        ensures
            match result {
                Some((latest, sum)) => bounds(self@) == Some((latest as nat, sum as nat)),
                None => bounds(self@) is None || bounds(self@)->Some_0.1 > u64::MAX,
            },
    {
        let n: usize = self.routes.len();
        if n == 0 {
            return None;
        }
        let mut latest: u64 = 0;
        let mut sum: u64 = 0;
        let mut i: usize = 0;
        while i < n
            invariant
                i <= n,
                n == self.routes@.len(),
                n == self@.routes.len(),
                all_bounded(self@, i as int),
                latest == latest_bound(self@, i as int),
                sum == summed_bound(self@, i as int),
            decreases n - i,
        {
            match self.bound_of(&self.routes[i]) {
                None => {
                    proof {
                        if bounds(self@) is Some {
                            lemma_summed_bound_grows(self@, i + 1, n as int);
                        }
                    }
                    return None;
                },
                Some(bound) => {
                    if bound > u64::MAX - sum {
                        proof {
                            if bounds(self@) is Some {
                                lemma_summed_bound_grows(self@, i + 1, n as int);
                            }
                        }
                        return None;
                    }
                    sum = sum + bound;
                    if bound > latest {
                        latest = bound;
                    }
                },
            }
            i += 1;
        }
        Some((latest, sum))
    }

    /// What a drawing of the graph shows: the ids under which the graph holds
    /// its nodes, in ascending order, and for each of them in turn the edges
    /// that end there.
    #[verifier::loop_isolation(false)]
    pub fn drawing(&self) -> (drawing: Drawing)
        ensures
            ascending(drawing.nodes@),
            drawing.nodes@.to_set() == self@.nodes.dom(),
            drawing.edges@ == edges_into(
                self@.nodes,
                drawing.nodes@,
                drawing.nodes@.len() as int,
            ),
    {
        let mut nodes: Vec<u64> = Vec::new();
        let mut edges: Vec<(u64, u64)> = Vec::new();
        let ghost entries = self.nodes.iter().remaining();
        for entry in it: self.nodes.iter()
            invariant
                it.seq() == entries,
                nodes@.len() == it.index(),
                forall|k: int| 0 <= k < nodes@.len() ==> nodes@[k] == *entries[k].0,
                edges@ == edges_into(self@.nodes, nodes@, nodes@.len() as int),
        {
            let node: &Node = entry.1;
            let ghost before = edges@;
            let ghost held = nodes@;
            let mut i: usize = 0;
            assert(edges@ =~= before + ends_of(node.incoming@.take(0)));
            while i < node.incoming.len()
                invariant
                    i <= node.incoming.len(),
                    edges@ == before + ends_of(node.incoming@.take(i as int)),
                decreases node.incoming.len() - i,
            {
                let arc: Arc = node.incoming[i];
                edges.push((arc.start_id, arc.end_id));
                assert(edges@ =~= before + ends_of(node.incoming@.take(i + 1)));
                i += 1;
            }
            nodes.push(*entry.0);
            proof {
                assert(node.incoming@.take(i as int) =~= node.incoming@);
                assert(self.nodes@.contains_key(*entry.0) && self.nodes@[*entry.0] == *entry.1);
                lemma_edges_into_prefix(self@.nodes, held, nodes@, held.len() as int);
            }
        }
        proof {
            let keys = entries.map_values(|entry: (&u64, &Node)| *entry.0);
            assert(nodes@ =~= keys);
            lemma_increasing_is_ascending(keys);
            assert forall|id: u64| nodes@.to_set().contains(id) == self@.nodes.dom().contains(
                id,
            ) by {
                if self.nodes@.contains_key(id) {
                    let k = entries.index_of((&id, &self.nodes@[id]));
                    assert(nodes@[k] == id);
                }
                if nodes@.to_set().contains(id) {
                    let k = nodes@.index_of(id);
                    assert(self.nodes@.contains_key(*entries[k].0));
                }
            }
            assert(nodes@.to_set() =~= self@.nodes.dom());
        }
        Drawing { nodes, edges }
    }

    /// Puts `node` under its id, in place of any node that was there.
    pub fn add_node(&mut self, node: Node)
        ensures
            final(self)@ == (GraphModel {
                nodes: old(self)@.nodes.insert(node.id, node@),
                ..old(self)@
            }),
    {
        let ghost before = self@;
        self.nodes.insert(node.id, node);
        assert(self@.nodes =~= before.nodes.insert(node.id, node@));
    }

    /// Offers `arc` to the node at which it starts.
    fn attach_outgoing(&mut self, arc: Arc)
        ensures
            final(self)@ == (GraphModel {
                nodes: with_outgoing(old(self)@.nodes, arc),
                ..old(self)@
            }),
    {
        let ghost before = self@;
        match self.nodes.remove(&arc.start_id) {
            Some(node) => {
                let mut node = node;
                if node.outgoing.is_none() {
                    node.outgoing = Some(arc);
                }
                self.nodes.insert(arc.start_id, node);
            },
            None => {
                self.nodes.insert(
                    arc.start_id,
                    Node {
                        id: arc.start_id,
                        population: None,
                        max_rate: None,
                        incoming: Vec::new(),
                        outgoing: Some(arc),
                    },
                );
            },
        }
        assert(self@.nodes =~= with_outgoing(before.nodes, arc));
    }

    /// Offers `arc` to the node at which it ends.
    fn attach_incoming(&mut self, arc: Arc)
        ensures
            final(self)@ == (GraphModel {
                nodes: with_incoming(old(self)@.nodes, arc),
                ..old(self)@
            }),
    {
        let ghost before = self@;
        match self.nodes.remove(&arc.end_id) {
            Some(node) => {
                let mut node = node;
                if !holds_arc(&node.incoming, arc) {
                    node.incoming.push(arc);
                }
                self.nodes.insert(arc.end_id, node);
            },
            None => {
                let mut incoming: Vec<Arc> = Vec::new();
                incoming.push(arc);
                self.nodes.insert(
                    arc.end_id,
                    Node {
                        id: arc.end_id,
                        population: None,
                        max_rate: None,
                        incoming,
                        outgoing: None,
                    },
                );
            },
        }
        assert(self@.nodes =~= with_incoming(before.nodes, arc));
    }

    /// Attaches `arc` to the two nodes that it joins, making those that are
    /// missing.
    ///
    /// The start node takes the arc as the one that leaves it, unless it has
    /// one already. The end node then puts it behind its incoming arcs,
    /// unless it is among them.
    pub fn add_arc(&mut self, arc: Arc)
        ensures
            final(self)@ == (GraphModel {
                nodes: with_incoming(with_outgoing(old(self)@.nodes, arc), arc),
                ..old(self)@
            }),
    {
        self.attach_outgoing(arc);
        self.attach_incoming(arc);
    }

    /// Puts `route` behind the routes of the graph.
    pub fn add_route(&mut self, route: Vec<Arc>)
        ensures
            final(self)@ == (GraphModel {
                routes: old(self)@.routes.push(route@),
                ..old(self)@
            }),
    {
        let ghost before = self@;
        self.routes.push(route);
        assert(self@.routes =~= before.routes.push(route@));
    }
}

} // verus!
