//! The making of a graph from what was declared of it: its evacuation nodes,
//! each with the path that its people take, and its arcs.
use vstd::prelude::*;
use crate::error::Error;
use crate::graph::{with_incoming, with_outgoing, Arc, Graph, GraphModel, Node, NodeModel};

verus! {

/// An evacuation node as it is declared: its population, the rate at which
/// it can let people go, and the nodes that its people pass, in order, up to
/// the safe node.
#[derive(Debug)]
pub struct EvacNode {
    pub id: u64,
    pub population: u64,
    pub max_rate: u64,
    pub path: Vec<u64>,
}

/// The mathematical content of an [`EvacNode`].
pub struct EvacNodeModel {
    pub id: u64,
    pub population: u64,
    pub max_rate: u64,
    pub path: Seq<u64>,
}

impl View for EvacNode {
    type V = EvacNodeModel;

    open spec fn view(&self) -> EvacNodeModel {
        EvacNodeModel {
            id: self.id,
            population: self.population,
            max_rate: self.max_rate,
            path: self.path@,
        }
    }
}

/// The models of `sources`, in order.
pub open spec fn source_models(sources: Seq<EvacNode>) -> Seq<EvacNodeModel> {
    Seq::new(sources.len(), |i: int| sources[i]@)
}

impl EvacNodeModel {
    /// The node as it stands in a graph before any arc is attached.
    pub open spec fn node(self) -> NodeModel {
        NodeModel {
            id: self.id,
            population: Some(self.population),
            max_rate: Some(self.max_rate),
            incoming: Seq::empty(),
            outgoing: None,
        }
    }

    /// The node at which edge `j` of the path starts: the evacuation node
    /// itself for the first edge, and the node before `path[j]` for the
    /// others.
    pub open spec fn start(self, j: int) -> u64 {
        if j == 0 {
            self.id
        } else {
            self.path[j - 1]
        }
    }

    /// Edge `j` of the path, from one node of it to the next.
    pub open spec fn edge(self, j: int) -> (u64, u64) {
        (self.start(j), self.path[j])
    }
}

/// `arc` turned round, with its length, capacity and due date.
pub open spec fn reversed(arc: Arc) -> Arc {
    Arc { start_id: arc.end_id, end_id: arc.start_id, ..arc }
}

/// `nodes` after `arc` was attached to the two nodes that it joins.
pub open spec fn with_arc(nodes: Map<u64, NodeModel>, arc: Arc) -> Map<u64, NodeModel> {
    with_incoming(with_outgoing(nodes, arc), arc)
}

/// `nodes` after `arc` was held against `edge`: an arc that joins the two
/// nodes of the edge is attached in the direction of the edge, and any other
/// arc is passed over.
pub open spec fn matched(nodes: Map<u64, NodeModel>, arc: Arc, edge: (u64, u64)) -> Map<
    u64,
    NodeModel,
> {
    if arc.start_id == edge.0 && arc.end_id == edge.1 {
        with_arc(nodes, arc)
    } else if arc.start_id == edge.1 && arc.end_id == edge.0 {
        with_arc(nodes, reversed(arc))
    } else {
        nodes
    }
}

/// `nodes` after `arc` was held against the first `n` edges of the path of
/// `source`.
pub open spec fn matched_path(
    nodes: Map<u64, NodeModel>,
    arc: Arc,
    source: EvacNodeModel,
    n: int,
) -> Map<u64, NodeModel>
    decreases n,
{
    if n <= 0 || n > source.path.len() {
        nodes
    } else {
        matched(matched_path(nodes, arc, source, n - 1), arc, source.edge(n - 1))
    }
}

/// `nodes` after `arc` was held against every edge of the first `n` of
/// `sources`.
pub open spec fn matched_paths(
    nodes: Map<u64, NodeModel>,
    arc: Arc,
    sources: Seq<EvacNodeModel>,
    n: int,
) -> Map<u64, NodeModel>
    decreases n,
{
    if n <= 0 || n > sources.len() {
        nodes
    } else {
        matched_path(
            matched_paths(nodes, arc, sources, n - 1),
            arc,
            sources[n - 1],
            sources[n - 1].path.len() as int,
        )
    }
}

/// `nodes` after the first `n` of `arcs` were held, one after the other,
/// against every edge of `sources`.
pub open spec fn with_arcs(
    nodes: Map<u64, NodeModel>,
    arcs: Seq<Arc>,
    sources: Seq<EvacNodeModel>,
    n: int,
) -> Map<u64, NodeModel>
    decreases n,
{
    if n <= 0 || n > arcs.len() {
        nodes
    } else {
        matched_paths(
            with_arcs(nodes, arcs, sources, n - 1),
            arcs[n - 1],
            sources,
            sources.len() as int,
        )
    }
}

/// The nodes of the first `n` of `sources`, a later one in place of an
/// earlier one with the same id.
pub open spec fn source_nodes(sources: Seq<EvacNodeModel>, n: int) -> Map<u64, NodeModel>
    decreases n,
{
    if n <= 0 || n > sources.len() {
        Map::empty()
    } else {
        source_nodes(sources, n - 1).insert(sources[n - 1].id, sources[n - 1].node())
    }
}

/// The arc that leaves the node `id`, if `nodes` holds the node and the node
/// has one.
pub open spec fn leaving(nodes: Map<u64, NodeModel>, id: u64) -> Option<Arc> {
    if nodes.contains_key(id) {
        nodes[id].outgoing
    } else {
        None
    }
}

/// The first `n` arcs of the route of `source`: for each edge of its path,
/// the arc that leaves the node at which the edge starts.
pub open spec fn route_of(nodes: Map<u64, NodeModel>, source: EvacNodeModel, n: int) -> Result<
    Seq<Arc>,
    Error,
>
    decreases n,
{
    if n <= 0 || n > source.path.len() {
        Ok(Seq::empty())
    } else {
        match route_of(nodes, source, n - 1) {
            Err(error) => Err(error),
            Ok(route) => match leaving(nodes, source.start(n - 1)) {
                None => Err(Error::MissingNode { id: source.start(n - 1) }),
                Some(arc) => Ok(route.push(arc)),
            },
        }
    }
}

/// The routes of the first `n` of `sources`.
pub open spec fn routes_of(
    nodes: Map<u64, NodeModel>,
    sources: Seq<EvacNodeModel>,
    n: int,
) -> Result<Seq<Seq<Arc>>, Error>
    decreases n,
{
    if n <= 0 || n > sources.len() {
        Ok(Seq::empty())
    } else {
        match routes_of(nodes, sources, n - 1) {
            Err(error) => Err(error),
            Ok(routes) => match route_of(
                nodes,
                sources[n - 1],
                sources[n - 1].path.len() as int,
            ) {
                Err(error) => Err(error),
                Ok(route) => Ok(routes.push(route)),
            },
        }
    }
}

/// The nodes of the graph that `sources` and `arcs` declare.
pub open spec fn built_nodes(sources: Seq<EvacNodeModel>, arcs: Seq<Arc>) -> Map<u64, NodeModel> {
    with_arcs(source_nodes(sources, sources.len() as int), arcs, sources, arcs.len() as int)
}

/// The graph that `sources` and `arcs` declare.
///
/// Its nodes are first those of `sources`. Each arc, in the order of
/// declaration, is then held against every edge of every path, and attached
/// wherever it joins the two nodes of an edge. The route of a source has, for
/// each edge of its path, the arc that leaves the node at which the edge
/// starts; a node that is missing, or that no arc leaves, is an error.
pub open spec fn built(safe_id: u64, sources: Seq<EvacNodeModel>, arcs: Seq<Arc>) -> Result<
    GraphModel,
    Error,
> {
    let nodes = built_nodes(sources, arcs);
    match routes_of(nodes, sources, sources.len() as int) {
        Err(error) => Err(error),
        Ok(routes) => Ok(GraphModel { safe_id, nodes, routes }),
    }
}

/// Whether `node` stands rightly under `id`: it has that id; it has a
/// population and a largest rate, or neither; the arc that leaves it starts
/// at it; and the arcs that end at it are kept once each.
pub open spec fn well_formed_node(id: u64, node: NodeModel) -> bool {
    &&& node.id == id
    &&& node.population is Some <==> node.max_rate is Some
    &&& node.outgoing matches Some(arc) ==> arc.start_id == id
    &&& forall|i: int| 0 <= i < node.incoming.len() ==> (#[trigger] node.incoming[i]).end_id == id
    &&& node.incoming.no_duplicates()
}

/// Whether every node of `nodes` stands rightly under its id.
pub open spec fn well_formed_nodes(nodes: Map<u64, NodeModel>) -> bool {
    forall|id: u64| #[trigger] nodes.contains_key(id) ==> well_formed_node(id, nodes[id])
}

/// Attaching an arc keeps the nodes well formed.
pub proof fn lemma_with_arc_well_formed(nodes: Map<u64, NodeModel>, arc: Arc)
    requires
        well_formed_nodes(nodes),
    ensures
        well_formed_nodes(with_arc(nodes, arc)),
{
    let middle = with_outgoing(nodes, arc);
    assert(well_formed_nodes(middle)) by {
        assert forall|id: u64| #[trigger] middle.contains_key(id) implies well_formed_node(
            id,
            middle[id],
        ) by {
            if id != arc.start_id {
                assert(nodes.contains_key(id));
            } else if nodes.contains_key(id) {
                assert(well_formed_node(id, nodes[id]));
            }
        }
    }
    let after = with_incoming(middle, arc);
    assert forall|id: u64| #[trigger] after.contains_key(id) implies well_formed_node(
        id,
        after[id],
    ) by {
        if id != arc.end_id {
            assert(middle.contains_key(id));
        } else if middle.contains_key(id) {
            let node = middle[id];
            assert(well_formed_node(id, node));
            if !node.incoming.contains(arc) {
                let more = node.incoming.push(arc);
                assert forall|i: int, j: int| 0 <= i < more.len() && 0 <= j < more.len() && i
                    != j implies more[i] != more[j] by {
                    if j >= node.incoming.len() {
                        assert(node.incoming.contains(node.incoming[i]));
                    } else if i >= node.incoming.len() {
                        assert(node.incoming.contains(node.incoming[j]));
                    }
                }
                assert forall|i: int| 0 <= i < more.len() implies (#[trigger] more[i]).end_id
                    == id by {
                    if i < node.incoming.len() {
                        assert(more[i] == node.incoming[i]);
                    }
                }
            }
        } else {
            let fresh = seq![arc];
            assert(fresh.no_duplicates());
        }
    }
}

/// Holding an arc against the paths keeps the nodes well formed.
proof fn lemma_matched_paths_well_formed(
    nodes: Map<u64, NodeModel>,
    arc: Arc,
    sources: Seq<EvacNodeModel>,
    n: int,
)
    requires
        well_formed_nodes(nodes),
    ensures
        well_formed_nodes(matched_paths(nodes, arc, sources, n)),
    decreases n,
{
    if 0 < n <= sources.len() {
        lemma_matched_paths_well_formed(nodes, arc, sources, n - 1);
        lemma_matched_path_well_formed(
            matched_paths(nodes, arc, sources, n - 1),
            arc,
            sources[n - 1],
            sources[n - 1].path.len() as int,
        );
    }
}

/// Holding an arc against one path keeps the nodes well formed.
proof fn lemma_matched_path_well_formed(
    nodes: Map<u64, NodeModel>,
    arc: Arc,
    source: EvacNodeModel,
    n: int,
)
    requires
        well_formed_nodes(nodes),
    ensures
        well_formed_nodes(matched_path(nodes, arc, source, n)),
    decreases n,
{
    if 0 < n <= source.path.len() {
        lemma_matched_path_well_formed(nodes, arc, source, n - 1);
        let before = matched_path(nodes, arc, source, n - 1);
        lemma_with_arc_well_formed(before, arc);
        lemma_with_arc_well_formed(before, reversed(arc));
    }
}

/// The nodes of a graph that is built are well formed.
pub proof fn lemma_built_nodes_well_formed(sources: Seq<EvacNodeModel>, arcs: Seq<Arc>)
    ensures
        well_formed_nodes(built_nodes(sources, arcs)),
{
    lemma_source_nodes_well_formed(sources, sources.len() as int);
    lemma_with_arcs_well_formed(
        source_nodes(sources, sources.len() as int),
        arcs,
        sources,
        arcs.len() as int,
    );
}

/// The nodes of sources are well formed.
proof fn lemma_source_nodes_well_formed(sources: Seq<EvacNodeModel>, n: int)
    ensures
        well_formed_nodes(source_nodes(sources, n)),
    decreases n,
{
    if 0 < n <= sources.len() {
        lemma_source_nodes_well_formed(sources, n - 1);
        let before = source_nodes(sources, n - 1);
        let after = source_nodes(sources, n);
        assert forall|id: u64| #[trigger] after.contains_key(id) implies well_formed_node(
            id,
            after[id],
        ) by {
            if id != sources[n - 1].id {
                assert(before.contains_key(id));
            }
        }
    }
}

/// Attaching arcs keeps the nodes well formed.
proof fn lemma_with_arcs_well_formed(
    nodes: Map<u64, NodeModel>,
    arcs: Seq<Arc>,
    sources: Seq<EvacNodeModel>,
    n: int,
)
    requires
        well_formed_nodes(nodes),
    ensures
        well_formed_nodes(with_arcs(nodes, arcs, sources, n)),
    decreases n,
{
    if 0 < n <= arcs.len() {
        lemma_with_arcs_well_formed(nodes, arcs, sources, n - 1);
        lemma_matched_paths_well_formed(
            with_arcs(nodes, arcs, sources, n - 1),
            arcs[n - 1],
            sources,
            sources.len() as int,
        );
    }
}

/// A route that is read off has one arc for each edge of the path, and each
/// arc starts where its edge starts.
pub proof fn lemma_route_of_follows_path(nodes: Map<u64, NodeModel>, source: EvacNodeModel, n: int)
    requires
        well_formed_nodes(nodes),
        0 <= n <= source.path.len(),
        route_of(nodes, source, n) is Ok,
    ensures
        route_of(nodes, source, n)->Ok_0.len() == n,
        forall|k: int|
            0 <= k < n ==> {
                let arc = #[trigger] route_of(nodes, source, n)->Ok_0[k];
                arc.start_id == source.start(k) && leaving(nodes, source.start(k)) == Some(arc)
            },
    decreases n,
{
    if n > 0 {
        lemma_route_of_follows_path(nodes, source, n - 1);
        let before = route_of(nodes, source, n - 1)->Ok_0;
        let route = route_of(nodes, source, n)->Ok_0;
        let last = leaving(nodes, source.start(n - 1))->Some_0;
        assert(route == before.push(last));
        assert(well_formed_node(source.start(n - 1), nodes[source.start(n - 1)]));
        assert forall|k: int| 0 <= k < n implies {
            let arc = #[trigger] route[k];
            arc.start_id == source.start(k) && leaving(nodes, source.start(k)) == Some(arc)
        } by {
            if k < n - 1 {
                assert(route[k] == before[k]);
            }
        }
    }
}

/// The routes of a graph that is built are as many as its sources.
proof fn lemma_routes_of_len(nodes: Map<u64, NodeModel>, sources: Seq<EvacNodeModel>, n: int)
    requires
        0 <= n <= sources.len(),
        routes_of(nodes, sources, n) is Ok,
    ensures
        routes_of(nodes, sources, n)->Ok_0.len() == n,
        forall|i: int|
            0 <= i < n ==> route_of(nodes, sources[i], sources[i].path.len() as int) == Ok::<
                Seq<Arc>,
                Error,
            >(#[trigger] routes_of(nodes, sources, n)->Ok_0[i]),
    decreases n,
{
    if n > 0 {
        lemma_routes_of_len(nodes, sources, n - 1);
        let before = routes_of(nodes, sources, n - 1)->Ok_0;
        let all = routes_of(nodes, sources, n)->Ok_0;
        assert forall|i: int| 0 <= i < n implies route_of(
            nodes,
            sources[i],
            sources[i].path.len() as int,
        ) == Ok::<Seq<Arc>, Error>(#[trigger] all[i]) by {
            if i < n - 1 {
                assert(all[i] == before[i]);
            }
        }
    }
}

/// A graph that is built is well formed: its nodes stand rightly under
/// their ids, it has one route for each source, and each route follows the
/// path of its source, arc by arc, from the source on.
pub proof fn lemma_built_is_well_formed(
    safe_id: u64,
    sources: Seq<EvacNodeModel>,
    arcs: Seq<Arc>,
    i: int,
    k: int,
)
    requires
        built(safe_id, sources, arcs) is Ok,
        0 <= i < sources.len(),
        0 <= k < sources[i].path.len(),
    ensures
        built(safe_id, sources, arcs)->Ok_0.safe_id == safe_id,
        well_formed_nodes(built(safe_id, sources, arcs)->Ok_0.nodes),
        built(safe_id, sources, arcs)->Ok_0.routes.len() == sources.len(),
        built(safe_id, sources, arcs)->Ok_0.routes[i].len() == sources[i].path.len(),
        built(safe_id, sources, arcs)->Ok_0.routes[i][k].start_id == sources[i].start(k),
        leaving(built(safe_id, sources, arcs)->Ok_0.nodes, sources[i].start(k)) == Some(
            built(safe_id, sources, arcs)->Ok_0.routes[i][k],
        ),
{
    let nodes = built_nodes(sources, arcs);
    lemma_built_nodes_well_formed(sources, arcs);
    lemma_routes_of_len(nodes, sources, sources.len() as int);
    let route = routes_of(nodes, sources, sources.len() as int)->Ok_0[i];
    assert(route_of(nodes, sources[i], sources[i].path.len() as int) == Ok::<Seq<Arc>, Error>(
        route,
    ));
    lemma_route_of_follows_path(nodes, sources[i], sources[i].path.len() as int);
    assert(route[k].start_id == sources[i].start(k));
}

/// An error in the first arcs of a route is the error of the route.
proof fn lemma_route_of_fails(nodes: Map<u64, NodeModel>, source: EvacNodeModel, m: int, n: int)
    requires
        0 <= m <= n <= source.path.len(),
        route_of(nodes, source, m) is Err,
    ensures
        route_of(nodes, source, n) == route_of(nodes, source, m),
    decreases n - m,
{
    if m < n {
        lemma_route_of_fails(nodes, source, m, n - 1);
    }
}

/// An error in the first routes is the error of all.
proof fn lemma_routes_of_fails(
    nodes: Map<u64, NodeModel>,
    sources: Seq<EvacNodeModel>,
    m: int,
    n: int,
)
    requires
        0 <= m <= n <= sources.len(),
        routes_of(nodes, sources, m) is Err,
    ensures
        routes_of(nodes, sources, n) == routes_of(nodes, sources, m),
    decreases n - m,
{
    if m < n {
        lemma_routes_of_fails(nodes, sources, m, n - 1);
    }
}

impl Graph {
    /// Holds `arc` against every edge of every path of `sources`, and
    /// attaches it wherever it joins the two nodes of an edge, in the
    /// direction of the edge.
    fn offer(&mut self, arc: Arc, sources: &Vec<EvacNode>)
        ensures
            final(self)@ == (GraphModel {
                nodes: matched_paths(
                    old(self)@.nodes,
                    arc,
                    source_models(sources@),
                    sources@.len() as int,
                ),
                ..old(self)@
            }),
    {
        let ghost models = source_models(sources@);
        let mut i: usize = 0;
        while i < sources.len()
            invariant
                i <= sources.len(),
                models == source_models(sources@),
                self@ == (GraphModel {
                    nodes: matched_paths(old(self)@.nodes, arc, models, i as int),
                    ..old(self)@
                }),
            decreases sources.len() - i,
        {
            let source: &EvacNode = &sources[i];
            let ghost before = self@.nodes;
            let mut j: usize = 0;
            while j < source.path.len()
                invariant
                    j <= source.path.len(),
                    self@ == (GraphModel {
                        nodes: matched_path(before, arc, source@, j as int),
                        ..old(self)@
                    }),
                decreases source.path.len() - j,
            {
                let from: u64 = if j == 0 {
                    source.id
                } else {
                    source.path[j - 1]
                };
                let to: u64 = source.path[j];
                if arc.start_id == from && arc.end_id == to {
                    self.add_arc(arc);
                } else if arc.start_id == to && arc.end_id == from {
                    self.add_arc(
                        Arc {
                            start_id: arc.end_id,
                            end_id: arc.start_id,
                            length: arc.length,
                            capacity: arc.capacity,
                            due_date: arc.due_date,
                        },
                    );
                }
                j += 1;
            }
            i += 1;
        }
    }

    /// The route of `source`: for each edge of its path, the arc that leaves
    /// the node at which the edge starts.
    fn derive_route(&self, source: &EvacNode) -> (result: Result<Vec<Arc>, Error>)
        ensures
            match result {
                Ok(route) => route_of(self@.nodes, source@, source@.path.len() as int) == Ok::<
                    Seq<Arc>,
                    Error,
                >(route@),
                Err(error) => route_of(self@.nodes, source@, source@.path.len() as int) == Err::<
                    Seq<Arc>,
                    Error,
                >(error),
            },
    {
        let mut route: Vec<Arc> = Vec::new();
        let mut j: usize = 0;
        while j < source.path.len()
            invariant
                j <= source.path.len(),
                route_of(self@.nodes, source@, j as int) == Ok::<Seq<Arc>, Error>(route@),
            decreases source.path.len() - j,
        {
            let from: u64 = if j == 0 {
                source.id
            } else {
                source.path[j - 1]
            };
            let found: Option<Arc> = match self.node(from) {
                None => None,
                Some(node) => node.outgoing,
            };
            match found {
                None => {
                    proof {
                        lemma_route_of_fails(
                            self@.nodes,
                            source@,
                            j + 1,
                            source@.path.len() as int,
                        );
                    }
                    return Err(Error::MissingNode { id: from });
                },
                Some(arc) => {
                    route.push(arc);
                },
            }
            j += 1;
        }
        Ok(route)
    }

    /// Makes the graph that `sources` and `arcs` declare, with the safe node
    /// `safe_id`.
    ///
    /// The nodes of `sources` come first. Each arc, in the order of
    /// declaration, is attached wherever it joins the two nodes of an edge of
    /// a path, in the direction of the edge. The routes are then read off:
    /// the route of a source has, for each edge of its path, the arc that
    /// leaves the node at which the edge starts.
    pub fn build(safe_id: u64, sources: &Vec<EvacNode>, arcs: &Vec<Arc>) -> (result: Result<
        Graph,
        Error,
    >)
        ensures
            match result {
                Ok(graph) => built(safe_id, source_models(sources@), arcs@) == Ok::<
                    GraphModel,
                    Error,
                >(graph@),
                Err(error) => built(safe_id, source_models(sources@), arcs@) == Err::<
                    GraphModel,
                    Error,
                >(error),
            },
    {
        let ghost models = source_models(sources@);
        let mut graph = Graph::new(safe_id);
        let mut i: usize = 0;
        while i < sources.len()
            invariant
                i <= sources.len(),
                models == source_models(sources@),
                graph@ == (GraphModel {
                    safe_id,
                    nodes: source_nodes(models, i as int),
                    routes: Seq::empty(),
                }),
            decreases sources.len() - i,
        {
            let source: &EvacNode = &sources[i];
            graph.add_node(
                Node {
                    id: source.id,
                    population: Some(source.population),
                    max_rate: Some(source.max_rate),
                    incoming: Vec::new(),
                    outgoing: None,
                },
            );
            i += 1;
        }
        let ghost declared = graph@.nodes;
        let mut k: usize = 0;
        while k < arcs.len()
            invariant
                k <= arcs.len(),
                models == source_models(sources@),
                declared == source_nodes(models, models.len() as int),
                graph@ == (GraphModel {
                    safe_id,
                    nodes: with_arcs(declared, arcs@, models, k as int),
                    routes: Seq::empty(),
                }),
            decreases arcs.len() - k,
        {
            graph.offer(arcs[k], sources);
            k += 1;
        }
        let ghost nodes = graph@.nodes;
        let mut r: usize = 0;
        while r < sources.len()
            invariant
                r <= sources.len(),
                models == source_models(sources@),
                nodes == built_nodes(models, arcs@),
                graph@.safe_id == safe_id,
                graph@.nodes == nodes,
                routes_of(nodes, models, r as int) == Ok::<Seq<Seq<Arc>>, Error>(graph@.routes),
            decreases sources.len() - r,
        {
            match graph.derive_route(&sources[r]) {
                Err(error) => {
                    proof {
                        lemma_routes_of_fails(nodes, models, r + 1, models.len() as int);
                    }
                    return Err(error);
                },
                Ok(route) => {
                    graph.add_route(route);
                },
            }
            r += 1;
        }
        Ok(graph)
    }
}

} // verus!
