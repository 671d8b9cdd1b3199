//! The graph: nodes, the forward edge table and the predecessor index.

use crate::error::GraphError;
use crate::pairs::lemma_to_map_dom;
use crate::props::Props;
use std::collections::hash_map::Entry;
use std::collections::HashMap;
use std::collections::HashSet;
use vstd::prelude::*;
use vstd::std_specs::cmp::PartialEqSpecImpl;
use vstd::std_specs::iter::IteratorSpec;

verus! {

broadcast use vstd::std_specs::hash::group_hash_axioms;

/// A node: its identifier and its properties.
#[derive(Debug)]
pub struct Node {
    pub id: i32,
    pub props: Props,
}

/// What a node holds.
pub struct NodeView {
    pub id: i32,
    pub props: Map<Seq<char>, Seq<char>>,
}

impl View for Node {
    type V = NodeView;

    open spec fn view(&self) -> NodeView {
        NodeView { id: self.id, props: self.props@ }
    }
}

/// An edge: its labels, in the order in which they were given.
#[derive(Debug)]
pub struct Edge {
    pub labels: Vec<String>,
}

/// The texts of a list of labels.
pub open spec fn label_texts(labels: Seq<String>) -> Seq<Seq<char>> {
    Seq::new(labels.len(), |i: int| labels[i]@)
}

impl View for Edge {
    type V = Seq<Seq<char>>;

    open spec fn view(&self) -> Seq<Seq<char>> {
        label_texts(self.labels@)
    }
}

/// A directed graph. Between an ordered pair of nodes there is at most one
/// edge.
#[derive(Debug)]
pub struct Graph {
    nodes: HashMap<i32, Node>,
    edges: HashMap<i32, HashMap<i32, Edge>>,
    reverse_edges: HashMap<i32, HashSet<i32>>,
    max_node_id: i32,
}

/// What a graph holds: its nodes by identifier, and the labels of its edges
/// by origin and destination. Two graphs are equal when these are.
pub struct GraphView {
    pub nodes: Map<i32, NodeView>,
    pub edges: Map<(i32, i32), Seq<Seq<char>>>,
}

impl GraphView {
    /// The origins of the edges that lead to `destination`.
    pub open spec fn origins_of(self, destination: i32) -> Set<i32> {
        Set::new(|origin: i32| self.edges.contains_key((origin, destination)))
    }

    /// The graph is finite, and its edges run between its nodes.
    pub open spec fn valid(self) -> bool {
        &&& self.nodes.dom().finite()
        &&& forall|id: i32| #[trigger]
            self.nodes.contains_key(id) ==> self.nodes[id].props.dom().finite()
        &&& forall|o: i32, d: i32| #[trigger]
            self.edges.contains_key((o, d)) ==> self.nodes.contains_key(o)
                && self.nodes.contains_key(d)
    }

    /// The graph with an edge from `origin` to `destination`, in place of
    /// one that ran there before.
    pub open spec fn connected(
        self,
        origin: i32,
        destination: i32,
        labels: Seq<Seq<char>>,
    ) -> GraphView {
        GraphView { nodes: self.nodes, edges: self.edges.insert((origin, destination), labels) }
    }

    /// The graph without the node `id` and without the edges that start or
    /// end there.
    pub open spec fn without_node(self, id: i32) -> GraphView {
        GraphView {
            nodes: self.nodes.remove(id),
            edges: Map::new(
                |pair: (i32, i32)| self.edges.contains_key(pair) && pair.0 != id && pair.1 != id,
                |pair: (i32, i32)| self.edges[pair],
            ),
        }
    }
}

/// The greater of the last identifier and `id`: the last identifier after
/// a node came under `id`.
pub open spec fn raised_id(last: i32, id: i32) -> i32 {
    if id > last {
        id
    } else {
        last
    }
}

/// `last` is the greatest identifier of `nodes`, or 0 where none of them is
/// above 0.
pub open spec fn greatest_id(nodes: Map<i32, NodeView>, last: i32) -> bool {
    &&& last >= 0
    &&& forall|id: i32| #[trigger] nodes.contains_key(id) ==> id <= last
    &&& last > 0 ==> nodes.contains_key(last)
}

/// The greatest identifier stays the greatest when it is raised for another
/// node.
pub proof fn lemma_raised_id(nodes: Map<i32, NodeView>, last: i32, id: i32, node: NodeView)
    requires
        greatest_id(nodes, last),
    ensures
        greatest_id(nodes.insert(id, node), raised_id(last, id)),
{
}

/// The forward table holds an edge from `origin` to `destination`.
spec fn row_has(
    edges: Map<i32, HashMap<i32, Edge>>,
    origin: i32,
    destination: i32,
) -> bool {
    edges.contains_key(origin) && edges[origin]@.contains_key(destination)
}

/// The predecessor index holds `origin` for `destination`.
spec fn index_has(
    index: Map<i32, HashSet<i32>>,
    destination: i32,
    origin: i32,
) -> bool {
    index.contains_key(destination) && index[destination]@.contains(origin)
}

/// Every row of the forward table belongs to a node and holds an edge.
spec fn rows_filled(nodes: Map<i32, Node>, edges: Map<i32, HashMap<i32, Edge>>) -> bool {
    forall|o: i32| #[trigger] edges.contains_key(o) ==> nodes.contains_key(o) && edges[o]@.len() > 0
}

/// The predecessor index holds `origin` for `destination` exactly where the
/// forward table holds an edge from `origin` to `destination`.
spec fn tables_agree(edges: Map<i32, HashMap<i32, Edge>>, index: Map<i32, HashSet<i32>>) -> bool {
    forall|o: i32, d: i32|
        #![trigger row_has(edges, o, d)]
        #![trigger index_has(index, d, o)]
        row_has(edges, o, d) <==> index_has(index, d, o)
}

/// Every edge of the table `now` has the labels that it has in `before`.
spec fn labels_kept(
    now: Map<i32, HashMap<i32, Edge>>,
    before: Map<i32, HashMap<i32, Edge>>,
) -> bool {
    forall|o: i32, d: i32| #[trigger] row_has(now, o, d) ==> now[o]@[d] == before[o]@[d]
}

/// `id` is among the first `n` of `ids`.
spec fn among(ids: Seq<&i32>, n: int, id: i32) -> bool {
    exists|k: int| 0 <= k < n && *ids[k] == id
}

proof fn lemma_among_next(ids: Seq<&i32>, n: int, id: i32)
    requires
        0 <= n < ids.len(),
    ensures
        among(ids, n + 1, id) <==> among(ids, n, id) || *ids[n] == id,
{
    if among(ids, n + 1, id) {
        let k = choose|k: int| 0 <= k < n + 1 && *ids[k] == id;
        if k < n {
            assert(0 <= k < n && *ids[k] == id);
        }
    }
    if among(ids, n, id) {
        let k = choose|k: int| 0 <= k < n && *ids[k] == id;
        assert(0 <= k < n + 1 && *ids[k] == id);
    }
    if *ids[n] == id {
        assert(0 <= n < n + 1 && *ids[n] == id);
    }
}

impl View for Graph {
    type V = GraphView;

    closed spec fn view(&self) -> GraphView {
        GraphView {
            nodes: Map::new(|id: i32| self.nodes@.contains_key(id), |id: i32| self.nodes@[id]@),
            edges: Map::new(
                |pair: (i32, i32)| row_has(self.edges@, pair.0, pair.1),
                |pair: (i32, i32)| self.edges@[pair.0]@[pair.1]@,
            ),
        }
    }
}

impl Graph {
    /// The greatest identifier that was handed out or loaded so far.
    pub closed spec fn last_id(&self) -> i32 {
        self.max_node_id
    }

    /// What the predecessor index holds for `destination`.
    pub closed spec fn predecessors(&self, destination: i32) -> Set<i32> {
        if self.reverse_edges@.contains_key(destination) {
            self.reverse_edges@[destination]@
        } else {
            Set::empty()
        }
    }

    /// The tables of the graph agree: edges run between nodes of the graph,
    /// no origin is kept without an edge, the predecessor index holds for
    /// each node, and for nodes only, exactly the origins of the edges that
    /// lead to it, and no node has an identifier above the last one handed
    /// out, which is 0 or more.
    pub closed spec fn wf(&self) -> bool {
        &&& rows_filled(self.nodes@, self.edges@)
        &&& forall|o: i32, d: i32| #[trigger]
            row_has(self.edges@, o, d) ==> self.nodes@.contains_key(d)
        &&& tables_agree(self.edges@, self.reverse_edges@)
        &&& forall|d: i32| #[trigger]
            self.reverse_edges@.contains_key(d) ==> self.nodes@.contains_key(d)
        &&& forall|id: i32| #[trigger] self.nodes@.contains_key(id) ==> id <= self.max_node_id
        &&& 0 <= self.max_node_id
    }

    /// Every edge of a well-formed graph runs between nodes of the graph,
    /// and the graph is finite.
    pub proof fn lemma_view_valid(&self)
        requires
            self.wf(),
        ensures
            self@.valid(),
    {
        assert(self@.nodes.dom() =~= self.nodes@.dom());
        assert forall|id: i32| #[trigger] self@.nodes.contains_key(id) implies self@.nodes[id]
            .props.dom().finite() by {
            lemma_to_map_dom(self.nodes@[id].props.pairs());
        }
        assert forall|o: i32, d: i32| #[trigger]
            self@.edges.contains_key((o, d)) implies self@.nodes.contains_key(o)
            && self@.nodes.contains_key(d) by {
            assert(row_has(self.edges@, o, d));
        }
    }

    /// The predecessor index is sound: for every node it holds exactly the
    /// origins of the edges that lead to that node.
    pub proof fn lemma_predecessors_sound(&self, destination: i32)
        requires
            self.wf(),
        ensures
            self.predecessors(destination) == self@.origins_of(destination),
    {
        assert forall|o: i32|
            self.predecessors(destination).contains(o) <==> self@.origins_of(destination).contains(
                o,
            ) by {
            assert(index_has(self.reverse_edges@, destination, o) <==> row_has(
                self.edges@,
                o,
                destination,
            ));
        }
        assert(self.predecessors(destination) =~= self@.origins_of(destination));
    }

    /// No node has an identifier above the last one handed out, so the next
    /// one handed out is new; and the last one handed out is 0 or more, so
    /// the next one is positive.
    pub proof fn lemma_ids_below_last(&self)
        requires
            self.wf(),
        ensures
            forall|id: i32| #[trigger] self@.nodes.contains_key(id) ==> id <= self.last_id(),
            0 <= self.last_id(),
    {
    }

    /// A graph without nodes.
    pub fn new() -> (g: Graph)
        ensures
            g.wf(),
            g@.nodes == Map::<i32, NodeView>::empty(),
            g@.edges == Map::<(i32, i32), Seq<Seq<char>>>::empty(),
            g.last_id() == 0,
    {
        let g = Graph {
            max_node_id: 0,
            nodes: HashMap::new(),
            edges: HashMap::new(),
            reverse_edges: HashMap::new(),
        };
        assert(g@.nodes =~= Map::<i32, NodeView>::empty());
        assert(g@.edges =~= Map::<(i32, i32), Seq<Seq<char>>>::empty());
        g
    }

    /// Whether another identifier can be handed out.
    pub fn has_free_id(&self) -> (r: bool)
        ensures
            r == (self.last_id() < i32::MAX),
    {
        self.max_node_id < i32::MAX
    }

    /// Hands out the next identifier: a positive one, above every one handed
    /// out before and above that of every node.
    pub fn get_node_next_id(&mut self) -> (id: i32)
        requires
            old(self).wf(),
            old(self).last_id() < i32::MAX,
        ensures
            id == old(self).last_id() + 1,
            id >= 1,
            forall|other: i32| #[trigger] old(self)@.nodes.contains_key(other) ==> other < id,
            final(self).last_id() == id,
            final(self)@ == old(self)@,
            final(self).wf(),
    {
        self.max_node_id = self.max_node_id + 1;
        self.max_node_id
    }

    /// Adds a node without properties under a new identifier, and returns
    /// the identifier: a positive one, above every one handed out before
    /// and above that of every node.
    pub fn add_node(&mut self) -> (id: i32)
        requires
            old(self).wf(),
            old(self).last_id() < i32::MAX,
        ensures
            added(*old(self), *final(self), id),
            id == old(self).last_id() + 1,
            id >= 1,
            forall|other: i32| #[trigger] old(self)@.nodes.contains_key(other) ==> other < id,
            final(self).last_id() == id,
            !old(self)@.nodes.contains_key(id),
            final(self)@.nodes == old(self)@.nodes.insert(
                id,
                NodeView { id, props: Map::empty() },
            ),
            final(self)@.edges == old(self)@.edges,
            final(self).wf(),
    {
        let id = self.get_node_next_id();
        let node: Node = Node { id: id, props: Props::new() };
        self.nodes.insert(id, node);
        assert(self@.nodes =~= old(self)@.nodes.insert(id, NodeView { id, props: Map::empty() }));
        assert(self@.edges =~= old(self)@.edges);
        id
    }

    /// Puts `node` into the graph under the identifier `id`, in place of a
    /// node that stood there. The identifiers handed out later are greater
    /// than `id`.
    pub fn load_node(&mut self, id: i32, node: Node)
        requires
            old(self).wf(),
        ensures
            final(self).wf(),
            final(self).last_id() == raised_id(old(self).last_id(), id),
            final(self)@.nodes == old(self)@.nodes.insert(id, node@),
            final(self)@.edges == old(self)@.edges,
    {
        if id > self.max_node_id {
            self.max_node_id = id;
        }
        self.nodes.insert(id, node);
        proof {
            assert(self@.nodes =~= old(self)@.nodes.insert(id, node@));
            assert(self@.edges =~= old(self)@.edges);
        }
    }

    /// The node under `node_id`, if the graph holds one.
    pub fn get_node(&self, node_id: i32) -> (r: Option<&Node>)
        ensures
            match r {
                Some(node) => self@.nodes.contains_key(node_id) && node@ == self@.nodes[node_id],
                None => !self@.nodes.contains_key(node_id),
            },
    {
        self.nodes.get(&node_id)
    }

    /// The node under `node_id`, if the graph holds one, to be changed in
    /// place. Whatever the caller writes, the edges stay as they are.
    pub fn get_node_mut(&mut self, node_id: i32) -> (r: Option<&mut Node>)
        requires
            old(self).wf(),
        ensures
            final(self).wf(),
            final(self).last_id() == old(self).last_id(),
            final(self)@.edges =~= old(self)@.edges,
            match r {
                Some(node) => old(self)@.nodes.contains_key(node_id) && (*node)@ == old(
                    self,
                )@.nodes[node_id] && final(self)@.nodes =~= old(self)@.nodes.insert(
                    node_id,
                    (*final(node))@,
                ),
                None => !old(self)@.nodes.contains_key(node_id) && final(self)@.nodes =~= old(
                    self,
                )@.nodes,
            },
    {
        match self.nodes.entry(node_id) {
            Entry::Occupied(slot) => Some(slot.into_mut()),
            Entry::Vacant(_) => None,
        }
    }

    /// Connects `origin` to `destination` by an edge with the given labels.
    /// An edge that ran from `origin` to `destination` before is replaced.
    /// Fails, and changes nothing, if one of the two is no node of the graph.
    pub fn connect_nodes(&mut self, origin: i32, destination: i32, labels: Vec<String>) -> (r:
        Result<(), GraphError>)
        requires
            old(self).wf(),
        ensures
            final(self).wf(),
            final(self).last_id() == old(self).last_id(),
            final(self)@.nodes == old(self)@.nodes,
            match r {
                Ok(_) => {
                    &&& old(self)@.nodes.contains_key(origin)
                    &&& old(self)@.nodes.contains_key(destination)
                    &&& final(self)@ == old(self)@.connected(
                        origin,
                        destination,
                        label_texts(labels@),
                    )
                },
                Err(e) => {
                    &&& final(self)@.edges == old(self)@.edges
                    &&& !old(self)@.nodes.contains_key(origin) ==> e == (GraphError::NodeNotFound {
                        id: origin,
                    })
                    &&& old(self)@.nodes.contains_key(origin) ==> !old(self)@.nodes.contains_key(
                        destination,
                    ) && e == (GraphError::NodeNotFound { id: destination })
                },
            },
    {
        if !self.nodes.contains_key(&origin) {
            return Err(GraphError::NodeNotFound { id: origin });
        }
        if !self.nodes.contains_key(&destination) {
            return Err(GraphError::NodeNotFound { id: destination });
        }
        let edge = Edge { labels };
        self.edges.entry(origin).or_insert(HashMap::new()).insert(destination, edge);
        self.reverse_edges.entry(destination).or_insert(HashSet::new()).insert(origin);
        proof {
            assert forall|o: i32, d: i32|
                row_has(self.edges@, o, d) <==> row_has(old(self).edges@, o, d) || (o == origin && d
                    == destination) by {}
            assert forall|o: i32, d: i32|
                index_has(self.reverse_edges@, d, o) <==> index_has(old(self).reverse_edges@, d, o)
                    || (o == origin && d == destination) by {}
            assert(self@.nodes =~= old(self)@.nodes);
            assert(self@.edges =~= old(self)@.edges.insert(
                (origin, destination),
                label_texts(labels@),
            ));
        }
        Ok(())
    }

    /// Whether an edge runs from `origin` to `destination`. Fails if one of
    /// the two is no node of the graph.
    pub fn are_connected(&self, origin: i32, destination: i32) -> (r: Result<bool, GraphError>)
        ensures
            match r {
                Ok(connected) => {
                    &&& self@.nodes.contains_key(origin)
                    &&& self@.nodes.contains_key(destination)
                    &&& connected == self@.edges.contains_key((origin, destination))
                },
                Err(e) => {
                    &&& !self@.nodes.contains_key(origin) ==> e == (GraphError::NodeNotFound {
                        id: origin,
                    })
                    &&& self@.nodes.contains_key(origin) ==> !self@.nodes.contains_key(destination)
                        && e == (GraphError::NodeNotFound { id: destination })
                },
            },
    {
        if !self.nodes.contains_key(&origin) {
            return Err(GraphError::NodeNotFound { id: origin });
        }
        if !self.nodes.contains_key(&destination) {
            return Err(GraphError::NodeNotFound { id: destination });
        }
        match self.edges.get(&origin) {
            Some(row) => Ok(row.contains_key(&destination)),
            None => Ok(false),
        }
    }

    /// Takes the edge from `origin` to `destination` out of the forward
    /// table, and the row of `origin` with it when it was the last one there.
    fn drop_edge(&mut self, origin: i32, destination: i32)
        ensures
            final(self).nodes@ == old(self).nodes@,
            final(self).reverse_edges@ == old(self).reverse_edges@,
            final(self).max_node_id == old(self).max_node_id,
            rows_filled(old(self).nodes@, old(self).edges@) ==> rows_filled(
                final(self).nodes@,
                final(self).edges@,
            ),
            labels_kept(final(self).edges@, old(self).edges@),
            forall|o: i32, d: i32|
                row_has(final(self).edges@, o, d) <==> row_has(old(self).edges@, o, d) && !(o
                    == origin && d == destination),
    {
        if let Some(row) = self.edges.remove(&origin) {
            let mut row = row;
            row.remove(&destination);
            if !row.is_empty() {
                self.edges.insert(origin, row);
            }
        }
    }

    /// Takes `origin` out of what the predecessor index holds for
    /// `destination`.
    fn drop_pred(&mut self, destination: i32, origin: i32)
        ensures
            final(self).nodes@ == old(self).nodes@,
            final(self).edges@ == old(self).edges@,
            final(self).max_node_id == old(self).max_node_id,
            final(self).reverse_edges@.dom() == old(self).reverse_edges@.dom(),
            forall|d: i32, o: i32|
                index_has(final(self).reverse_edges@, d, o) <==> index_has(
                    old(self).reverse_edges@,
                    d,
                    o,
                ) && !(d == destination && o == origin),
    {
        if let Some(set) = self.reverse_edges.remove(&destination) {
            let mut set = set;
            set.remove(&origin);
            self.reverse_edges.insert(destination, set);
        }
        assert(self.reverse_edges@.dom() =~= old(self).reverse_edges@.dom());
    }

    /// Takes out every edge that leads to `node_id`, and what the
    /// predecessor index holds for `node_id`.
    fn drop_incoming(&mut self, node_id: i32)
        requires
            old(self).wf(),
        ensures
            final(self).nodes@ == old(self).nodes@,
            final(self).max_node_id == old(self).max_node_id,
            final(self).reverse_edges@ == old(self).reverse_edges@.remove(node_id),
            rows_filled(final(self).nodes@, final(self).edges@),
            labels_kept(final(self).edges@, old(self).edges@),
            tables_agree(final(self).edges@, final(self).reverse_edges@),
            forall|o: i32, d: i32|
                row_has(final(self).edges@, o, d) <==> row_has(old(self).edges@, o, d) && d
                    != node_id,
    {
        let incoming = self.reverse_edges.remove(&node_id);
        if let Some(origins) = incoming {
            for origin in it: origins.iter()
                invariant
                    it.seq().unref().to_set() == origins@,
                    old(self).wf(),
                    old(self).reverse_edges@.contains_key(node_id),
                    origins@ == old(self).reverse_edges@[node_id]@,
                    self.nodes@ == old(self).nodes@,
                    self.max_node_id == old(self).max_node_id,
                    self.reverse_edges@ == old(self).reverse_edges@.remove(node_id),
                    rows_filled(self.nodes@, self.edges@),
                    labels_kept(self.edges@, old(self).edges@),
                    forall|o: i32, d: i32|
                        row_has(self.edges@, o, d) <==> row_has(old(self).edges@, o, d) && !(d
                            == node_id && among(it.seq(), it.index(), o)),
            {
                let ghost at = it.index();
                self.drop_edge(*origin, node_id);
                proof {
                    assert forall|o: i32, d: i32|
                        row_has(self.edges@, o, d) <==> row_has(old(self).edges@, o, d) && !(d
                            == node_id && among(it.seq(), at + 1, o)) by {
                        lemma_among_next(it.seq(), at, o);
                    }
                }
            }
            proof {
                assert forall|o: i32, d: i32|
                    row_has(self.edges@, o, d) <==> row_has(old(self).edges@, o, d) && d
                        != node_id by {
                    if row_has(old(self).edges@, o, d) && d == node_id {
                        assert(index_has(old(self).reverse_edges@, d, o));
                        assert(origins@.contains(o));
                    }
                }
            }
        }
    }

    /// Takes out every edge that starts at `node_id`, in the forward table
    /// and in the predecessor index.
    fn drop_outgoing(&mut self, node_id: i32)
        requires
            tables_agree(old(self).edges@, old(self).reverse_edges@),
        ensures
            final(self).nodes@ == old(self).nodes@,
            final(self).max_node_id == old(self).max_node_id,
            final(self).edges@ == old(self).edges@.remove(node_id),
            final(self).reverse_edges@.dom() == old(self).reverse_edges@.dom(),
            tables_agree(final(self).edges@, final(self).reverse_edges@),
    {
        let outgoing = self.edges.remove(&node_id);
        if let Some(row) = outgoing {
            for destination in it: row.keys()
                invariant
                    it.seq().unref().to_set() == row@.dom(),
                    self.nodes@ == old(self).nodes@,
                    self.max_node_id == old(self).max_node_id,
                    self.edges@ == old(self).edges@.remove(node_id),
                    self.reverse_edges@.dom() == old(self).reverse_edges@.dom(),
                    tables_agree(old(self).edges@, old(self).reverse_edges@),
                    forall|d: i32| #[trigger]
                        row@.contains_key(d) <==> row_has(old(self).edges@, node_id, d),
                    forall|d: i32, o: i32|
                        index_has(self.reverse_edges@, d, o) <==> index_has(
                            old(self).reverse_edges@,
                            d,
                            o,
                        ) && !(o == node_id && among(it.seq(), it.index(), d)),
            {
                let ghost at = it.index();
                self.drop_pred(*destination, node_id);
                proof {
                    assert forall|d: i32, o: i32|
                        index_has(self.reverse_edges@, d, o) <==> index_has(
                            old(self).reverse_edges@,
                            d,
                            o,
                        ) && !(o == node_id && among(it.seq(), at + 1, d)) by {
                        lemma_among_next(it.seq(), at, d);
                    }
                }
            }
            proof {
                assert forall|d: i32, o: i32|
                    index_has(self.reverse_edges@, d, o) <==> index_has(
                        old(self).reverse_edges@,
                        d,
                        o,
                    ) && o != node_id by {
                    if index_has(old(self).reverse_edges@, d, o) && o == node_id {
                        assert(row_has(old(self).edges@, node_id, d));
                        assert(row@.dom().contains(d));
                    }
                }
            }
        } else {
            proof {
                assert forall|d: i32, o: i32|
                    index_has(self.reverse_edges@, d, o) <==> index_has(
                        old(self).reverse_edges@,
                        d,
                        o,
                    ) && o != node_id by {
                    if index_has(old(self).reverse_edges@, d, o) && o == node_id {
                        assert(row_has(old(self).edges@, node_id, d));
                    }
                }
            }
        }
    }

    /// Removes the node `node_id` and every edge that starts or ends there.
    /// Fails, and changes nothing, if it is no node of the graph.
    pub fn remove_node(&mut self, node_id: i32) -> (r: Result<(), GraphError>)
        requires
            old(self).wf(),
        ensures
            final(self).wf(),
            final(self).last_id() == old(self).last_id(),
            match r {
                Ok(_) => old(self)@.nodes.contains_key(node_id) && final(self)@ == old(
                    self,
                )@.without_node(node_id),
                Err(e) => !old(self)@.nodes.contains_key(node_id) && final(self)@ == old(self)@
                    && e == (GraphError::NodeNotFound { id: node_id }),
            },
    {
        if !self.nodes.contains_key(&node_id) {
            return Err(GraphError::NodeNotFound { id: node_id });
        }
        self.drop_incoming(node_id);
        let ghost middle = *self;
        self.drop_outgoing(node_id);
        proof {
            assert forall|o: i32, d: i32|
                row_has(self.edges@, o, d) <==> row_has(old(self).edges@, o, d) && o != node_id
                    && d != node_id by {
                assert(row_has(self.edges@, o, d) <==> row_has(middle.edges@, o, d) && o
                    != node_id);
            }
            assert forall|o: i32, d: i32| #[trigger]
                row_has(self.edges@, o, d) implies self.edges@[o]@[d] == old(
                self,
            ).edges@[o]@[d] by {
                assert(row_has(middle.edges@, o, d));
            }
        }
        self.nodes.remove(&node_id);
        proof {
            assert(self@.nodes =~= old(self)@.without_node(node_id).nodes);
            assert(self@.edges =~= old(self)@.without_node(node_id).edges);
        }
        Ok(())
    }

    /// The edge from `origin` to `destination`, if there is one.
    pub fn get_edge(&self, origin: i32, destination: i32) -> (r: Option<&Edge>)
        ensures
            match r {
                Some(edge) => self@.edges.contains_key((origin, destination)) && edge@
                    == self@.edges[(origin, destination)],
                None => !self@.edges.contains_key((origin, destination)),
            },
    {
        match self.edges.get(&origin) {
            Some(row) => row.get(&destination),
            None => None,
        }
    }

    /// The identifiers of the nodes, each once, in no particular order.
    pub fn node_ids(&self) -> (ids: Vec<i32>)
        ensures
            ids@.no_duplicates(),
            forall|id: i32| ids@.contains(id) <==> self@.nodes.contains_key(id),
    {
        keys_of(&self.nodes)
    }

    /// The nodes from which an edge starts, each once, in no particular
    /// order.
    pub fn origins(&self) -> (ids: Vec<i32>)
        requires
            self.wf(),
        ensures
            ids@.no_duplicates(),
            forall|o: i32| ids@.contains(o) <==> exists|d: i32| self@.edges.contains_key((o, d)),
    {
        let ids = keys_of(&self.edges);
        proof {
            assert forall|o: i32| ids@.contains(o) <==> exists|d: i32|
                self@.edges.contains_key((o, d)) by {
                if ids@.contains(o) {
                    let row = self.edges@[o]@;
                    assert(row.dom().finite());
                    assert(row.dom().len() > 0);
                    let d = row.dom().choose();
                    assert(row_has(self.edges@, o, d));
                    assert(self@.edges.contains_key((o, d)));
                }
            }
        }
        ids
    }

    /// The nodes to which an edge from `origin` leads, each once, in no
    /// particular order.
    pub fn successors(&self, origin: i32) -> (ids: Vec<i32>)
        ensures
            ids@.no_duplicates(),
            forall|d: i32| ids@.contains(d) <==> self@.edges.contains_key((origin, d)),
    {
        match self.edges.get(&origin) {
            Some(row) => keys_of(row),
            None => Vec::new(),
        }
    }

    /// What the predecessor index holds for `destination`, each node once,
    /// in no particular order.
    pub fn predecessors_of(&self, destination: i32) -> (ids: Vec<i32>)
        ensures
            ids@.no_duplicates(),
            forall|o: i32| ids@.contains(o) <==> self.predecessors(destination).contains(o),
    {
        match self.reverse_edges.get(&destination) {
            Some(set) => {
                let mut ids: Vec<i32> = Vec::new();
                let ghost refs = set.iter().remaining();
                proof {
                    lemma_unref_distinct(refs);
                }
                for id in it: set.iter()
                    invariant
                        it.seq() == refs,
                        ids@ == refs.unref().take(it.index()),
                {
                    ids.push(*id);
                    assert(ids@ =~= refs.unref().take(it.index() + 1));
                }
                assert(ids@ =~= refs.unref());
                ids
            },
            None => Vec::new(),
        }
    }
}

/// References to different values are different values.
proof fn lemma_unref_distinct(refs: Seq<&i32>)
    requires
        refs.no_duplicates(),
    ensures
        refs.unref().no_duplicates(),
{
    let all = refs.unref();
    assert forall|i: int, j: int| 0 <= i < all.len() && 0 <= j < all.len() && i != j implies all[i]
        != all[j] by {
        assert(refs[i] != refs[j]);
    }
}

/// The keys of a table, each once, in no particular order.
fn keys_of<V>(table: &HashMap<i32, V>) -> (ids: Vec<i32>)
    ensures
        ids@.no_duplicates(),
        forall|id: i32| ids@.contains(id) <==> table@.contains_key(id),
{
    let mut ids: Vec<i32> = Vec::new();
    let ghost refs = table.keys().remaining();
    proof {
        lemma_unref_distinct(refs);
    }
    for id in it: table.keys()
        invariant
            it.seq() == refs,
            ids@ == refs.unref().take(it.index()),
    {
        ids.push(*id);
        assert(ids@ =~= refs.unref().take(it.index() + 1));
    }
    assert(ids@ =~= refs.unref());
    ids
}

impl PartialEq for Node {
    /// Whether two nodes have the same identifier and the same properties.
    fn eq(&self, other: &Node) -> (r: bool) {
        self.id == other.id && self.props == other.props
    }
}

impl PartialEqSpecImpl for Node {
    open spec fn obeys_eq_spec() -> bool {
        true
    }

    open spec fn eq_spec(&self, other: &Node) -> bool {
        self@ == other@
    }
}

impl PartialEq for Edge {
    /// Whether two edges have the same labels in the same order.
    fn eq(&self, other: &Edge) -> (r: bool) {
        if self.labels.len() != other.labels.len() {
            assert(self@.len() != other@.len());
            return false;
        }
        let mut i: usize = 0;
        while i < self.labels.len()
            invariant
                self.labels@.len() == other.labels@.len(),
                i <= self.labels@.len(),
                forall|j: int| 0 <= j < i ==> (#[trigger] self@[j]) == other@[j],
            decreases self.labels@.len() - i,
        {
            if !(self.labels[i] == other.labels[i]) {
                assert(self@[i as int] != other@[i as int]);
                return false;
            }
            i = i + 1;
        }
        assert(self@ =~= other@);
        true
    }
}

impl PartialEqSpecImpl for Edge {
    open spec fn obeys_eq_spec() -> bool {
        true
    }

    open spec fn eq_spec(&self, other: &Edge) -> bool {
        self@ == other@
    }
}

/// Whether `b` holds every node of `a`, with the same content.
fn nodes_within(a: &Graph, b: &Graph) -> (r: bool)
    ensures
        r <==> forall|id: i32| #[trigger]
            a@.nodes.contains_key(id) ==> b@.nodes.contains_key(id) && b@.nodes[id] == a@.nodes[id],
{
    let ids = a.node_ids();
    let mut i: usize = 0;
    while i < ids.len()
        invariant
            i <= ids@.len(),
            forall|id: i32| ids@.contains(id) <==> a@.nodes.contains_key(id),
            forall|k: int|
                0 <= k < i ==> b@.nodes.contains_key(#[trigger] ids@[k]) && b@.nodes[ids@[k]]
                    == a@.nodes[ids@[k]],
        decreases ids@.len() - i,
    {
        let id = ids[i];
        assert(ids@.contains(id));
        match (a.get_node(id), b.get_node(id)) {
            (Some(x), Some(y)) => {
                if !(x == y) {
                    return false;
                }
            },
            _ => {
                return false;
            },
        }
        i = i + 1;
    }
    proof {
        assert forall|id: i32| #[trigger] a@.nodes.contains_key(id) implies b@.nodes.contains_key(
            id,
        ) && b@.nodes[id] == a@.nodes[id] by {
            assert(ids@.contains(id));
            let k = choose|k: int| 0 <= k < ids@.len() && ids@[k] == id;
            assert(b@.nodes.contains_key(ids@[k]));
        }
    }
    true
}

/// Whether `b` holds every edge from `origin` that `a` holds, with the same
/// labels.
fn row_within(a: &Graph, b: &Graph, origin: i32) -> (r: bool)
    ensures
        r <==> forall|d: i32| #[trigger]
            a@.edges.contains_key((origin, d)) ==> b@.edges.contains_key((origin, d))
                && b@.edges[(origin, d)] == a@.edges[(origin, d)],
{
    let ids = a.successors(origin);
    let mut i: usize = 0;
    while i < ids.len()
        invariant
            i <= ids@.len(),
            forall|d: i32| ids@.contains(d) <==> a@.edges.contains_key((origin, d)),
            forall|k: int|
                0 <= k < i ==> b@.edges.contains_key((origin, #[trigger] ids@[k])) && b@.edges[(
                    origin,
                    ids@[k],
                )] == a@.edges[(origin, ids@[k])],
        decreases ids@.len() - i,
    {
        let d = ids[i];
        assert(ids@.contains(d));
        match (a.get_edge(origin, d), b.get_edge(origin, d)) {
            (Some(x), Some(y)) => {
                if !(x == y) {
                    return false;
                }
            },
            _ => {
                return false;
            },
        }
        i = i + 1;
    }
    proof {
        assert forall|d: i32| #[trigger]
            a@.edges.contains_key((origin, d)) implies b@.edges.contains_key((origin, d))
            && b@.edges[(origin, d)] == a@.edges[(origin, d)] by {
            assert(ids@.contains(d));
            let k = choose|k: int| 0 <= k < ids@.len() && ids@[k] == d;
            assert(b@.edges.contains_key((origin, ids@[k])));
        }
    }
    true
}

/// Whether `b` holds every edge of `a`, with the same labels.
fn edges_within(a: &Graph, b: &Graph) -> (r: bool)
    ensures
        r <==> forall|pair: (i32, i32)| #[trigger]
            a@.edges.contains_key(pair) ==> b@.edges.contains_key(pair) && b@.edges[pair]
                == a@.edges[pair],
{
    let ids = keys_of(&a.edges);
    let mut i: usize = 0;
    while i < ids.len()
        invariant
            i <= ids@.len(),
            forall|o: i32| ids@.contains(o) <==> a.edges@.contains_key(o),
            forall|k: int, d: i32|
                0 <= k < i && #[trigger] a@.edges.contains_key((#[trigger] ids@[k], d))
                    ==> b@.edges.contains_key((ids@[k], d)) && b@.edges[(ids@[k], d)] == a@.edges[(
                    ids@[k],
                    d,
                )],
        decreases ids@.len() - i,
    {
        if !row_within(a, b, ids[i]) {
            return false;
        }
        i = i + 1;
    }
    proof {
        assert forall|pair: (i32, i32)| #[trigger]
            a@.edges.contains_key(pair) implies b@.edges.contains_key(pair) && b@.edges[pair]
            == a@.edges[pair] by {
            assert(row_has(a.edges@, pair.0, pair.1));
            assert(ids@.contains(pair.0));
            let k = choose|k: int| 0 <= k < ids@.len() && ids@[k] == pair.0;
            assert(a@.edges.contains_key((ids@[k], pair.1)));
        }
    }
    true
}

impl PartialEq for Graph {
    /// Whether two graphs hold the same nodes and the same edges. The
    /// predecessor index and the identifiers handed out do not count.
    fn eq(&self, other: &Graph) -> (r: bool) {
        let r = nodes_within(self, other) && nodes_within(other, self) && edges_within(self, other)
            && edges_within(other, self);
        proof {
            if r {
                assert(self@.nodes =~= other@.nodes);
                assert(self@.edges =~= other@.edges);
            }
        }
        r
    }
}

impl PartialEqSpecImpl for Graph {
    open spec fn obeys_eq_spec() -> bool {
        true
    }

    open spec fn eq_spec(&self, other: &Graph) -> bool {
        self@ == other@
    }
}

/// An edge has a direction: connecting `origin` to `destination` makes an
/// edge from `origin` to `destination`, and leaves every other pair of nodes
/// as it was, the pair from `destination` to `origin` among them.
pub proof fn lemma_connect_directed(
    graph: GraphView,
    origin: i32,
    destination: i32,
    labels: Seq<Seq<char>>,
)
    ensures
        graph.connected(origin, destination, labels).edges.contains_key((origin, destination)),
        graph.connected(origin, destination, labels).edges[(origin, destination)] == labels,
        forall|o: i32, d: i32|
            (o, d) != (origin, destination) ==> (#[trigger] graph.connected(
                origin,
                destination,
                labels,
            ).edges.contains_key((o, d)) <==> graph.edges.contains_key((o, d))),
        origin != destination ==> (graph.connected(origin, destination, labels).edges.contains_key(
            (destination, origin),
        ) <==> graph.edges.contains_key((destination, origin))),
{
}

/// Removing a node removes it, every edge that starts there and every edge
/// that ends there, and nothing else.
pub proof fn lemma_remove_cascades(graph: GraphView, id: i32)
    ensures
        !graph.without_node(id).nodes.contains_key(id),
        forall|other: i32|
            other != id ==> (#[trigger] graph.without_node(id).nodes.contains_key(other)
                <==> graph.nodes.contains_key(other)),
        forall|other: i32|
            other != id && graph.nodes.contains_key(other) ==> #[trigger] graph.without_node(
                id,
            ).nodes[other] == graph.nodes[other],
        forall|o: i32| !#[trigger] graph.without_node(id).edges.contains_key((o, id)),
        forall|d: i32| !#[trigger] graph.without_node(id).edges.contains_key((id, d)),
        forall|o: i32, d: i32|
            o != id && d != id ==> (#[trigger] graph.without_node(id).edges.contains_key((o, d))
                <==> graph.edges.contains_key((o, d))),
        forall|o: i32, d: i32|
            o != id && d != id && graph.edges.contains_key((o, d)) ==> #[trigger] graph
                .without_node(id).edges[(o, d)] == graph.edges[(o, d)],
        graph.valid() ==> graph.without_node(id).valid(),
{
}

/// What `add_node` does: `after` is `before` with one more node, without
/// properties, under `id`, the identifier one above the last one of
/// `before`.
pub open spec fn added(before: Graph, after: Graph, id: i32) -> bool {
    &&& id == before.last_id() + 1
    &&& after.last_id() == id
    &&& after@.nodes == before@.nodes.insert(id, NodeView { id, props: Map::empty() })
    &&& after@.edges == before@.edges
}

/// The states of a graph in the course of its use, one after each
/// operation: all are well formed, and the last identifier never falls from
/// one to the next, as every operation of the graph ensures.
pub open spec fn is_run(states: Seq<Graph>) -> bool {
    &&& forall|k: int| 0 <= k < states.len() ==> (#[trigger] states[k]).wf()
    &&& forall|k: int|
        0 <= k < states.len() - 1 ==> (#[trigger] states[k]).last_id() <= states[k + 1].last_id()
}

/// In a run the last identifier of a later state is not below that of an
/// earlier one.
pub proof fn lemma_last_id_rises(states: Seq<Graph>, from: int, to: int)
    requires
        is_run(states),
        0 <= from <= to < states.len(),
    ensures
        states[from].last_id() <= states[to].last_id(),
    decreases to - from,
{
    if from < to {
        lemma_last_id_rises(states, from, to - 1);
        assert(states[to - 1].last_id() <= states[to - 1 + 1].last_id());
    }
}

/// Identifiers rise: of two nodes added in the course of a run, whatever
/// was done in between, the later one gets the greater identifier. That
/// identifier is positive, and it was the identifier of no node in any
/// state before, so not of a node that has been removed since either.
pub proof fn lemma_ids_rise(states: Seq<Graph>, i: int, first: i32, j: int, second: i32)
    requires
        is_run(states),
        0 <= i < j < states.len() - 1,
        added(states[i], states[i + 1], first),
        added(states[j], states[j + 1], second),
    ensures
        1 <= first < second,
        forall|k: int| 0 <= k <= j ==> !(#[trigger] states[k])@.nodes.contains_key(second),
{
    lemma_last_id_rises(states, i + 1, j);
    states[i].lemma_ids_below_last();
    assert forall|k: int| 0 <= k <= j implies !(#[trigger] states[k])@.nodes.contains_key(
        second,
    ) by {
        lemma_last_id_rises(states, k, j);
        states[k].lemma_ids_below_last();
    }
}

} // verus!
