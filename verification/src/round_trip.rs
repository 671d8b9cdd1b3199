//! The tree that a graph writes is read as that graph again.

use crate::decode::{
    all_string_items, connect_all, lookup, read_edge_list, read_edges, read_graph, read_labels,
    read_node, read_node_list, read_nodes, read_props, read_row, read_row_list, string_pairs,
    Triple,
};
use crate::encode::{
    by_decimal, edge_tree, edges_tree, graph_tree, label_trees, lemma_by_decimal_insert,
    node_tree, node_trees, nodes_tree, origin_trees, props_tree, row_tree, row_trees,
    string_trees,
};
use crate::decimal::{decimal, lemma_decimal_round_trip, parsed_id};
use crate::error::{GraphError, ParseReason};
use crate::graph::{GraphView, NodeView};
use crate::pairs::{
    holds_key, lemma_rising_distinct, lemma_rising_list_exists, lemma_to_map_all, rising_list,
    to_map,
};
use crate::tree::TreeView;
use vstd::prelude::*;

verus! {

/// The properties that a node writes are read as they are.
pub proof fn lemma_props_round_trip(props: Map<Seq<char>, Seq<char>>)
    requires
        props.dom().finite(),
    ensures
        read_props(props_tree(props)) == Ok::<Map<Seq<char>, Seq<char>>, ParseReason>(props),
{
    let table = string_trees(props);
    assert(table.dom() =~= props.dom());
    lemma_rising_list_exists(table);
    let list = rising_list(table);
    lemma_rising_distinct(list);
    lemma_to_map_all(list);
    assert forall|i: int| 0 <= i < list.len() implies (#[trigger] list[i]).1 is String by {
        assert(table.contains_key(list[i].0));
    }
    let pairs = string_pairs(list);
    assert forall|i: int, j: int|
        0 <= i < pairs.len() && 0 <= j < pairs.len() && i != j implies (#[trigger] pairs[i]).0
        != (#[trigger] pairs[j]).0 by {
        assert(pairs[i].0 == list[i].0 && pairs[j].0 == list[j].0);
    }
    lemma_to_map_all(pairs);
    assert forall|key: Seq<char>| to_map(pairs).contains_key(key) implies props.contains_key(key)
        && props[key] == to_map(pairs)[key] by {
        assert(holds_key(pairs, key));
        let i = choose|i: int| 0 <= i < pairs.len() && (#[trigger] pairs[i]).0 == key;
        assert(list[i].0 == key);
        assert(table.contains_key(list[i].0));
    }
    assert forall|key: Seq<char>| props.contains_key(key) implies to_map(pairs).contains_key(
        key,
    ) by {
        assert(table.contains_key(key));
        assert(holds_key(list, key));
        let i = choose|i: int| 0 <= i < list.len() && (#[trigger] list[i]).0 == key;
        assert(pairs[i].0 == key);
    }
    assert(to_map(pairs) =~= props);
}

/// The tree that a node writes is read as that node.
pub proof fn lemma_node_round_trip(node: NodeView)
    requires
        node.props.dom().finite(),
    ensures
        read_node(node_tree(node)) == Ok::<NodeView, ParseReason>(node),
{
    reveal_strlit("id");
    reveal_strlit("props");
    reveal_with_fuel(lookup, 3);
    let members = seq![("id"@, TreeView::I64(node.id as i64)), ("props"@, props_tree(node.props))];
    assert("id"@.len() != "props"@.len());
    assert(members.last() == ("props"@, props_tree(node.props)));
    assert(members.drop_last() =~= seq![("id"@, TreeView::I64(node.id as i64))]);
    assert(members.drop_last().last() == ("id"@, TreeView::I64(node.id as i64)));
    assert(lookup(members, "props"@) == Some(props_tree(node.props)));
    assert(lookup(members, "id"@) == Some(TreeView::I64(node.id as i64)));
    lemma_props_round_trip(node.props);
}

/// The tree that an edge writes is read as the labels of that edge.
pub proof fn lemma_labels_round_trip(labels: Seq<Seq<char>>)
    ensures
        read_labels(edge_tree(labels)) == Ok::<Seq<Seq<char>>, ParseReason>(labels),
{
    reveal_with_fuel(lookup, 2);
    let items = label_trees(labels);
    let members = seq![("labels"@, TreeView::Array(items))];
    assert(members.last() == ("labels"@, TreeView::Array(items)));
    assert(lookup(members, "labels"@) == Some(TreeView::Array(items)));
    assert(all_string_items(items));
    assert(Seq::new(items.len(), |i: int| items[i]->String_0) =~= labels);
}

/// A finite table is a finite table under the decimal texts of its keys.
pub proof fn lemma_by_decimal_finite<T>(table: Map<i32, T>)
    requires
        table.dom().finite(),
    ensures
        by_decimal(table).dom().finite(),
    decreases table.dom().len(),
{
    if table.dom().len() == 0 {
        assert(table.dom() =~= Set::<i32>::empty());
        assert(by_decimal(table).dom() =~= Set::<Seq<char>>::empty());
    } else {
        let id = table.dom().choose();
        let rest = table.remove(id);
        lemma_by_decimal_finite(rest);
        lemma_by_decimal_insert(rest, id, table[id]);
        assert(rest.insert(id, table[id]) =~= table);
    }
}

/// What a table holds under the decimal text of an identifier, it holds
/// for that identifier.
pub proof fn lemma_by_decimal_at<T>(table: Map<i32, T>, id: i32)
    ensures
        by_decimal(table).contains_key(decimal(id as int)) <==> table.contains_key(id),
        table.contains_key(id) ==> by_decimal(table)[decimal(id as int)] == table[id],
{
    lemma_decimal_round_trip(id as int);
}

/// The nodes of `nodes` that a list of members names.
pub open spec fn named_nodes(list: Seq<(Seq<char>, TreeView)>, nodes: Map<i32, NodeView>) -> Map<
    i32,
    NodeView,
> {
    Map::new(
        |id: i32| exists|i: int| 0 <= i < list.len() && parsed_id(#[trigger] list[i].0) == Some(id),
        |id: i32| nodes[id],
    )
}

/// Every member of the list stands under the text of a node of `nodes`, and
/// is read as that node.
pub open spec fn writes_nodes(list: Seq<(Seq<char>, TreeView)>, nodes: Map<i32, NodeView>) -> bool {
    forall|i: int|
        0 <= i < list.len() ==> parsed_id(#[trigger] list[i].0) is Some && nodes.contains_key(
            parsed_id(list[i].0).unwrap(),
        ) && read_node(list[i].1) == Ok::<NodeView, ParseReason>(
            nodes[parsed_id(list[i].0).unwrap()],
        )
}

/// A list of members that are read as nodes of `nodes` is read as the nodes
/// that it names.
pub proof fn lemma_node_list(list: Seq<(Seq<char>, TreeView)>, nodes: Map<i32, NodeView>)
    requires
        writes_nodes(list, nodes),
    ensures
        read_node_list(list) == Ok::<Map<i32, NodeView>, ParseReason>(named_nodes(list, nodes)),
    decreases list.len(),
{
    if list.len() == 0 {
        assert(named_nodes(list, nodes) =~= Map::<i32, NodeView>::empty());
    } else {
        let head = list.drop_last();
        let last = list.len() - 1;
        assert forall|i: int| 0 <= i < head.len() implies parsed_id(#[trigger] head[i].0) is Some
            && nodes.contains_key(parsed_id(head[i].0).unwrap()) && read_node(head[i].1) == Ok::<
            NodeView,
            ParseReason,
        >(nodes[parsed_id(head[i].0).unwrap()]) by {
            assert(head[i] == list[i]);
        }
        lemma_node_list(head, nodes);
        assert(parsed_id(list[last].0) is Some);
        let id = parsed_id(list[last].0).unwrap();
        let want = named_nodes(head, nodes).insert(id, nodes[id]);
        let got = named_nodes(list, nodes);
        assert forall|other: i32| got.contains_key(other) <==> want.contains_key(other) by {
            if got.contains_key(other) {
                let i = choose|i: int|
                    0 <= i < list.len() && parsed_id(#[trigger] list[i].0) == Some(other);
                if i < last {
                    assert(head[i] == list[i]);
                    assert(parsed_id(head[i].0) == Some(other));
                }
            }
            if want.contains_key(other) {
                if other == id {
                    assert(parsed_id(list[last].0) == Some(other));
                } else {
                    let i = choose|i: int|
                        0 <= i < head.len() && parsed_id(#[trigger] head[i].0) == Some(other);
                    assert(head[i] == list[i]);
                    assert(parsed_id(list[i].0) == Some(other));
                }
            }
        }
        assert(got =~= want);
    }
}

/// The tree that the nodes of a graph write is read as these nodes.
pub proof fn lemma_nodes_round_trip(nodes: Map<i32, NodeView>)
    requires
        nodes.dom().finite(),
        forall|id: i32| #[trigger] nodes.contains_key(id) ==> nodes[id].props.dom().finite(),
    ensures
        read_nodes(nodes_tree(nodes)) == Ok::<Map<i32, NodeView>, ParseReason>(nodes),
{
    let trees = node_trees(nodes);
    assert(trees.dom() =~= nodes.dom());
    let table = by_decimal(trees);
    lemma_by_decimal_finite(trees);
    lemma_rising_list_exists(table);
    let list = rising_list(table);
    lemma_rising_distinct(list);
    lemma_to_map_all(list);
    assert forall|i: int| 0 <= i < list.len() implies parsed_id(#[trigger] list[i].0) is Some
        && nodes.contains_key(parsed_id(list[i].0).unwrap()) && read_node(list[i].1) == Ok::<
        NodeView,
        ParseReason,
    >(nodes[parsed_id(list[i].0).unwrap()]) by {
        assert(table.contains_key(list[i].0));
        let id = parsed_id(list[i].0).unwrap();
        assert(list[i].1 == node_tree(nodes[id]));
        lemma_node_round_trip(nodes[id]);
    }
    lemma_node_list(list, nodes);
    let got = named_nodes(list, nodes);
    assert forall|id: i32| got.contains_key(id) <==> nodes.contains_key(id) by {
        if got.contains_key(id) {
            let i = choose|i: int|
                0 <= i < list.len() && parsed_id(#[trigger] list[i].0) == Some(id);
            assert(table.contains_key(list[i].0));
        }
        if nodes.contains_key(id) {
            lemma_by_decimal_at(trees, id);
            assert(holds_key(list, decimal(id as int)));
            let i = choose|i: int|
                0 <= i < list.len() && (#[trigger] list[i]).0 == decimal(id as int);
            lemma_decimal_round_trip(id as int);
            assert(parsed_id(list[i].0) == Some(id));
        }
    }
    assert(got =~= nodes);
}

/// The edges of `edges` from `origin` that a list of members names, in the
/// order of the list.
pub open spec fn named_row(
    origin: i32,
    list: Seq<(Seq<char>, TreeView)>,
    edges: Map<(i32, i32), Seq<Seq<char>>>,
) -> Seq<Triple> {
    Seq::new(
        list.len(),
        |j: int|
            (
                origin,
                parsed_id(list[j].0).unwrap(),
                edges[(origin, parsed_id(list[j].0).unwrap())],
            ),
    )
}

/// Every member of the list stands under the text of a destination of an
/// edge from `origin`, and is read as the labels of that edge.
pub open spec fn writes_row(
    origin: i32,
    list: Seq<(Seq<char>, TreeView)>,
    edges: Map<(i32, i32), Seq<Seq<char>>>,
) -> bool {
    forall|j: int|
        0 <= j < list.len() ==> parsed_id(#[trigger] list[j].0) is Some && edges.contains_key(
            (origin, parsed_id(list[j].0).unwrap()),
        ) && read_labels(list[j].1) == Ok::<Seq<Seq<char>>, ParseReason>(
            edges[(origin, parsed_id(list[j].0).unwrap())],
        )
}

/// A list of members that are read as edges from `origin` is read as the
/// edges that it names.
pub proof fn lemma_row_list(
    origin: i32,
    list: Seq<(Seq<char>, TreeView)>,
    edges: Map<(i32, i32), Seq<Seq<char>>>,
)
    requires
        writes_row(origin, list, edges),
    ensures
        read_row_list(origin, list) == Ok::<Seq<Triple>, ParseReason>(
            named_row(origin, list, edges),
        ),
    decreases list.len(),
{
    if list.len() == 0 {
        assert(named_row(origin, list, edges) =~= Seq::<Triple>::empty());
    } else {
        let head = list.drop_last();
        let last = list.len() - 1;
        assert forall|j: int| 0 <= j < head.len() implies parsed_id(#[trigger] head[j].0) is Some
            && edges.contains_key((origin, parsed_id(head[j].0).unwrap())) && read_labels(
            head[j].1,
        ) == Ok::<Seq<Seq<char>>, ParseReason>(
            edges[(origin, parsed_id(head[j].0).unwrap())],
        ) by {
            assert(head[j] == list[j]);
        }
        lemma_row_list(origin, head, edges);
        assert(parsed_id(list[last].0) is Some);
        let d = parsed_id(list[last].0).unwrap();
        assert(named_row(origin, list, edges) =~= named_row(origin, head, edges).push(
            (origin, d, edges[(origin, d)]),
        ));
    }
}

/// Each of the triples is an edge of `edges`.
pub open spec fn all_edges_of(
    triples: Seq<Triple>,
    edges: Map<(i32, i32), Seq<Seq<char>>>,
) -> bool {
    forall|i: int|
        0 <= i < triples.len() ==> edges.contains_key(
            ((#[trigger] triples[i]).0, triples[i].1),
        ) && edges[(triples[i].0, triples[i].1)] == triples[i].2
}

/// Each edge of `edges` from `origin` is one of the triples.
pub open spec fn holds_row(
    triples: Seq<Triple>,
    edges: Map<(i32, i32), Seq<Seq<char>>>,
    origin: i32,
) -> bool {
    forall|d: i32| #[trigger]
        edges.contains_key((origin, d)) ==> triples.contains((origin, d, edges[(origin, d)]))
}

/// The tree that the edges from a node write is read as these edges.
pub proof fn lemma_row_round_trip(graph: GraphView, origin: i32)
    requires
        graph.valid(),
    ensures
        read_row(origin, row_tree(graph.edges, origin)) matches Ok(triples) && all_edges_of(
            triples,
            graph.edges,
        ) && holds_row(triples, graph.edges, origin),
{
    let edges = graph.edges;
    let trees = row_trees(edges, origin);
    assert(trees.dom().subset_of(graph.nodes.dom()));
    vstd::set_lib::lemma_len_subset(trees.dom(), graph.nodes.dom());
    let table = by_decimal(trees);
    lemma_by_decimal_finite(trees);
    lemma_rising_list_exists(table);
    let list = rising_list(table);
    lemma_rising_distinct(list);
    lemma_to_map_all(list);
    assert forall|j: int| 0 <= j < list.len() implies parsed_id(#[trigger] list[j].0) is Some
        && edges.contains_key((origin, parsed_id(list[j].0).unwrap())) && read_labels(list[j].1)
        == Ok::<Seq<Seq<char>>, ParseReason>(
        edges[(origin, parsed_id(list[j].0).unwrap())],
    ) by {
        assert(table.contains_key(list[j].0));
        let d = parsed_id(list[j].0).unwrap();
        assert(list[j].1 == edge_tree(edges[(origin, d)]));
        lemma_labels_round_trip(edges[(origin, d)]);
    }
    lemma_row_list(origin, list, edges);
    let triples = named_row(origin, list, edges);
    assert forall|d: i32| #[trigger] edges.contains_key((origin, d)) implies triples.contains(
        (origin, d, edges[(origin, d)]),
    ) by {
        lemma_by_decimal_at(trees, d);
        assert(holds_key(list, decimal(d as int)));
        let j = choose|j: int| 0 <= j < list.len() && (#[trigger] list[j]).0 == decimal(d as int);
        lemma_decimal_round_trip(d as int);
        assert(triples[j] == (origin, d, edges[(origin, d)]));
    }
}

/// Every member of the list stands under the text of a node, and is the
/// tree of the edges from that node.
pub open spec fn writes_rows(list: Seq<(Seq<char>, TreeView)>, graph: GraphView) -> bool {
    forall|i: int|
        0 <= i < list.len() ==> parsed_id(#[trigger] list[i].0) is Some && list[i].1 == row_tree(
            graph.edges,
            parsed_id(list[i].0).unwrap(),
        )
}

/// A list of the trees of the edges from some nodes is read as these edges.
pub proof fn lemma_edge_list(list: Seq<(Seq<char>, TreeView)>, graph: GraphView)
    requires
        graph.valid(),
        writes_rows(list, graph),
    ensures
        read_edge_list(list) matches Ok(triples) && all_edges_of(triples, graph.edges) && forall|
            i: int,
        |
            0 <= i < list.len() ==> holds_row(
                triples,
                graph.edges,
                parsed_id(#[trigger] list[i].0).unwrap(),
            ),
    decreases list.len(),
{
    if list.len() > 0 {
        let head = list.drop_last();
        let last = list.len() - 1;
        assert forall|i: int| 0 <= i < head.len() implies parsed_id(#[trigger] head[i].0) is Some
            && head[i].1 == row_tree(graph.edges, parsed_id(head[i].0).unwrap()) by {
            assert(head[i] == list[i]);
        }
        lemma_edge_list(head, graph);
        assert(parsed_id(list[last].0) is Some);
        let origin = parsed_id(list[last].0).unwrap();
        lemma_row_round_trip(graph, origin);
        let first = read_edge_list(head)->Ok_0;
        let more = read_row(origin, list[last].1)->Ok_0;
        let triples = first + more;
        assert(read_edge_list(list) == Ok::<Seq<Triple>, ParseReason>(triples));
        assert forall|k: int| 0 <= k < triples.len() implies graph.edges.contains_key(
            ((#[trigger] triples[k]).0, triples[k].1),
        ) && graph.edges[(triples[k].0, triples[k].1)] == triples[k].2 by {
            if k < first.len() {
                assert(triples[k] == first[k]);
            } else {
                assert(triples[k] == more[k - first.len()]);
            }
        }
        assert forall|i: int| 0 <= i < list.len() implies holds_row(
            triples,
            graph.edges,
            parsed_id(#[trigger] list[i].0).unwrap(),
        ) by {
            let o = parsed_id(list[i].0).unwrap();
            assert forall|d: i32| #[trigger]
                graph.edges.contains_key((o, d)) implies triples.contains(
                (o, d, graph.edges[(o, d)]),
            ) by {
                let t = (o, d, graph.edges[(o, d)]);
                if i < last {
                    assert(head[i] == list[i]);
                    assert(holds_row(first, graph.edges, parsed_id(head[i].0).unwrap()));
                    assert(first.contains(t));
                    let k = choose|k: int| 0 <= k < first.len() && first[k] == t;
                    assert(triples[k] == t);
                } else {
                    assert(more.contains(t));
                    let k = choose|k: int| 0 <= k < more.len() && more[k] == t;
                    assert(triples[first.len() + k] == t);
                }
            }
        }
    }
}

/// The table of the edges that the triples name.
pub open spec fn named_edges(triples: Seq<Triple>, edges: Map<(i32, i32), Seq<Seq<char>>>) -> Map<
    (i32, i32),
    Seq<Seq<char>>,
> {
    Map::new(
        |pair: (i32, i32)|
            exists|i: int|
                0 <= i < triples.len() && ((#[trigger] triples[i]).0, triples[i].1) == pair,
        |pair: (i32, i32)| edges[pair],
    )
}

/// Connecting edges of a graph in any order, and any of them more than
/// once, gives the edges that were connected.
pub proof fn lemma_connect_all(graph: GraphView, triples: Seq<Triple>)
    requires
        graph.valid(),
        all_edges_of(triples, graph.edges),
    ensures
        connect_all(graph.nodes, triples) == Ok::<Map<(i32, i32), Seq<Seq<char>>>, GraphError>(
            named_edges(triples, graph.edges),
        ),
    decreases triples.len(),
{
    if triples.len() == 0 {
        assert(named_edges(triples, graph.edges) =~= Map::<(i32, i32), Seq<Seq<char>>>::empty());
    } else {
        let head = triples.drop_last();
        let last = triples.len() - 1;
        assert forall|i: int| 0 <= i < head.len() implies graph.edges.contains_key(
            ((#[trigger] head[i]).0, head[i].1),
        ) && graph.edges[(head[i].0, head[i].1)] == head[i].2 by {
            assert(head[i] == triples[i]);
        }
        lemma_connect_all(graph, head);
        let t = triples[last];
        assert(graph.edges.contains_key((t.0, t.1)));
        let want = named_edges(head, graph.edges).insert((t.0, t.1), t.2);
        let got = named_edges(triples, graph.edges);
        assert forall|pair: (i32, i32)| got.contains_key(pair) <==> want.contains_key(pair) by {
            if got.contains_key(pair) {
                let i = choose|i: int|
                    0 <= i < triples.len() && ((#[trigger] triples[i]).0, triples[i].1) == pair;
                if i < last {
                    assert(head[i] == triples[i]);
                    assert((head[i].0, head[i].1) == pair);
                }
            }
            if want.contains_key(pair) {
                if pair == (t.0, t.1) {
                    assert((triples[last].0, triples[last].1) == pair);
                } else {
                    let i = choose|i: int|
                        0 <= i < head.len() && ((#[trigger] head[i]).0, head[i].1) == pair;
                    assert(head[i] == triples[i]);
                    assert((triples[i].0, triples[i].1) == pair);
                }
            }
        }
        assert(got =~= want);
    }
}

/// The tree that the edges of a graph write is read as edges that, once
/// connected, are the edges of the graph.
pub proof fn lemma_edges_round_trip(graph: GraphView)
    requires
        graph.valid(),
    ensures
        read_edges(edges_tree(graph.edges)) matches Ok(triples) && connect_all(
            graph.nodes,
            triples,
        ) == Ok::<Map<(i32, i32), Seq<Seq<char>>>, GraphError>(graph.edges),
{
    let edges = graph.edges;
    let trees = origin_trees(edges);
    assert(trees.dom().subset_of(graph.nodes.dom()));
    vstd::set_lib::lemma_len_subset(trees.dom(), graph.nodes.dom());
    let table = by_decimal(trees);
    lemma_by_decimal_finite(trees);
    lemma_rising_list_exists(table);
    let list = rising_list(table);
    lemma_rising_distinct(list);
    lemma_to_map_all(list);
    assert forall|i: int| 0 <= i < list.len() implies parsed_id(#[trigger] list[i].0) is Some
        && list[i].1 == row_tree(edges, parsed_id(list[i].0).unwrap()) by {
        assert(table.contains_key(list[i].0));
    }
    lemma_edge_list(list, graph);
    let triples = read_edge_list(list)->Ok_0;
    lemma_connect_all(graph, triples);
    let got = named_edges(triples, edges);
    assert forall|pair: (i32, i32)| got.contains_key(pair) <==> edges.contains_key(pair) by {
        if got.contains_key(pair) {
            let i = choose|i: int|
                0 <= i < triples.len() && ((#[trigger] triples[i]).0, triples[i].1) == pair;
            assert(edges.contains_key((triples[i].0, triples[i].1)));
        }
        if edges.contains_key(pair) {
            let (o, d) = pair;
            assert(edges.contains_key((o, d)));
            assert(trees.contains_key(o));
            lemma_by_decimal_at(trees, o);
            assert(holds_key(list, decimal(o as int)));
            let i = choose|i: int|
                0 <= i < list.len() && (#[trigger] list[i]).0 == decimal(o as int);
            lemma_decimal_round_trip(o as int);
            assert(parsed_id(list[i].0).unwrap() == o);
            assert(holds_row(triples, edges, parsed_id(list[i].0).unwrap()));
            let t = (o, d, edges[(o, d)]);
            assert(triples.contains(t));
            let k = choose|k: int| 0 <= k < triples.len() && triples[k] == t;
            assert((triples[k].0, triples[k].1) == pair);
        }
    }
    assert(got =~= edges);
}

/// Round trip: the tree that a graph writes is read as that graph, with
/// the same nodes and the same edges.
pub proof fn lemma_round_trip(graph: GraphView)
    requires
        graph.valid(),
    ensures
        read_graph(graph_tree(graph)) == Ok::<GraphView, GraphError>(graph),
{
    reveal_strlit("edges");
    reveal_strlit("nodes");
    reveal_with_fuel(lookup, 3);
    let members = seq![("edges"@, edges_tree(graph.edges)), ("nodes"@, nodes_tree(graph.nodes))];
    assert("edges"@[0] != "nodes"@[0]);
    assert(members.last() == ("nodes"@, nodes_tree(graph.nodes)));
    assert(members.drop_last() =~= seq![("edges"@, edges_tree(graph.edges))]);
    assert(members.drop_last().last() == ("edges"@, edges_tree(graph.edges)));
    assert(lookup(members, "nodes"@) == Some(nodes_tree(graph.nodes)));
    assert(lookup(members, "edges"@) == Some(edges_tree(graph.edges)));
    lemma_nodes_round_trip(graph.nodes);
    lemma_edges_round_trip(graph);
}

} // verus!
