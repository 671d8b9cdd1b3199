//! The JSON tree that a graph writes.

use crate::decimal::{decimal, id_text, lemma_decimal_round_trip, parsed_id};
use crate::decode::read_graph;
use crate::depth::lemma_graph_tree_shallow;
use crate::entries::{lemma_views_rising, views};
use crate::error::GraphError;
use crate::graph::{label_texts, Edge, Graph, GraphView, Node, NodeView};
use crate::json::written_text;
use crate::lex::text_lt;
use crate::pairs::{
    holds_key, keys_distinct, keys_rising, lemma_rising_distinct, lemma_rising_list_is,
    lemma_to_map_all, rising_list, to_map,
};
use crate::props::Props;
use crate::round_trip::lemma_round_trip;
use crate::screen::MAX_DEPTH;
use crate::sort::{distinct, lemma_sorted_same_map, sort};
use crate::tree::{
    item_views, lemma_array_view, lemma_object_view, lemma_shallow_more, Tree, TreeView,
};
use vstd::prelude::*;
use vstd::string::StringExecFns;

verus! {

/// A table under text keys: each value under the decimal text of its
/// identifier.
pub open spec fn by_decimal<T>(table: Map<i32, T>) -> Map<Seq<char>, T> {
    Map::new(
        |key: Seq<char>|
            parsed_id(key) is Some && decimal(parsed_id(key).unwrap() as int) == key
                && table.contains_key(parsed_id(key).unwrap()),
        |key: Seq<char>| table[parsed_id(key).unwrap()],
    )
}

/// The properties as strings of a tree.
pub open spec fn string_trees(props: Map<Seq<char>, Seq<char>>) -> Map<Seq<char>, TreeView> {
    Map::new(
        |key: Seq<char>| props.contains_key(key),
        |key: Seq<char>| TreeView::String(props[key]),
    )
}

/// The tree of the properties of a node: an object of strings, in the
/// rising order of the keys.
pub open spec fn props_tree(props: Map<Seq<char>, Seq<char>>) -> TreeView {
    TreeView::Object(rising_list(string_trees(props)))
}

/// The tree of a node: an object with `id` and `props`.
pub open spec fn node_tree(node: NodeView) -> TreeView {
    TreeView::Object(
        seq![("id"@, TreeView::I64(node.id as i64)), ("props"@, props_tree(node.props))],
    )
}

/// The labels as strings of a tree.
pub open spec fn label_trees(labels: Seq<Seq<char>>) -> Seq<TreeView> {
    Seq::new(labels.len(), |i: int| TreeView::String(labels[i]))
}

/// The tree of an edge: an object with `labels`, in their order.
pub open spec fn edge_tree(labels: Seq<Seq<char>>) -> TreeView {
    TreeView::Object(seq![("labels"@, TreeView::Array(label_trees(labels)))])
}

/// The trees of the nodes, by identifier.
pub open spec fn node_trees(nodes: Map<i32, NodeView>) -> Map<i32, TreeView> {
    Map::new(|id: i32| nodes.contains_key(id), |id: i32| node_tree(nodes[id]))
}

/// The tree of the nodes: an object with each node under the decimal text
/// of its identifier, in the rising order of these texts.
pub open spec fn nodes_tree(nodes: Map<i32, NodeView>) -> TreeView {
    TreeView::Object(rising_list(by_decimal(node_trees(nodes))))
}

/// The trees of the edges from `origin`, by destination.
pub open spec fn row_trees(edges: Map<(i32, i32), Seq<Seq<char>>>, origin: i32) -> Map<
    i32,
    TreeView,
> {
    Map::new(
        |destination: i32| edges.contains_key((origin, destination)),
        |destination: i32| edge_tree(edges[(origin, destination)]),
    )
}

/// The tree of the edges from `origin`: an object with each edge under the
/// decimal text of its destination, in the rising order of these texts.
pub open spec fn row_tree(edges: Map<(i32, i32), Seq<Seq<char>>>, origin: i32) -> TreeView {
    TreeView::Object(rising_list(by_decimal(row_trees(edges, origin))))
}

/// The trees of the edges, by origin. A node from which no edge starts has
/// none.
pub open spec fn origin_trees(edges: Map<(i32, i32), Seq<Seq<char>>>) -> Map<i32, TreeView> {
    Map::new(
        |origin: i32| exists|destination: i32| edges.contains_key((origin, destination)),
        |origin: i32| row_tree(edges, origin),
    )
}

/// The tree of the edges: an object with the edges of each origin under the
/// decimal text of the origin, in the rising order of these texts.
pub open spec fn edges_tree(edges: Map<(i32, i32), Seq<Seq<char>>>) -> TreeView {
    TreeView::Object(rising_list(by_decimal(origin_trees(edges))))
}

/// The tree of a graph: an object with `edges` and `nodes`.
pub open spec fn graph_tree(graph: GraphView) -> TreeView {
    TreeView::Object(
        seq![("edges"@, edges_tree(graph.edges)), ("nodes"@, nodes_tree(graph.nodes))],
    )
}

/// A value put under an identifier stands under its decimal text.
pub proof fn lemma_by_decimal_insert<T>(table: Map<i32, T>, id: i32, value: T)
    ensures
        by_decimal(table.insert(id, value)) == by_decimal(table).insert(decimal(id as int), value),
{
    lemma_decimal_round_trip(id as int);
    let more = by_decimal(table.insert(id, value));
    let want = by_decimal(table).insert(decimal(id as int), value);
    assert forall|key: Seq<char>| more.contains_key(key) <==> want.contains_key(key) by {}
    assert forall|key: Seq<char>| more.contains_key(key) implies more[key] == want[key] by {}
    assert(more =~= want);
}

/// A list that holds, for each of the identifiers of a table, its decimal
/// text and what the table holds for it, has distinct keys and writes the
/// table under decimal keys.
proof fn lemma_listed_table<T>(table: Map<i32, T>, ids: Seq<i32>, list: Seq<(Seq<char>, T)>)
    requires
        ids.no_duplicates(),
        forall|id: i32| ids.contains(id) <==> table.contains_key(id),
        list.len() == ids.len(),
        forall|k: int|
            0 <= k < list.len() ==> #[trigger] list[k] == (decimal(ids[k] as int), table[ids[k]]),
    ensures
        keys_distinct(list),
        to_map(list) == by_decimal(table),
{
    assert forall|i: int, j: int|
        0 <= i < list.len() && 0 <= j < list.len() && i != j implies (#[trigger] list[i]).0 != (
    #[trigger] list[j]).0 by {
        lemma_decimal_round_trip(ids[i] as int);
        lemma_decimal_round_trip(ids[j] as int);
    }
    lemma_to_map_all(list);
    let want = by_decimal(table);
    assert forall|key: Seq<char>| #[trigger]
        to_map(list).contains_key(key) implies want.contains_key(key) && want[key] == to_map(
        list,
    )[key] by {
        assert(holds_key(list, key));
        let k = choose|k: int| 0 <= k < list.len() && (#[trigger] list[k]).0 == key;
        lemma_decimal_round_trip(ids[k] as int);
        assert(ids.contains(ids[k]));
        assert(list[k] == (decimal(ids[k] as int), table[ids[k]]));
        assert(to_map(list)[list[k].0] == list[k].1);
    }
    assert forall|key: Seq<char>| #[trigger]
        want.contains_key(key) implies to_map(list).contains_key(key) by {
        let id = parsed_id(key).unwrap();
        assert(ids.contains(id));
        let k = choose|k: int| 0 <= k < ids.len() && ids[k] == id;
        assert(list[k] == (decimal(ids[k] as int), table[ids[k]]));
        assert(list[k].0 == key);
        assert(holds_key(list, key));
    }
    assert(to_map(list) =~= want);
}

/// A list of entries whose keys are distinct as texts has distinct keys.
proof fn lemma_distinct_entries<V: View>(entries: Seq<(String, V)>)
    requires
        keys_distinct(views(entries)),
    ensures
        distinct(entries),
{
    let list = views(entries);
    assert forall|i: int, j: int| 0 <= i < j < entries.len() implies (#[trigger] entries[i]).0@
        != (#[trigger] entries[j]).0@ by {
        assert(list[i].0 != list[j].0);
    }
}

/// Puts the members of an object in the order of their keys.
fn object_of(members: Vec<(String, Tree)>) -> (r: Tree)
    requires
        keys_distinct(views(members@)),
    ensures
        r@ == TreeView::Object(rising_list(to_map(views(members@)))),
{
    proof {
        lemma_distinct_entries(members@);
    }
    let sorted = sort(members);
    proof {
        lemma_sorted_same_map(sorted@, members@);
        lemma_views_rising(sorted@);
        lemma_rising_list_is(views(sorted@));
        lemma_object_view(sorted);
    }
    Tree::Object(sorted)
}

/// Writes the properties of a node.
fn props_json(props: &Props) -> (r: Tree)
    ensures
        r@ == props_tree(props@),
{
    let n = props.len();
    let ghost pairs = props.pairs();
    let mut members: Vec<(String, Tree)> = Vec::new();
    let mut i: usize = 0;
    while i < n
        invariant
            n == pairs.len(),
            pairs == props.pairs(),
            i <= n,
            members@.len() == i,
            forall|j: int|
                0 <= j < i ==> (#[trigger] views(members@)[j]) == (
                    pairs[j].0,
                    TreeView::String(pairs[j].1),
                ),
        decreases n - i,
    {
        let (key, value) = props.entry(i);
        let ghost before = members@;
        members.push((key.clone(), Tree::String(value.clone())));
        proof {
            assert forall|j: int| 0 <= j < i + 1 implies (#[trigger] views(members@)[j]) == (
                pairs[j].0,
                TreeView::String(pairs[j].1),
            ) by {
                if j < i {
                    assert(views(members@)[j] == views(before)[j]);
                }
            }
        }
        i = i + 1;
    }
    proof {
        let list = views(members@);
        assert(keys_rising(list)) by {
            assert forall|a: int, b: int| 0 <= a < b < list.len() implies text_lt(
                (#[trigger] list[a]).0,
                (#[trigger] list[b]).0,
            ) by {
                assert(list[a].0 == pairs[a].0 && list[b].0 == pairs[b].0);
            }
        }
        lemma_rising_distinct(list);
        lemma_rising_distinct(pairs);
        lemma_to_map_all(list);
        lemma_to_map_all(pairs);
        let want = string_trees(props@);
        assert forall|key: Seq<char>| to_map(list).contains_key(key) implies want.contains_key(key)
            && want[key] == to_map(list)[key] by {
            assert(holds_key(list, key));
            let j = choose|j: int| 0 <= j < list.len() && (#[trigger] list[j]).0 == key;
            assert(pairs[j].0 == key);
        }
        assert forall|key: Seq<char>| want.contains_key(key) implies to_map(list).contains_key(
            key,
        ) by {
            assert(holds_key(pairs, key));
            let j = choose|j: int| 0 <= j < pairs.len() && (#[trigger] pairs[j]).0 == key;
            assert(list[j].0 == key);
        }
        assert(to_map(list) =~= want);
        lemma_rising_list_is(list);
        lemma_object_view(members);
    }
    Tree::Object(members)
}

impl Node {
    /// Writes the node as a tree: an object with `id` and `props`.
    pub fn to_json(&self) -> (r: Tree)
        ensures
            r@ == node_tree(self@),
    {
        let mut members: Vec<(String, Tree)> = Vec::new();
        members.push((String::from_str("id"), Tree::I64(self.id as i64)));
        members.push((String::from_str("props"), props_json(&self.props)));
        proof {
            lemma_object_view(members);
            assert(views(members@) =~= seq![
                ("id"@, TreeView::I64(self.id as i64)),
                ("props"@, props_tree(self.props@)),
            ]);
        }
        Tree::Object(members)
    }
}

impl Edge {
    /// Writes the edge as a tree: an object with `labels`, in their order.
    pub fn to_json(&self) -> (r: Tree)
        ensures
            r@ == edge_tree(self@),
    {
        let labels = &self.labels;
        let mut items: Vec<Tree> = Vec::new();
        let mut i: usize = 0;
        while i < labels.len()
            invariant
                i <= labels@.len(),
                items@.len() == i,
                forall|j: int|
                    0 <= j < i ==> (#[trigger] items@[j])@ == TreeView::String(labels@[j]@),
            decreases labels@.len() - i,
        {
            items.push(Tree::String(labels[i].clone()));
            i = i + 1;
        }
        let mut members: Vec<(String, Tree)> = Vec::new();
        proof {
            lemma_array_view(items);
            assert(item_views(items@) =~= label_trees(label_texts(labels@)));
        }
        members.push((String::from_str("labels"), Tree::Array(items)));
        proof {
            lemma_object_view(members);
            assert(views(members@) =~= seq![
                ("labels"@, TreeView::Array(label_trees(label_texts(labels@)))),
            ]);
        }
        Tree::Object(members)
    }
}

/// Writes the nodes of a graph.
fn nodes_json(graph: &Graph) -> (r: Tree)
    ensures
        r@ == nodes_tree(graph@.nodes),
{
    let ids = graph.node_ids();
    let ghost table = node_trees(graph@.nodes);
    let mut members: Vec<(String, Tree)> = Vec::new();
    let mut i: usize = 0;
    while i < ids.len()
        invariant
            i <= ids@.len(),
            members@.len() == i,
            table == node_trees(graph@.nodes),
            ids@.no_duplicates(),
            forall|id: i32| ids@.contains(id) <==> graph@.nodes.contains_key(id),
            forall|k: int|
                0 <= k < i ==> #[trigger] views(members@)[k] == (
                    decimal(ids@[k] as int),
                    table[ids@[k]],
                ),
        decreases ids@.len() - i,
    {
        let id = ids[i];
        assert(ids@.contains(id));
        if let Some(node) = graph.get_node(id) {
            let ghost before = views(members@);
            members.push((id_text(id), node.to_json()));
            assert forall|k: int| 0 <= k < i + 1 implies #[trigger] views(members@)[k] == (
                decimal(ids@[k] as int),
                table[ids@[k]],
            ) by {
                if k < i {
                    assert(views(members@)[k] == before[k]);
                }
            }
        }
        i = i + 1;
    }
    proof {
        lemma_listed_table(table, ids@, views(members@));
    }
    object_of(members)
}

/// Writes the edges from `origin`.
fn row_json(graph: &Graph, origin: i32) -> (r: Tree)
    ensures
        r@ == row_tree(graph@.edges, origin),
{
    let ids = graph.successors(origin);
    let ghost table = row_trees(graph@.edges, origin);
    let mut members: Vec<(String, Tree)> = Vec::new();
    let mut i: usize = 0;
    while i < ids.len()
        invariant
            i <= ids@.len(),
            members@.len() == i,
            table == row_trees(graph@.edges, origin),
            ids@.no_duplicates(),
            forall|d: i32| ids@.contains(d) <==> graph@.edges.contains_key((origin, d)),
            forall|k: int|
                0 <= k < i ==> #[trigger] views(members@)[k] == (
                    decimal(ids@[k] as int),
                    table[ids@[k]],
                ),
        decreases ids@.len() - i,
    {
        let destination = ids[i];
        assert(ids@.contains(destination));
        if let Some(edge) = graph.get_edge(origin, destination) {
            let ghost before = views(members@);
            members.push((id_text(destination), edge.to_json()));
            assert forall|k: int| 0 <= k < i + 1 implies #[trigger] views(members@)[k] == (
                decimal(ids@[k] as int),
                table[ids@[k]],
            ) by {
                if k < i {
                    assert(views(members@)[k] == before[k]);
                }
            }
        }
        i = i + 1;
    }
    proof {
        lemma_listed_table(table, ids@, views(members@));
    }
    object_of(members)
}

/// Writes the edges of a graph.
fn edges_json(graph: &Graph) -> (r: Tree)
    requires
        graph.wf(),
    ensures
        r@ == edges_tree(graph@.edges),
{
    let ids = graph.origins();
    let ghost table = origin_trees(graph@.edges);
    let mut members: Vec<(String, Tree)> = Vec::new();
    let mut i: usize = 0;
    while i < ids.len()
        invariant
            i <= ids@.len(),
            members@.len() == i,
            table == origin_trees(graph@.edges),
            ids@.no_duplicates(),
            forall|o: i32| ids@.contains(o) <==> table.contains_key(o),
            forall|k: int|
                0 <= k < i ==> #[trigger] views(members@)[k] == (
                    decimal(ids@[k] as int),
                    table[ids@[k]],
                ),
        decreases ids@.len() - i,
    {
        let origin = ids[i];
        assert(ids@.contains(origin));
        let ghost before = views(members@);
        members.push((id_text(origin), row_json(graph, origin)));
        assert forall|k: int| 0 <= k < i + 1 implies #[trigger] views(members@)[k] == (
            decimal(ids@[k] as int),
            table[ids@[k]],
        ) by {
            if k < i {
                assert(views(members@)[k] == before[k]);
            }
        }
        i = i + 1;
    }
    proof {
        lemma_listed_table(table, ids@, views(members@));
    }
    object_of(members)
}

impl Graph {
    /// Writes the graph as a tree. In every object the members stand in the
    /// byte order of their keys, so a graph has one tree, however it was
    /// built.
    pub fn to_json(&self) -> (r: Tree)
        requires
            self.wf(),
        ensures
            r@ == graph_tree(self@),
            read_graph(r@) == Ok::<GraphView, GraphError>(self@),
    {
        proof {
            self.lemma_view_valid();
            lemma_round_trip(self@);
        }
        let mut members: Vec<(String, Tree)> = Vec::new();
        members.push((String::from_str("edges"), edges_json(self)));
        members.push((String::from_str("nodes"), nodes_json(self)));
        proof {
            lemma_object_view(members);
            assert(views(members@) =~= seq![
                ("edges"@, edges_tree(self@.edges)),
                ("nodes"@, nodes_tree(self@.nodes)),
            ]);
        }
        Tree::Object(members)
    }
}

impl Graph {
    /// Writes the graph as compact JSON text: the text of its tree.
    pub fn to_text(&self) -> (r: String)
        requires
            self.wf(),
        ensures
            r@ == written_text(graph_tree(self@)),
    {
        let tree = self.to_json();
        proof {
            self.lemma_view_valid();
            lemma_graph_tree_shallow(self@);
            lemma_shallow_more(tree@, 5, MAX_DEPTH as nat);
        }
        tree.to_string()
    }
}

} // verus!
