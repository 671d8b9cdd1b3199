//! How deep the tree of a graph nests.

use crate::decimal::parsed_id;
use crate::encode::{
    by_decimal, edge_tree, edges_tree, graph_tree, label_trees, node_tree, node_trees, nodes_tree,
    origin_trees, props_tree, row_tree, row_trees, string_trees,
};
use crate::graph::{GraphView, NodeView};
use crate::pairs::{
    lemma_rising_distinct, lemma_rising_list_exists, lemma_to_map_all, rising_list,
};
use crate::round_trip::lemma_by_decimal_finite;
use crate::tree::{
    lemma_shallow_array, lemma_shallow_more, lemma_shallow_object, shallow, TreeView,
};
use vstd::prelude::*;

verus! {

/// An object of the values of a finite table, each of which nests within a
/// limit, nests within one more.
pub proof fn lemma_table_shallow(table: Map<Seq<char>, TreeView>, limit: nat)
    requires
        table.dom().finite(),
        forall|key: Seq<char>| #[trigger] table.contains_key(key) ==> shallow(table[key], limit),
    ensures
        shallow(TreeView::Object(rising_list(table)), limit + 1),
{
    lemma_rising_list_exists(table);
    let list = rising_list(table);
    lemma_rising_distinct(list);
    lemma_to_map_all(list);
    lemma_shallow_object(list, limit + 1);
    assert forall|i: int| 0 <= i < list.len() implies shallow((#[trigger] list[i]).1, limit) by {
        assert(table.contains_key(list[i].0));
    }
}

/// The tree of a node nests two deep.
pub proof fn lemma_node_tree_shallow(node: NodeView)
    requires
        node.props.dom().finite(),
    ensures
        shallow(node_tree(node), 2),
{
    let strings = string_trees(node.props);
    assert(strings.dom() =~= node.props.dom());
    lemma_table_shallow(strings, 0);
    let members = seq![("id"@, TreeView::I64(node.id as i64)), ("props"@, props_tree(node.props))];
    lemma_shallow_object(members, 2);
}

/// The tree of an edge nests two deep.
pub proof fn lemma_edge_tree_shallow(labels: Seq<Seq<char>>)
    ensures
        shallow(edge_tree(labels), 2),
{
    let items = label_trees(labels);
    lemma_shallow_array(items, 1);
    let members = seq![("labels"@, TreeView::Array(items))];
    lemma_shallow_object(members, 2);
}

/// The tree of a graph nests five deep.
pub proof fn lemma_graph_tree_shallow(graph: GraphView)
    requires
        graph.valid(),
    ensures
        shallow(graph_tree(graph), 5),
{
    let nodes = node_trees(graph.nodes);
    assert(nodes.dom() =~= graph.nodes.dom());
    lemma_by_decimal_finite(nodes);
    assert forall|key: Seq<char>| #[trigger]
        by_decimal(nodes).contains_key(key) implies shallow(by_decimal(nodes)[key], 3) by {
        let id = parsed_id(key).unwrap();
        lemma_node_tree_shallow(graph.nodes[id]);
        lemma_shallow_more(node_tree(graph.nodes[id]), 2, 3);
    }
    lemma_table_shallow(by_decimal(nodes), 3);
    let origins = origin_trees(graph.edges);
    assert(origins.dom().subset_of(graph.nodes.dom()));
    vstd::set_lib::lemma_len_subset(origins.dom(), graph.nodes.dom());
    lemma_by_decimal_finite(origins);
    assert forall|key: Seq<char>| #[trigger]
        by_decimal(origins).contains_key(key) implies shallow(by_decimal(origins)[key], 3) by {
        let origin = parsed_id(key).unwrap();
        let row = row_trees(graph.edges, origin);
        assert(row.dom().subset_of(graph.nodes.dom()));
        vstd::set_lib::lemma_len_subset(row.dom(), graph.nodes.dom());
        lemma_by_decimal_finite(row);
        assert forall|inner: Seq<char>| #[trigger]
            by_decimal(row).contains_key(inner) implies shallow(by_decimal(row)[inner], 2) by {
            let destination = parsed_id(inner).unwrap();
            lemma_edge_tree_shallow(graph.edges[(origin, destination)]);
        }
        lemma_table_shallow(by_decimal(row), 2);
        assert(by_decimal(origins)[key] == row_tree(graph.edges, origin));
    }
    lemma_table_shallow(by_decimal(origins), 3);
    let members = seq![
        ("edges"@, edges_tree(graph.edges)),
        ("nodes"@, nodes_tree(graph.nodes)),
    ];
    lemma_shallow_object(members, 5);
}

} // verus!
