//! How a JSON tree is read as a graph.

use crate::decimal::{parse_id, parsed_id};
use crate::entries::views;
use crate::error::{GraphError, ParseReason};
use crate::graph::{
    greatest_id, label_texts, lemma_raised_id, Graph, GraphView, Node, NodeView,
};
use crate::json::read_text;
use crate::lex::{rank, Rank};
use crate::pairs::to_map;
use crate::props::Props;
use crate::tree::{item_views, lemma_array_view, lemma_object_view, Tree, TreeView};
use vstd::prelude::*;

verus! {

/// An edge as it stands in a tree: origin, destination and labels.
pub type Triple = (i32, i32, Seq<Seq<char>>);

/// The value of the member `name` of an object. Of two members under one
/// name the later one counts.
pub open spec fn lookup(members: Seq<(Seq<char>, TreeView)>, name: Seq<char>) -> Option<TreeView>
    decreases members.len(),
{
    if members.len() == 0 {
        None
    } else if members.last().0 == name {
        Some(members.last().1)
    } else {
        lookup(members.drop_last(), name)
    }
}

/// The identifier that a tree writes: an integer in the range of `i32`.
pub open spec fn read_id(tree: TreeView) -> Option<i32> {
    match tree {
        TreeView::I64(n) => if i32::MIN <= n <= i32::MAX {
            Some(n as i32)
        } else {
            None
        },
        TreeView::U64(n) => if n <= i32::MAX {
            Some(n as i32)
        } else {
            None
        },
        _ => None,
    }
}

/// Every member of the list is a string.
pub open spec fn all_strings(members: Seq<(Seq<char>, TreeView)>) -> bool {
    forall|i: int| 0 <= i < members.len() ==> (#[trigger] members[i]).1 is String
}

/// The members of a list of strings as keys and texts.
pub open spec fn string_pairs(members: Seq<(Seq<char>, TreeView)>) -> Seq<(Seq<char>, Seq<char>)> {
    Seq::new(members.len(), |i: int| (members[i].0, members[i].1->String_0))
}

/// The properties that a tree writes: an object of strings.
pub open spec fn read_props(tree: TreeView) -> Result<Map<Seq<char>, Seq<char>>, ParseReason> {
    match tree {
        TreeView::Object(members) => if all_strings(members) {
            Ok(to_map(string_pairs(members)))
        } else {
            Err(ParseReason::WrongShape)
        },
        _ => Err(ParseReason::WrongShape),
    }
}

/// The node that a tree writes: an object with an integer `id` and with
/// `props`. Other members are passed over.
pub open spec fn read_node(tree: TreeView) -> Result<NodeView, ParseReason> {
    match tree {
        TreeView::Object(members) => match lookup(members, "id"@) {
            None => Err(ParseReason::MissingField),
            Some(id_tree) => match read_id(id_tree) {
                None => Err(ParseReason::WrongShape),
                Some(id) => match lookup(members, "props"@) {
                    None => Err(ParseReason::MissingField),
                    Some(props_tree) => match read_props(props_tree) {
                        Err(reason) => Err(reason),
                        Ok(props) => Ok(NodeView { id, props }),
                    },
                },
            },
        },
        _ => Err(ParseReason::WrongShape),
    }
}

/// Every item of the list is a string.
pub open spec fn all_string_items(items: Seq<TreeView>) -> bool {
    forall|i: int| 0 <= i < items.len() ==> (#[trigger] items[i]) is String
}

/// The labels that the tree of an edge writes: an object whose `labels` are
/// an array of strings.
pub open spec fn read_labels(tree: TreeView) -> Result<Seq<Seq<char>>, ParseReason> {
    match tree {
        TreeView::Object(members) => match lookup(members, "labels"@) {
            None => Err(ParseReason::MissingField),
            Some(TreeView::Array(items)) => if all_string_items(items) {
                Ok(Seq::new(items.len(), |i: int| items[i]->String_0))
            } else {
                Err(ParseReason::WrongShape)
            },
            Some(_) => Err(ParseReason::WrongShape),
        },
        _ => Err(ParseReason::WrongShape),
    }
}

/// The nodes that the members of an object write, by identifier. The first
/// member that is no node decides the failure: its key is no identifier, or
/// its value is no node.
pub open spec fn read_node_list(members: Seq<(Seq<char>, TreeView)>) -> Result<
    Map<i32, NodeView>,
    ParseReason,
>
    decreases members.len(),
{
    if members.len() == 0 {
        Ok(Map::empty())
    } else {
        match read_node_list(members.drop_last()) {
            Err(reason) => Err(reason),
            Ok(nodes) => match parsed_id(members.last().0) {
                None => Err(ParseReason::InvalidKey),
                Some(id) => match read_node(members.last().1) {
                    Err(reason) => Err(reason),
                    Ok(node) => Ok(nodes.insert(id, node)),
                },
            },
        }
    }
}

/// The nodes that a tree writes: an object of nodes under their identifiers.
pub open spec fn read_nodes(tree: TreeView) -> Result<Map<i32, NodeView>, ParseReason> {
    match tree {
        TreeView::Object(members) => read_node_list(members),
        _ => Err(ParseReason::WrongShape),
    }
}

/// The edges from `origin` that the members of an object write, in their
/// order.
pub open spec fn read_row_list(origin: i32, members: Seq<(Seq<char>, TreeView)>) -> Result<
    Seq<Triple>,
    ParseReason,
>
    decreases members.len(),
{
    if members.len() == 0 {
        Ok(Seq::empty())
    } else {
        match read_row_list(origin, members.drop_last()) {
            Err(reason) => Err(reason),
            Ok(edges) => match parsed_id(members.last().0) {
                None => Err(ParseReason::InvalidKey),
                Some(destination) => match read_labels(members.last().1) {
                    Err(reason) => Err(reason),
                    Ok(labels) => Ok(edges.push((origin, destination, labels))),
                },
            },
        }
    }
}

/// The edges from `origin` that a tree writes: an object of edges under
/// their destinations.
pub open spec fn read_row(origin: i32, tree: TreeView) -> Result<Seq<Triple>, ParseReason> {
    match tree {
        TreeView::Object(members) => read_row_list(origin, members),
        _ => Err(ParseReason::WrongShape),
    }
}

/// The edges that the members of an object write, in their order: under
/// each origin the edges from it.
pub open spec fn read_edge_list(members: Seq<(Seq<char>, TreeView)>) -> Result<
    Seq<Triple>,
    ParseReason,
>
    decreases members.len(),
{
    if members.len() == 0 {
        Ok(Seq::empty())
    } else {
        match read_edge_list(members.drop_last()) {
            Err(reason) => Err(reason),
            Ok(edges) => match parsed_id(members.last().0) {
                None => Err(ParseReason::InvalidKey),
                Some(origin) => match read_row(origin, members.last().1) {
                    Err(reason) => Err(reason),
                    Ok(more) => Ok(edges + more),
                },
            },
        }
    }
}

/// The edges that a tree writes.
pub open spec fn read_edges(tree: TreeView) -> Result<Seq<Triple>, ParseReason> {
    match tree {
        TreeView::Object(members) => read_edge_list(members),
        _ => Err(ParseReason::WrongShape),
    }
}

/// The edge table that connecting the nodes of each edge in turn gives. The
/// first edge with an end that is no node decides the failure.
pub open spec fn connect_all(nodes: Map<i32, NodeView>, edges: Seq<Triple>) -> Result<
    Map<(i32, i32), Seq<Seq<char>>>,
    GraphError,
>
    decreases edges.len(),
{
    if edges.len() == 0 {
        Ok(Map::empty())
    } else {
        match connect_all(nodes, edges.drop_last()) {
            Err(e) => Err(e),
            Ok(table) => {
                let (origin, destination, labels) = edges.last();
                if !nodes.contains_key(origin) {
                    Err(GraphError::NodeNotFound { id: origin })
                } else if !nodes.contains_key(destination) {
                    Err(GraphError::NodeNotFound { id: destination })
                } else {
                    Ok(table.insert((origin, destination), labels))
                }
            },
        }
    }
}

/// The graph that a tree writes: an object with `nodes` and `edges`. The
/// shape of the whole tree is judged first, the nodes before the edges; then
/// the edges are connected in their order.
pub open spec fn read_graph(tree: TreeView) -> Result<GraphView, GraphError> {
    match tree {
        TreeView::Object(members) => match lookup(members, "nodes"@) {
            None => Err(GraphError::ParseError { reason: ParseReason::MissingField }),
            Some(nodes_tree) => match read_nodes(nodes_tree) {
                Err(reason) => Err(GraphError::ParseError { reason }),
                Ok(nodes) => match lookup(members, "edges"@) {
                    None => Err(GraphError::ParseError { reason: ParseReason::MissingField }),
                    Some(edges_tree) => match read_edges(edges_tree) {
                        Err(reason) => Err(GraphError::ParseError { reason }),
                        Ok(edges) => match connect_all(nodes, edges) {
                            Err(e) => Err(e),
                            Ok(table) => Ok(GraphView { nodes, edges: table }),
                        },
                    },
                },
            },
        },
        _ => Err(GraphError::ParseError { reason: ParseReason::WrongShape }),
    }
}

/// The graph that a text writes: the graph of the tree that the text
/// writes.
pub open spec fn read_graph_text(text: Seq<char>) -> Result<GraphView, GraphError> {
    match read_text(text) {
        Err(e) => Err(e),
        Ok(tree) => read_graph(tree),
    }
}

/// The value of the member `name` among the members of an object.
fn member<'a>(members: &'a Vec<(String, Tree)>, name: &str) -> (r: Option<&'a Tree>)
    ensures
        match r {
            Some(tree) => lookup(views(members@), name@) == Some(tree@),
            None => lookup(views(members@), name@) is None,
        },
{
    let ghost all = views(members@);
    let mut i = members.len();
    assert(all.take(i as int) =~= all);
    while i > 0
        invariant
            all == views(members@),
            i <= members@.len(),
            lookup(all, name@) == lookup(all.take(i as int), name@),
        decreases i,
    {
        i = i - 1;
        proof {
            let head = all.take(i + 1);
            assert(head.drop_last() =~= all.take(i as int));
            assert(head.last() == all[i as int]);
        }
        match rank(members[i].0.as_str(), name) {
            Rank::Same => {
                return Some(&members[i].1);
            },
            _ => {},
        }
    }
    None
}

/// Reads an identifier.
fn id_of(tree: &Tree) -> (r: Option<i32>)
    ensures
        r == read_id(tree@),
{
    match tree {
        Tree::I64(n) => if -0x8000_0000 <= *n && *n <= 0x7fff_ffff {
            Some(*n as i32)
        } else {
            None
        },
        Tree::U64(n) => if *n <= 0x7fff_ffff {
            Some(*n as i32)
        } else {
            None
        },
        _ => None,
    }
}

/// Reads the properties of a node.
fn props_of(tree: &Tree) -> (r: Result<Props, ParseReason>)
    ensures
        match r {
            Ok(props) => read_props(tree@) == Ok::<Map<Seq<char>, Seq<char>>, ParseReason>(props@),
            Err(reason) => read_props(tree@) == Err::<Map<Seq<char>, Seq<char>>, ParseReason>(
                reason,
            ),
        },
{
    match tree {
        Tree::Object(members) => {
            proof {
                lemma_object_view(*members);
            }
            let ghost all = views(members@);
            let mut props = Props::new();
            let mut i: usize = 0;
            while i < members.len()
                invariant
                    all == views(members@),
                    tree@ == TreeView::Object(all),
                    i <= members@.len(),
                    all_strings(all.take(i as int)),
                    props@ == to_map(string_pairs(all.take(i as int))),
                decreases members@.len() - i,
            {
                match &members[i].1 {
                    Tree::String(value) => {
                        proof {
                            let head = all.take(i + 1);
                            assert(head.drop_last() =~= all.take(i as int));
                            assert(head.last() == all[i as int]);
                            assert(string_pairs(head).drop_last() =~= string_pairs(
                                all.take(i as int),
                            ));
                            assert forall|j: int| 0 <= j < head.len() implies (
                            #[trigger] head[j]).1 is String by {
                                if j < i {
                                    assert(all.take(i as int)[j] == head[j]);
                                }
                            }
                        }
                        props.insert(members[i].0.clone(), value.clone());
                    },
                    _ => {
                        assert(!(all[i as int].1 is String));
                        return Err(ParseReason::WrongShape);
                    },
                }
                i = i + 1;
            }
            assert(all.take(i as int) =~= all);
            Ok(props)
        },
        _ => Err(ParseReason::WrongShape),
    }
}

/// Reads a node.
fn node_of(tree: &Tree) -> (r: Result<Node, ParseReason>)
    ensures
        match r {
            Ok(node) => read_node(tree@) == Ok::<NodeView, ParseReason>(node@),
            Err(reason) => read_node(tree@) == Err::<NodeView, ParseReason>(reason),
        },
{
    match tree {
        Tree::Object(members) => {
            proof {
                lemma_object_view(*members);
            }
            let id = match member(members, "id") {
                None => {
                    return Err(ParseReason::MissingField);
                },
                Some(id_tree) => match id_of(id_tree) {
                    None => {
                        return Err(ParseReason::WrongShape);
                    },
                    Some(id) => id,
                },
            };
            match member(members, "props") {
                None => Err(ParseReason::MissingField),
                Some(props_tree) => match props_of(props_tree) {
                    Err(reason) => Err(reason),
                    Ok(props) => Ok(Node { id, props }),
                },
            }
        },
        _ => Err(ParseReason::WrongShape),
    }
}

/// Reads the labels of an edge.
fn labels_of(tree: &Tree) -> (r: Result<Vec<String>, ParseReason>)
    ensures
        match r {
            Ok(labels) => read_labels(tree@) == Ok::<Seq<Seq<char>>, ParseReason>(
                label_texts(labels@),
            ),
            Err(reason) => read_labels(tree@) == Err::<Seq<Seq<char>>, ParseReason>(reason),
        },
{
    match tree {
        Tree::Object(members) => {
            proof {
                lemma_object_view(*members);
            }
            match member(members, "labels") {
                None => Err(ParseReason::MissingField),
                Some(Tree::Array(items)) => {
                    proof {
                        lemma_array_view(*items);
                    }
                    let ghost all = item_views(items@);
                    let mut labels: Vec<String> = Vec::new();
                    let mut i: usize = 0;
                    while i < items.len()
                        invariant
                            all == item_views(items@),
                            tree@ == TreeView::Object(views(members@)),
                            lookup(views(members@), "labels"@) == Some(TreeView::Array(all)),
                            i <= items@.len(),
                            labels@.len() == i,
                            forall|j: int| 0 <= j < i ==> (#[trigger] all[j]) is String,
                            forall|j: int|
                                0 <= j < i ==> (#[trigger] labels@[j])@ == all[j]->String_0,
                        decreases items@.len() - i,
                    {
                        match &items[i] {
                            Tree::String(label) => {
                                labels.push(label.clone());
                            },
                            _ => {
                                assert(!(all[i as int] is String));
                                return Err(ParseReason::WrongShape);
                            },
                        }
                        i = i + 1;
                    }
                    assert(label_texts(labels@) =~= Seq::new(
                        all.len(),
                        |i: int| all[i]->String_0,
                    ));
                    Ok(labels)
                },
                Some(_) => Err(ParseReason::WrongShape),
            }
        },
        _ => Err(ParseReason::WrongShape),
    }
}

/// Reads the nodes of a graph into `graph`.
fn load_nodes(tree: &Tree, graph: &mut Graph) -> (r: Result<(), ParseReason>)
    requires
        old(graph).wf(),
        old(graph)@.nodes == Map::<i32, NodeView>::empty(),
        old(graph).last_id() == 0,
    ensures
        final(graph).wf(),
        final(graph)@.edges == old(graph)@.edges,
        match r {
            Ok(_) => read_nodes(tree@) == Ok::<Map<i32, NodeView>, ParseReason>(final(graph)@.nodes)
                && greatest_id(final(graph)@.nodes, final(graph).last_id()),
            Err(reason) => read_nodes(tree@) == Err::<Map<i32, NodeView>, ParseReason>(reason),
        },
{
    match tree {
        Tree::Object(members) => {
            proof {
                lemma_object_view(*members);
            }
            let ghost all = views(members@);
            let mut i: usize = 0;
            while i < members.len()
                invariant
                    all == views(members@),
                    tree@ == TreeView::Object(all),
                    i <= members@.len(),
                    graph.wf(),
                    graph@.edges == old(graph)@.edges,
                    read_node_list(all.take(i as int)) == Ok::<Map<i32, NodeView>, ParseReason>(
                        graph@.nodes,
                    ),
                    greatest_id(graph@.nodes, graph.last_id()),
                decreases members@.len() - i,
            {
                proof {
                    let head = all.take(i + 1);
                    assert(head.drop_last() =~= all.take(i as int));
                    assert(head.last() == all[i as int]);
                    lemma_list_failure(all, i + 1);
                }
                let id = match parse_id(members[i].0.as_str()) {
                    None => {
                        return Err(ParseReason::InvalidKey);
                    },
                    Some(id) => id,
                };
                match node_of(&members[i].1) {
                    Err(reason) => {
                        return Err(reason);
                    },
                    Ok(node) => {
                        proof {
                            lemma_raised_id(graph@.nodes, graph.last_id(), id, node@);
                        }
                        graph.load_node(id, node);
                    },
                }
                i = i + 1;
            }
            assert(all.take(i as int) =~= all);
            Ok(())
        },
        _ => Err(ParseReason::WrongShape),
    }
}

/// A list of members of which a part from the start fails as nodes fails
/// itself, in the same way.
proof fn lemma_list_failure(members: Seq<(Seq<char>, TreeView)>, upto: int)
    requires
        0 <= upto <= members.len(),
    ensures
        read_node_list(members.take(upto)) is Err ==> read_node_list(members) == read_node_list(
            members.take(upto),
        ),
    decreases members.len(),
{
    if upto < members.len() {
        let head = members.drop_last();
        assert(head.take(upto) =~= members.take(upto));
        lemma_list_failure(head, upto);
    } else {
        assert(members.take(upto) =~= members);
    }
}

/// The edges of a list as triples of plain values.
pub open spec fn triple_views(edges: Seq<(i32, i32, Vec<String>)>) -> Seq<Triple> {
    Seq::new(edges.len(), |i: int| (edges[i].0, edges[i].1, label_texts(edges[i].2@)))
}

/// A list of members of which a part from the start fails as edges from
/// `origin` fails itself, in the same way.
proof fn lemma_row_failure(origin: i32, members: Seq<(Seq<char>, TreeView)>, upto: int)
    requires
        0 <= upto <= members.len(),
    ensures
        read_row_list(origin, members.take(upto)) is Err ==> read_row_list(origin, members)
            == read_row_list(origin, members.take(upto)),
    decreases members.len(),
{
    if upto < members.len() {
        let head = members.drop_last();
        assert(head.take(upto) =~= members.take(upto));
        lemma_row_failure(origin, head, upto);
    } else {
        assert(members.take(upto) =~= members);
    }
}

/// A list of members of which a part from the start fails as edges fails
/// itself, in the same way.
proof fn lemma_edges_failure(members: Seq<(Seq<char>, TreeView)>, upto: int)
    requires
        0 <= upto <= members.len(),
    ensures
        read_edge_list(members.take(upto)) is Err ==> read_edge_list(members) == read_edge_list(
            members.take(upto),
        ),
    decreases members.len(),
{
    if upto < members.len() {
        let head = members.drop_last();
        assert(head.take(upto) =~= members.take(upto));
        lemma_edges_failure(head, upto);
    } else {
        assert(members.take(upto) =~= members);
    }
}

/// A list of edges of which a part from the start cannot be connected
/// cannot be connected itself, for the same reason.
proof fn lemma_connect_failure(nodes: Map<i32, NodeView>, edges: Seq<Triple>, upto: int)
    requires
        0 <= upto <= edges.len(),
    ensures
        connect_all(nodes, edges.take(upto)) is Err ==> connect_all(nodes, edges) == connect_all(
            nodes,
            edges.take(upto),
        ),
    decreases edges.len(),
{
    if upto < edges.len() {
        let head = edges.drop_last();
        assert(head.take(upto) =~= edges.take(upto));
        lemma_connect_failure(nodes, head, upto);
    } else {
        assert(edges.take(upto) =~= edges);
    }
}

/// Reads the edges from `origin` and appends them to `out`.
fn load_row(origin: i32, tree: &Tree, out: &mut Vec<(i32, i32, Vec<String>)>) -> (r: Result<
    (),
    ParseReason,
>)
    ensures
        match r {
            Ok(_) => read_row(origin, tree@) matches Ok(more) && triple_views(final(out)@)
                == triple_views(old(out)@) + more,
            Err(reason) => read_row(origin, tree@) == Err::<Seq<Triple>, ParseReason>(reason),
        },
{
    match tree {
        Tree::Object(members) => {
            proof {
                lemma_object_view(*members);
            }
            let ghost all = views(members@);
            let ghost mut more: Seq<Triple> = Seq::empty();
            let mut i: usize = 0;
            assert(triple_views(out@) =~= triple_views(old(out)@) + more);
            while i < members.len()
                invariant
                    all == views(members@),
                    tree@ == TreeView::Object(all),
                    i <= members@.len(),
                    read_row_list(origin, all.take(i as int)) == Ok::<Seq<Triple>, ParseReason>(
                        more,
                    ),
                    triple_views(out@) == triple_views(old(out)@) + more,
                decreases members@.len() - i,
            {
                proof {
                    let head = all.take(i + 1);
                    assert(head.drop_last() =~= all.take(i as int));
                    assert(head.last() == all[i as int]);
                    lemma_row_failure(origin, all, i + 1);
                }
                let destination = match parse_id(members[i].0.as_str()) {
                    None => {
                        return Err(ParseReason::InvalidKey);
                    },
                    Some(id) => id,
                };
                match labels_of(&members[i].1) {
                    Err(reason) => {
                        return Err(reason);
                    },
                    Ok(labels) => {
                        let ghost before = out@;
                        out.push((origin, destination, labels));
                        proof {
                            let triple = (origin, destination, label_texts(labels@));
                            assert(triple_views(out@) =~= triple_views(before).push(triple));
                            assert(triple_views(old(out)@) + more.push(triple) =~= (triple_views(
                                old(out)@,
                            ) + more).push(triple));
                            more = more.push(triple);
                        }
                    },
                }
                i = i + 1;
            }
            assert(all.take(i as int) =~= all);
            Ok(())
        },
        _ => Err(ParseReason::WrongShape),
    }
}

/// Reads the edges of a graph.
fn edges_of(tree: &Tree) -> (r: Result<Vec<(i32, i32, Vec<String>)>, ParseReason>)
    ensures
        match r {
            Ok(edges) => read_edges(tree@) == Ok::<Seq<Triple>, ParseReason>(triple_views(edges@)),
            Err(reason) => read_edges(tree@) == Err::<Seq<Triple>, ParseReason>(reason),
        },
{
    match tree {
        Tree::Object(members) => {
            proof {
                lemma_object_view(*members);
            }
            let ghost all = views(members@);
            let mut edges: Vec<(i32, i32, Vec<String>)> = Vec::new();
            let mut i: usize = 0;
            assert(triple_views(edges@) =~= Seq::<Triple>::empty());
            while i < members.len()
                invariant
                    all == views(members@),
                    tree@ == TreeView::Object(all),
                    i <= members@.len(),
                    read_edge_list(all.take(i as int)) == Ok::<Seq<Triple>, ParseReason>(
                        triple_views(edges@),
                    ),
                decreases members@.len() - i,
            {
                proof {
                    let head = all.take(i + 1);
                    assert(head.drop_last() =~= all.take(i as int));
                    assert(head.last() == all[i as int]);
                    lemma_edges_failure(all, i + 1);
                }
                let origin = match parse_id(members[i].0.as_str()) {
                    None => {
                        return Err(ParseReason::InvalidKey);
                    },
                    Some(id) => id,
                };
                match load_row(origin, &members[i].1, &mut edges) {
                    Err(reason) => {
                        return Err(reason);
                    },
                    Ok(_) => {},
                }
                i = i + 1;
            }
            assert(all.take(i as int) =~= all);
            Ok(edges)
        },
        _ => Err(ParseReason::WrongShape),
    }
}

impl Graph {
    /// Reads a graph from its tree. The nodes come with the identifiers
    /// that the tree gives them, and the identifiers handed out later start
    /// one past the greatest of them; the edges are connected in the order
    /// of the tree. Fails with `ParseError` where the tree has not the
    /// shape of a graph, else with `NodeNotFound` where an edge has an end
    /// that is no node.
    pub fn decode(json: &Tree) -> (r: Result<Graph, GraphError>)
        ensures
            match r {
                Ok(graph) => read_graph(json@) == Ok::<GraphView, GraphError>(graph@) && graph.wf()
                    && greatest_id(graph@.nodes, graph.last_id()),
                Err(e) => read_graph(json@) == Err::<GraphView, GraphError>(e),
            },
    {
        let members = match json {
            Tree::Object(members) => members,
            _ => {
                return Err(GraphError::ParseError { reason: ParseReason::WrongShape });
            },
        };
        proof {
            lemma_object_view(*members);
        }
        let mut graph = Graph::new();
        match member(members, "nodes") {
            None => {
                return Err(GraphError::ParseError { reason: ParseReason::MissingField });
            },
            Some(nodes_tree) => match load_nodes(nodes_tree, &mut graph) {
                Err(reason) => {
                    return Err(GraphError::ParseError { reason });
                },
                Ok(_) => {},
            },
        }
        let edges = match member(members, "edges") {
            None => {
                return Err(GraphError::ParseError { reason: ParseReason::MissingField });
            },
            Some(edges_tree) => match edges_of(edges_tree) {
                Err(reason) => {
                    return Err(GraphError::ParseError { reason });
                },
                Ok(edges) => edges,
            },
        };
        let ghost nodes = graph@.nodes;
        let ghost all = triple_views(edges@);
        for edge in it: edges
            invariant
                it.seq() == edges@,
                all == triple_views(edges@),
                graph.wf(),
                graph@.nodes == nodes,
                greatest_id(nodes, graph.last_id()),
                connect_all(nodes, all.take(it.index())) == Ok::<
                    Map<(i32, i32), Seq<Seq<char>>>,
                    GraphError,
                >(graph@.edges),
                read_graph(json@) == match connect_all(nodes, all) {
                    Err(e) => Err::<GraphView, GraphError>(e),
                    Ok(table) => Ok(GraphView { nodes, edges: table }),
                },
        {
            let ghost i = it.index();
            proof {
                let head = all.take(i + 1);
                assert(head.drop_last() =~= all.take(i));
                assert(head.last() == all[i]);
                lemma_connect_failure(nodes, all, i + 1);
            }
            let (origin, destination, labels) = edge;
            match graph.connect_nodes(origin, destination, labels) {
                Err(e) => {
                    return Err(e);
                },
                Ok(_) => {},
            }
        }
        assert(all.take(all.len() as int) =~= all);
        Ok(graph)
    }

    /// Reads a graph from its tree, as `decode` does.
    pub fn from_json(json: Tree) -> (r: Result<Graph, GraphError>)
        ensures
            match r {
                Ok(graph) => read_graph(json@) == Ok::<GraphView, GraphError>(graph@) && graph.wf()
                    && greatest_id(graph@.nodes, graph.last_id()),
                Err(e) => read_graph(json@) == Err::<GraphView, GraphError>(e),
            },
    {
        Graph::decode(&json)
    }
}

impl Graph {
    /// Reads a graph from JSON text: reads the text as a tree, and the tree
    /// as a graph.
    pub fn from_text(text: &str) -> (r: Result<Graph, GraphError>)
        ensures
            match r {
                Ok(graph) => read_graph_text(text@) == Ok::<GraphView, GraphError>(graph@)
                    && graph.wf() && greatest_id(graph@.nodes, graph.last_id()),
                Err(e) => read_graph_text(text@) == Err::<GraphView, GraphError>(e),
            },
    {
        match Tree::from_str(text) {
            Err(e) => Err(e),
            Ok(tree) => Graph::from_json(tree),
        }
    }
}

} // verus!
