use graph_store::{Graph, GraphError, ParseReason, Tree};

const EXPECTED: &str = r#"{"edges":{"1":{"2":{"labels":["hello","hi"]}},"2":{"1":{"labels":[]},"3":{"labels":[]}}},"nodes":{"1":{"id":1,"props":{}},"2":{"id":2,"props":{}},"3":{"id":3,"props":{}}}}"#;

fn sample() -> Graph {
    let mut g = Graph::new();
    let id1 = g.add_node();
    let id2 = g.add_node();
    let id3 = g.add_node();
    g.connect_nodes(id1, id2, vec!["hello".to_string(), "hi".to_string()]).unwrap();
    g.connect_nodes(id2, id1, vec![]).unwrap();
    g.connect_nodes(id2, id3, vec![]).unwrap();
    g
}

#[test]
fn json_io() {
    let mut g = Graph::new();
    let id1 = g.add_node();
    let id2 = g.add_node();
    let id3 = g.add_node();
    g.connect_nodes(id1, id2, vec!["hello".to_string(), "hi".to_string()]).unwrap();
    g.connect_nodes(id2, id1, vec![]).unwrap();
    g.connect_nodes(id2, id3, vec![]).unwrap();

    let json_string = g.to_json().to_string();
    let expected_string = r#"{"edges":{"1":{"2":{"labels":["hello","hi"]}},"2":{"1":{"labels":[]},"3":{"labels":[]}}},"nodes":{"1":{"id":1,"props":{}},"2":{"id":2,"props":{}},"3":{"id":3,"props":{}}}}"#;
    assert!(json_string == expected_string);
    let new_json = Tree::from_str(expected_string).unwrap();
    let g2 = Graph::from_json(new_json).unwrap();
    assert!(g.eq(&g2));
}

#[test]
fn text_round_trip() {
    let g = sample();
    let text = g.to_text();
    assert_eq!(text, EXPECTED);
    let back = Graph::from_text(&text).unwrap();
    assert!(g == back);
    assert_eq!(back.to_text(), EXPECTED);
}

#[test]
fn text_that_is_no_json() {
    let r = Graph::from_text("{\"nodes\": ");
    assert_eq!(r.err(), Some(GraphError::ParseError { reason: ParseReason::Syntax }));
}

fn obj(members: Vec<(&str, Tree)>) -> Tree {
    Tree::Object(members.into_iter().map(|(k, v)| (k.to_string(), v)).collect())
}

fn text(s: &str) -> Tree {
    Tree::String(s.to_string())
}

fn node(id: i64) -> Tree {
    obj(vec![("id", Tree::I64(id)), ("props", obj(vec![]))])
}

fn edge(labels: &[&str]) -> Tree {
    obj(vec![("labels", Tree::Array(labels.iter().map(|l| text(l)).collect()))])
}

fn two_nodes() -> Tree {
    obj(vec![("1", node(1)), ("2", node(2))])
}

fn parse_error(reason: ParseReason) -> Option<GraphError> {
    Some(GraphError::ParseError { reason })
}

fn failure(tree: Tree) -> Option<GraphError> {
    Graph::from_json(tree).err()
}

#[test]
fn tree_of_the_sample_graph() {
    let want = obj(vec![
        (
            "edges",
            obj(vec![
                ("1", obj(vec![("2", edge(&["hello", "hi"]))])),
                ("2", obj(vec![("1", edge(&[])), ("3", edge(&[]))])),
            ]),
        ),
        ("nodes", obj(vec![("1", node(1)), ("2", node(2)), ("3", node(3))])),
    ]);
    assert_eq!(format!("{:?}", sample().to_json()), format!("{:?}", want));
}

#[test]
fn empty_graph_text() {
    let g = Graph::new();
    assert_eq!(g.to_text(), r#"{"edges":{},"nodes":{}}"#);
    let back = Graph::from_text(r#"{"edges":{},"nodes":{}}"#).unwrap();
    assert!(back == g);
}

#[test]
fn keys_are_written_in_the_order_of_their_texts() {
    let mut g = Graph::new();
    for _ in 0..12 {
        g.add_node();
    }
    g.connect_nodes(2, 10, vec![]).unwrap();
    g.connect_nodes(2, 9, vec![]).unwrap();
    g.connect_nodes(10, 1, vec![]).unwrap();
    g.connect_nodes(2, 11, vec!["b".to_string(), "a".to_string(), "b".to_string()]).unwrap();
    for id in 3..=8 {
        g.remove_node(id).unwrap();
    }
    {
        let props = &mut g.get_node_mut(12).unwrap().props;
        props.insert("z".to_string(), "1".to_string());
        props.insert("a".to_string(), "\"q\"".to_string());
        props.insert("B".to_string(), "".to_string());
    }
    let parts = [
        r#"{"edges":{"10":{"1":{"labels":[]}},"#,
        r#""2":{"10":{"labels":[]},"11":{"labels":["b","a","b"]},"9":{"labels":[]}}},"#,
        r#""nodes":{"1":{"id":1,"props":{}},"10":{"id":10,"props":{}},"11":{"id":11,"props":{}},"#,
        r#""12":{"id":12,"props":{"B":"","a":"\"q\"","z":"1"}},"#,
        r#""2":{"id":2,"props":{}},"9":{"id":9,"props":{}}}}"#,
    ];
    let want = parts.join("");
    let want = want.as_str();
    assert_eq!(g.to_text(), want);
    let back = Graph::from_text(want).unwrap();
    assert!(back == g);
    assert_eq!(back.to_text(), want);
}

#[test]
fn negative_ids_round_trip() {
    let mut g = Graph::new();
    g.load_node(-5, graph_store::Node { id: -5, props: graph_store::Props::new() });
    g.load_node(0, graph_store::Node { id: 0, props: graph_store::Props::new() });
    g.connect_nodes(-5, 0, vec!["n".to_string()]).unwrap();
    let text = g.to_text();
    assert_eq!(
        text,
        r#"{"edges":{"-5":{"0":{"labels":["n"]}}},"nodes":{"-5":{"id":-5,"props":{}},"0":{"id":0,"props":{}}}}"#
    );
    let mut back = Graph::from_text(&text).unwrap();
    assert!(back == g);
    assert_eq!(back.add_node(), 1);
}

#[test]
fn loaded_ids_are_not_handed_out_again() {
    let mut g = Graph::from_text(EXPECTED).unwrap();
    assert_eq!(g.add_node(), 4);
    assert_eq!(g.add_node(), 5);
    let tree = obj(vec![("nodes", obj(vec![("10", node(10)), ("9", node(9))])), ("edges", obj(vec![]))]);
    let mut g = Graph::from_json(tree).unwrap();
    assert_eq!(g.add_node(), 11);
}

#[test]
fn loaded_graph_keeps_its_index() {
    let mut g = Graph::from_text(EXPECTED).unwrap();
    assert_eq!(g.predecessors_of(2), vec![1]);
    assert_eq!(g.predecessors_of(1), vec![2]);
    assert_eq!(g.predecessors_of(3), vec![2]);
    g.remove_node(3).unwrap();
    assert_eq!(g.are_connected(1, 2), Ok(true));
    assert_eq!(g.are_connected(2, 1), Ok(true));
    assert!(g.get_node(3).is_none());
    assert_eq!(
        g.to_text(),
        r#"{"edges":{"1":{"2":{"labels":["hello","hi"]}},"2":{"1":{"labels":[]}}},"nodes":{"1":{"id":1,"props":{}},"2":{"id":2,"props":{}}}}"#
    );
}

#[test]
fn text_may_be_laid_out_freely() {
    let text = "  {\n \"nodes\" : { \"2\": {\"props\": {\"k\": \"v\"}, \"id\": 2, \"more\": null},\n \"1\": {\"id\":1,\"props\":{}} },\n\t\"edges\": {\"2\": {\"1\": {\"labels\": [ \"x\" ], \"weight\": 1.5}}}, \"version\": 3 } ";
    let g = Graph::from_text(text).unwrap();
    assert_eq!(g.are_connected(2, 1), Ok(true));
    assert_eq!(g.get_node(2).unwrap().props.get("k"), Some(&"v".to_string()));
    assert_eq!(
        g.to_text(),
        r#"{"edges":{"2":{"1":{"labels":["x"]}}},"nodes":{"1":{"id":1,"props":{}},"2":{"id":2,"props":{"k":"v"}}}}"#
    );
}

#[test]
fn id_is_taken_as_the_tree_gives_it() {
    let tree = obj(vec![("nodes", obj(vec![("1", node(7))])), ("edges", obj(vec![]))]);
    let g = Graph::from_json(tree).unwrap();
    assert_eq!(g.get_node(1).unwrap().id, 7);
    assert!(g.get_node(7).is_none());
    let tree = obj(vec![
        ("nodes", obj(vec![("1", obj(vec![("id", Tree::U64(1)), ("props", obj(vec![]))]))])),
        ("edges", obj(vec![])),
    ]);
    assert_eq!(Graph::from_json(tree).unwrap().get_node(1).unwrap().id, 1);
}

#[test]
fn later_member_under_the_same_id_counts() {
    let tree = obj(vec![
        ("nodes", obj(vec![("1", node(1)), ("+1", node(5)), ("2", node(2))])),
        (
            "edges",
            obj(vec![
                ("1", obj(vec![("2", edge(&["a"])), ("02", edge(&["b"]))])),
                ("01", obj(vec![("1", edge(&["c"]))])),
            ]),
        ),
        ("edges", obj(vec![("2", obj(vec![("1", edge(&["d"]))]))])),
    ]);
    let g = Graph::from_json(tree).unwrap();
    assert_eq!(g.get_node(1).unwrap().id, 5);
    assert_eq!(g.are_connected(2, 1), Ok(true));
    assert_eq!(g.are_connected(1, 2), Ok(false));
    let tree = obj(vec![
        ("nodes", two_nodes()),
        ("edges", obj(vec![("1", obj(vec![("2", edge(&["a"])), ("02", edge(&["b"]))]))])),
    ]);
    let g = Graph::from_json(tree).unwrap();
    assert_eq!(g.get_edge(1, 2).unwrap().labels, vec!["b".to_string()]);
}

#[test]
fn root_that_is_no_object() {
    assert_eq!(failure(Tree::Null), parse_error(ParseReason::WrongShape));
    assert_eq!(failure(Tree::Array(vec![])), parse_error(ParseReason::WrongShape));
    assert_eq!(failure(text("graph")), parse_error(ParseReason::WrongShape));
    assert_eq!(Graph::from_text("[]").err(), parse_error(ParseReason::WrongShape));
}

#[test]
fn missing_fields() {
    assert_eq!(failure(obj(vec![])), parse_error(ParseReason::MissingField));
    assert_eq!(failure(obj(vec![("edges", obj(vec![]))])), parse_error(ParseReason::MissingField));
    assert_eq!(failure(obj(vec![("nodes", obj(vec![]))])), parse_error(ParseReason::MissingField));
    let no_id = obj(vec![("props", obj(vec![]))]);
    let no_props = obj(vec![("id", Tree::I64(1))]);
    for bad in [no_id, no_props] {
        let tree = obj(vec![("nodes", obj(vec![("1", bad)])), ("edges", obj(vec![]))]);
        assert_eq!(failure(tree), parse_error(ParseReason::MissingField));
    }
    let tree = obj(vec![
        ("nodes", two_nodes()),
        ("edges", obj(vec![("1", obj(vec![("2", obj(vec![("label", Tree::Array(vec![]))]))]))])),
    ]);
    assert_eq!(failure(tree), parse_error(ParseReason::MissingField));
}

#[test]
fn keys_that_are_no_ids() {
    for key in ["", "x", "1.0", " 1", "2147483648", "1e3"] {
        let tree = obj(vec![("nodes", obj(vec![(key, node(1))])), ("edges", obj(vec![]))]);
        assert_eq!(failure(tree), parse_error(ParseReason::InvalidKey), "{:?}", key);
        let tree = obj(vec![("nodes", two_nodes()), ("edges", obj(vec![(key, obj(vec![]))]))]);
        assert_eq!(failure(tree), parse_error(ParseReason::InvalidKey), "{:?}", key);
        let tree = obj(vec![
            ("nodes", two_nodes()),
            ("edges", obj(vec![("1", obj(vec![(key, edge(&[]))]))])),
        ]);
        assert_eq!(failure(tree), parse_error(ParseReason::InvalidKey), "{:?}", key);
    }
}

#[test]
fn values_of_the_wrong_shape() {
    let with_nodes = |nodes: Tree| obj(vec![("nodes", nodes), ("edges", obj(vec![]))]);
    let with_node = |node: Tree| obj(vec![("nodes", obj(vec![("1", node)])), ("edges", obj(vec![]))]);
    let with_id = |id: Tree| with_node(obj(vec![("id", id), ("props", obj(vec![]))]));
    let with_props = |props: Tree| with_node(obj(vec![("id", Tree::I64(1)), ("props", props)]));
    let with_edges = |edges: Tree| obj(vec![("nodes", two_nodes()), ("edges", edges)]);
    let with_edge = |edge: Tree| with_edges(obj(vec![("1", obj(vec![("2", edge)]))]));
    let with_labels = |labels: Tree| with_edge(obj(vec![("labels", labels)]));
    let bad = vec![
        with_nodes(Tree::Array(vec![])),
        with_nodes(Tree::Null),
        with_node(Tree::I64(1)),
        with_node(Tree::Array(vec![])),
        with_id(text("1")),
        with_id(Tree::Real),
        with_id(Tree::Null),
        with_id(Tree::I64(2147483648)),
        with_id(Tree::I64(-2147483649)),
        with_id(Tree::U64(2147483648)),
        with_props(Tree::Array(vec![])),
        with_props(text("")),
        with_props(obj(vec![("k", Tree::I64(1))])),
        with_props(obj(vec![("k", text("v")), ("l", Tree::Null)])),
        with_props(obj(vec![("k", obj(vec![]))])),
        with_edges(Tree::Array(vec![])),
        with_edges(obj(vec![("1", Tree::Array(vec![]))])),
        with_edges(obj(vec![("1", text("2"))])),
        with_edge(Tree::Array(vec![])),
        with_edge(Tree::Boolean(true)),
        with_labels(text("a")),
        with_labels(obj(vec![])),
        with_labels(Tree::Array(vec![text("a"), Tree::I64(1)])),
        with_labels(Tree::Array(vec![Tree::Array(vec![])])),
    ];
    for (i, tree) in bad.into_iter().enumerate() {
        assert_eq!(failure(tree), parse_error(ParseReason::WrongShape), "case {}", i);
    }
    let good = vec![
        with_id(Tree::I64(2147483647)),
        with_id(Tree::I64(-2147483648)),
        with_id(Tree::U64(2147483647)),
        with_props(obj(vec![("k", text("v")), ("k", text("w"))])),
        with_labels(Tree::Array(vec![text("a"), text("a")])),
    ];
    for (i, tree) in good.into_iter().enumerate() {
        assert!(Graph::from_json(tree).is_ok(), "case {}", i);
    }
}

#[test]
fn edges_between_unknown_nodes() {
    let with_edges = |edges: Tree| obj(vec![("nodes", two_nodes()), ("edges", edges)]);
    let tree = with_edges(obj(vec![("3", obj(vec![("1", edge(&[]))]))]));
    assert_eq!(failure(tree), Some(GraphError::NodeNotFound { id: 3 }));
    let tree = with_edges(obj(vec![("1", obj(vec![("4", edge(&[]))]))]));
    assert_eq!(failure(tree), Some(GraphError::NodeNotFound { id: 4 }));
    let tree = with_edges(obj(vec![("5", obj(vec![("6", edge(&[]))]))]));
    assert_eq!(failure(tree), Some(GraphError::NodeNotFound { id: 5 }));
    let tree = with_edges(obj(vec![
        ("1", obj(vec![("2", edge(&[])), ("7", edge(&[]))])),
        ("8", obj(vec![("1", edge(&[]))])),
    ]));
    assert_eq!(failure(tree), Some(GraphError::NodeNotFound { id: 7 }));
    let tree = with_edges(obj(vec![("9", obj(vec![]))]));
    assert!(Graph::from_json(tree).is_ok());
}

#[test]
fn the_first_defect_decides() {
    let tree = obj(vec![("nodes", obj(vec![("x", Tree::Null), ("1", Tree::Null)]))]);
    assert_eq!(failure(tree), parse_error(ParseReason::InvalidKey));
    let tree = obj(vec![("nodes", obj(vec![("1", Tree::Null), ("x", Tree::Null)]))]);
    assert_eq!(failure(tree), parse_error(ParseReason::WrongShape));
    let tree = obj(vec![("edges", Tree::Null), ("nodes", obj(vec![("1", obj(vec![]))]))]);
    assert_eq!(failure(tree), parse_error(ParseReason::MissingField));
    let tree = obj(vec![
        ("nodes", two_nodes()),
        ("edges", obj(vec![("3", obj(vec![("1", edge(&[]))])), ("x", obj(vec![]))])),
    ]);
    assert_eq!(failure(tree), parse_error(ParseReason::InvalidKey));
    let tree = obj(vec![("nodes", obj(vec![("1", obj(vec![("id", text("1"))]))])), ("edges", obj(vec![]))]);
    assert_eq!(failure(tree), parse_error(ParseReason::WrongShape));
}

#[test]
fn text_is_read_as_a_tree() {
    let tree = Tree::from_str(r#" {"b": [1, -2, 1.5, "x\n", true, null], "a": {}} "#).unwrap();
    let want = obj(vec![
        ("a", obj(vec![])),
        (
            "b",
            Tree::Array(vec![
                Tree::U64(1),
                Tree::I64(-2),
                Tree::Real,
                text("x\n"),
                Tree::Boolean(true),
                Tree::Null,
            ]),
        ),
    ]);
    assert_eq!(format!("{:?}", tree), format!("{:?}", want));
}

#[test]
fn text_that_is_no_json_is_no_tree() {
    for bad in ["", "{", "{\"a\":}", "[1,]", "nul", "{\"a\":1}x", "'a'", "01"] {
        assert_eq!(
            Tree::from_str(bad).err(),
            Some(GraphError::ParseError { reason: ParseReason::Syntax }),
            "{:?}",
            bad
        );
    }
}

#[test]
fn tree_is_written_as_text() {
    let tree = obj(vec![
        ("b", Tree::Array(vec![Tree::U64(1), Tree::I64(-2), Tree::Real])),
        ("a", text("x\n\"y\"")),
        ("c", Tree::Array(vec![Tree::Boolean(false), Tree::Null, Tree::I64(7)])),
        ("b", Tree::Null),
    ]);
    assert_eq!(tree.to_string(), r#"{"a":"x\n\"y\"","b":null,"c":[false,null,7]}"#);
    assert_eq!(Tree::Real.to_string(), "null");
    assert_eq!(Tree::Array(vec![Tree::Real, Tree::U64(2)]).to_string(), "[null,2]");
    assert_eq!(text("").to_string(), "\"\"");
}

#[test]
fn written_text_is_read_back() {
    let text = r#"{"a":[1,-2,"x",true,null,{"k":[]}],"b":{}}"#;
    assert_eq!(Tree::from_str(text).unwrap().to_string(), text);
    let text = r#"[1.5,2e3,-0.25E-2,3]"#;
    assert_eq!(Tree::from_str(text).unwrap().to_string(), "[null,null,null,3]");
}

#[test]
fn tree_round_trip() {
    let mut g = sample();
    let id4 = g.add_node();
    g.connect_nodes(id4, id4, vec!["self".to_string()]).unwrap();
    g.connect_nodes(3, id4, vec!["a".to_string(), "a".to_string()]).unwrap();
    g.remove_node(2).unwrap();
    {
        let node = g.get_node_mut(1).unwrap();
        node.id = 40;
        node.props.insert("name".to_string(), "first \u{e9}".to_string());
        node.props.insert("".to_string(), "empty key".to_string());
    }
    let back = Graph::from_json(g.to_json()).unwrap();
    assert!(back == g);
    assert_eq!(back.get_node(1).unwrap().id, 40);
    assert_eq!(back.get_edge(3, id4).unwrap().labels, vec!["a".to_string(), "a".to_string()]);
    assert_eq!(format!("{:?}", back.to_json()), format!("{:?}", g.to_json()));
    let again = Graph::decode(&back.to_json()).unwrap();
    assert!(again == g);
}

#[test]
fn node_and_edge_trees() {
    let mut g = Graph::new();
    let id = g.add_node();
    g.get_node_mut(id).unwrap().props.insert("k".to_string(), "v".to_string());
    g.connect_nodes(id, id, vec!["x".to_string(), "y".to_string()]).unwrap();
    assert_eq!(g.get_node(id).unwrap().to_json().to_string(), r#"{"id":1,"props":{"k":"v"}}"#);
    assert_eq!(g.get_edge(id, id).unwrap().to_json().to_string(), r#"{"labels":["x","y"]}"#);
}

#[test]
fn many_nodes_are_written_in_order() {
    let mut g = Graph::new();
    for _ in 0..20000 {
        g.add_node();
    }
    for id in 1..20000 {
        g.connect_nodes(id, id + 1, vec![]).unwrap();
        g.connect_nodes(1, id + 1, vec![]).unwrap();
    }
    let tree = g.to_json();
    let members = match &tree {
        Tree::Object(members) => members,
        other => panic!("{:?}", other),
    };
    for (_, table) in members {
        match table {
            Tree::Object(rows) => {
                assert!(rows.len() >= 19999);
                assert!(rows.windows(2).all(|w| w[0].0 < w[1].0));
            }
            other => panic!("{:?}", other),
        }
    }
    let back = Graph::from_json(tree).unwrap();
    assert!(back == g);
}
