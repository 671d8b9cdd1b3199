use graph_store::screen::{is_readable, screen};
use graph_store::{Graph, GraphError, ParseReason, Tree};

fn oversize() -> Option<GraphError> {
    Some(GraphError::ParseError { reason: ParseReason::Oversize })
}

fn syntax() -> Option<GraphError> {
    Some(GraphError::ParseError { reason: ParseReason::Syntax })
}

fn nested(depth: usize) -> String {
    format!("{}{}", "[".repeat(depth), "]".repeat(depth))
}

fn keyed(lengths: &[usize]) -> String {
    let mut text = String::new();
    for n in lengths {
        text.push_str(&format!("{{\"{}\":", "k".repeat(*n)));
    }
    text.push('1');
    text.push_str(&"}".repeat(lengths.len()));
    text
}

#[test]
fn ordinary_texts_are_readable() {
    for text in ["", "1", "{}", "[1, 2]", "{\"a\": {\"b\": [true, false, null]}}", "1e5", "-2.5E-3", "}"] {
        assert!(is_readable(text), "{:?}", text);
    }
}

#[test]
fn nesting_is_read_up_to_the_limit() {
    assert!(is_readable(&nested(128)));
    assert!(Tree::from_str(&nested(128)).is_ok());
    assert!(!is_readable(&nested(129)));
    assert_eq!(Tree::from_str(&nested(129)).err(), oversize());
    assert_eq!(Graph::from_text(&nested(1000)).err(), oversize());
    let mixed = format!("{}1{}", "{\"a\":[".repeat(64), "]}".repeat(64));
    assert!(Tree::from_str(&mixed).is_ok());
    let mixed = format!("{}1{}", "{\"a\":[".repeat(65), "]}".repeat(65));
    assert_eq!(Tree::from_str(&mixed).err(), oversize());
    let wide = format!("[{}[]]", "[],".repeat(1000));
    assert!(Tree::from_str(&wide).is_ok());
    assert!(is_readable(&"]".repeat(500)));
}

#[test]
fn exponents_are_read_up_to_the_limit() {
    assert!(is_readable("1e123456789"));
    assert!(is_readable("1e+123456789"));
    assert!(is_readable("1E-000000001"));
    assert!(Tree::from_str("1E-000000001").is_ok());
    assert!(Tree::from_str("[1e0005, 2e3]").is_ok());
    assert!(!is_readable("1e1234567890"));
    assert!(!is_readable("1e-0000000001"));
    assert_eq!(Tree::from_str("1e99999999999999999999999999").err(), oversize());
    assert_eq!(Tree::from_str("[0, 1E+0000000000]").err(), oversize());
    assert!(is_readable("[\"e99999999999999999999999999\"]"));
    assert!(Tree::from_str("[\"1e99999999999999999999999999\"]").is_ok());
    assert!(is_readable("[12345678901234567890, 1e1, 12345678901234567890]"));
}

#[test]
fn keys_are_read_up_to_the_limit() {
    let text = keyed(&[65535]);
    assert!(is_readable(&text));
    match Tree::from_str(&text).unwrap() {
        Tree::Object(members) => {
            assert_eq!(members.len(), 1);
            assert_eq!(members[0].0, "k".repeat(65535));
        }
        other => panic!("{:?}", other),
    }
    assert!(!is_readable(&keyed(&[65536])));
    assert_eq!(Tree::from_str(&keyed(&[65536])).err(), oversize());
    assert_eq!(Tree::from_str(&keyed(&[70000])).err(), oversize());
}

#[test]
fn keys_of_nested_objects_count_together() {
    let text = keyed(&[30000, 30000, 5535]);
    assert!(is_readable(&text));
    let mut tree = Tree::from_str(&text).unwrap();
    for n in [30000, 30000, 5535] {
        tree = match tree {
            Tree::Object(mut members) => {
                assert_eq!(members[0].0.len(), n);
                members.remove(0).1
            }
            other => panic!("{:?}", other),
        };
    }
    assert_eq!(Tree::from_str(&keyed(&[30000, 30000, 5536])).err(), oversize());
    assert_eq!(Tree::from_str(&keyed(&[40000, 30000])).err(), oversize());
    let side_by_side = format!("{{\"{}\":1,\"{}\":2}}", "a".repeat(40000), "b".repeat(40000));
    assert!(Tree::from_str(&side_by_side).is_ok());
    let after_closing = format!("[{},{}]", keyed(&[40000]), keyed(&[40000]));
    assert!(Tree::from_str(&after_closing).is_ok());
}

#[test]
fn long_values_are_read() {
    let text = format!("{{\"k\":\"{}\"}}", "v".repeat(200000));
    assert!(Tree::from_str(&text).is_ok());
    let text = format!("[\"{}\"]", "\\\"".repeat(100000));
    assert!(Tree::from_str(&text).is_ok());
    let text = format!("{{\"k\":\"{}\", \"l\": 1}}", "x\\\\\\\"".repeat(20000));
    assert!(Tree::from_str(&text).is_ok());
}

#[test]
fn large_graph_is_read_back() {
    let mut g = Graph::new();
    for _ in 0..300 {
        g.add_node();
    }
    for id in 1..300 {
        g.connect_nodes(id, id + 1, vec!["next".to_string(), "e1234567890123".to_string()]).unwrap();
        g.connect_nodes(id + 1, 1, vec![]).unwrap();
    }
    g.get_node_mut(5).unwrap().props.insert("note".to_string(), "n".repeat(100000));
    let text = g.to_text();
    assert!(text.len() > 100000);
    let back = Graph::from_text(&text).unwrap();
    assert!(back == g);
}

fn next(seed: &mut u64) -> u64 {
    *seed = seed.wrapping_mul(6364136223846793005).wrapping_add(1442695040888963407);
    *seed >> 33
}

#[test]
fn jumbled_texts_are_read_or_refused() {
    let pieces = [
        "{", "}", "[", "]", "\"", ":", ",", "\\", " ", "\n", "e", "E", "+", "-", ".", "0", "1", "9",
        "a", "u", "\\u00e9", "\\ud83d\\ude00", "true", "null", "\"k\":", "{\"id\":1}", "é", "1e5",
    ];
    let mut seed = 7;
    let mut read = 0;
    for _ in 0..20000 {
        let n = next(&mut seed) % 24;
        let mut text = String::new();
        for _ in 0..n {
            text.push_str(pieces[(next(&mut seed) % pieces.len() as u64) as usize]);
        }
        let tree = Tree::from_str(&text);
        match screen(&text) {
            Some(reason) => {
                assert!(!is_readable(&text));
                assert_eq!(tree.as_ref().err(), Some(&GraphError::ParseError { reason }));
            }
            None => {
                assert!(is_readable(&text));
                assert_ne!(tree.as_ref().err(), oversize().as_ref(), "{:?}", text);
            }
        }
        if let Ok(tree) = tree {
            read += 1;
            let written = tree.to_string();
            let again = Tree::from_str(&written).unwrap();
            assert_eq!(again.to_string(), written, "{:?}", text);
        }
        let _ = Graph::from_text(&text);
    }
    assert!(read > 100);
}

#[test]
fn built_texts_are_read() {
    let mut seed = 11;
    for _ in 0..300 {
        let mut text = String::new();
        let mut open = Vec::new();
        let steps = 1 + next(&mut seed) % 200;
        for _ in 0..steps {
            let in_object = open.last() == Some(&'}');
            let key = format!("\"{}\":", "k".repeat((next(&mut seed) % 700) as usize));
            if in_object {
                text.push_str(&key);
            }
            match next(&mut seed) % 5 {
                0 if open.len() < 100 => {
                    text.push('{');
                    open.push('}');
                    continue;
                }
                1 if open.len() < 100 => {
                    text.push('[');
                    open.push(']');
                    continue;
                }
                2 => text.push_str("\"e1234567890\""),
                3 => text.push_str("-12.5e-7"),
                _ => text.push_str("7"),
            }
            while let Some(close) = open.pop() {
                text.push(close);
                if next(&mut seed) % 3 == 0 {
                    break;
                }
            }
            if open.is_empty() {
                break;
            }
            text.push(',');
        }
        let closed_all = open.is_empty();
        let tree = Tree::from_str(&text);
        if is_readable(&text) {
            assert_eq!(tree.is_ok(), closed_all, "{:?}", text);
        } else {
            assert_eq!(tree.err(), oversize());
        }
    }
}

#[test]
fn comma_before_a_closing_brace_is_refused() {
    let texts = [
        "[{\"x\":{\"a\":1,},\"k\":2}]",
        "{\"a\":1,}",
        "{\"x\":{\"a\":1,}}",
        "[{\"a\":1,}]",
        "[[{\"a\":1,}]]",
        "[[{\"a\":1,}],2",
        "{\"x\":{\"a\":1 , \n\t\r }, \"k\":2}",
        "{\"x\":[{\"a\":{},}],\"k\":[]}",
        "[{\"x\":{\"a\":[1],},\"k\":2},{\"y\":3}]",
        "{\"n\":{\"x\":{\"a\":1,},\"k\":2},\"m\":{}}",
        "[1,]",
        "[[1, ],2]",
        ",}",
        ", ]",
    ];
    for text in texts {
        assert_eq!(screen(text), Some(ParseReason::Syntax), "{:?}", text);
        assert!(!is_readable(text));
        assert_eq!(Tree::from_str(text).err(), syntax(), "{:?}", text);
        assert_eq!(Graph::from_text(text).err(), syntax(), "{:?}", text);
    }
}

#[test]
fn commas_elsewhere_are_read() {
    let texts = [
        "{\"a\":1,\"b\":2}",
        "[1 , 2]",
        "{\"a\":\",}\",\"b\":\", ]\"}",
        "[\",\", {} ]",
        "{\"a\":[\"x\\\",}\"]}",
        "[{\"x\":{\"a\":1},\"k\":2}]",
    ];
    for text in texts {
        assert_eq!(screen(text), None, "{:?}", text);
        assert!(Tree::from_str(text).is_ok(), "{:?}", text);
    }
    for text in [",", "[,1]", "{,\"a\":1}", "[1,,2]", "{\"a\":1,,\"b\":2}", "[ ,"] {
        assert_eq!(screen(text), None, "{:?}", text);
        assert_eq!(Tree::from_str(text).err(), syntax(), "{:?}", text);
    }
}

#[test]
fn the_first_stop_of_the_pass_decides() {
    let deep = nested(129);
    assert_eq!(screen(&format!("[1,]{}", deep)), Some(ParseReason::Syntax));
    assert_eq!(screen(&format!("{}[1,]", deep)), Some(ParseReason::Oversize));
    assert_eq!(screen("[1e1234567890,]"), Some(ParseReason::Oversize));
    assert_eq!(screen("[1,] 1e1234567890"), Some(ParseReason::Syntax));
}

fn value(seed: &mut u64, depth: usize, out: &mut Vec<String>) {
    let keys = ["\"a\"", "\"id\"", "\"k\\\"\"", "\"\"", "\"\\u00e9\"", "\"labels\""];
    match next(seed) % if depth > 5 { 6 } else { 10 } {
        0 => out.push("null".to_string()),
        1 => out.push("true".to_string()),
        2 => out.push(format!("{}", next(seed) % 1000)),
        3 => out.push(format!("-{}.5e{}", next(seed) % 10, next(seed) % 30)),
        4 => out.push("\"string, with } and ] and \\\" inside\"".to_string()),
        5 => out.push("\"\"".to_string()),
        6 | 7 => {
            out.push("{".to_string());
            let n = next(seed) % 4;
            for i in 0..n {
                if i > 0 {
                    out.push(",".to_string());
                }
                out.push(keys[(next(seed) % keys.len() as u64) as usize].to_string());
                out.push(":".to_string());
                value(seed, depth + 1, out);
            }
            out.push("}".to_string());
        }
        _ => {
            out.push("[".to_string());
            let n = next(seed) % 4;
            for i in 0..n {
                if i > 0 {
                    out.push(" , ".to_string());
                }
                value(seed, depth + 1, out);
            }
            out.push("]".to_string());
        }
    }
}

#[test]
fn damaged_texts_are_read_or_refused() {
    let extra = [",", "}", "]", "{", "[", "\"k\"", ":", " ", "\"", "1", "e5", "-", "null"];
    let mut seed = 23;
    let mut read = 0;
    let mut refused = 0;
    for round in 0..60000 {
        let mut tokens = Vec::new();
        value(&mut seed, 0, &mut tokens);
        assert!(Tree::from_str(&tokens.concat()).is_ok(), "{:?}", tokens);
        for _ in 0..round % 4 {
            let at = (next(&mut seed) % (tokens.len() as u64 + 1)) as usize;
            let piece = extra[(next(&mut seed) % extra.len() as u64) as usize].to_string();
            match next(&mut seed) % 4 {
                0 => tokens.insert(at, piece),
                1 if at < tokens.len() => {
                    tokens.remove(at);
                }
                2 if at < tokens.len() => tokens[at] = piece,
                _ if at + 1 < tokens.len() => tokens.swap(at, at + 1),
                _ => tokens.push(piece),
            }
        }
        let text = tokens.concat();
        let tree = Tree::from_str(&text);
        if let Some(reason) = screen(&text) {
            assert_eq!(tree.as_ref().err(), Some(&GraphError::ParseError { reason }));
            refused += 1;
        }
        if tree.is_ok() {
            read += 1;
        }
        let _ = Graph::from_text(&text);
    }
    assert!(read > 15000);
    assert!(refused > 100);
}

fn slip(seed: &mut u64) -> bool {
    next(seed) % 12 == 0
}

fn sloppy(seed: &mut u64, depth: usize, out: &mut String) {
    if slip(seed) {
        return;
    }
    match next(seed) % if depth > 6 { 4 } else { 9 } {
        0 => out.push_str("null"),
        1 => out.push_str("7"),
        2 => out.push_str("\"s\""),
        3 => out.push_str("-0.5e3"),
        4 | 5 | 6 => {
            out.push('{');
            let n = next(seed) % 4;
            for i in 0..n {
                if (i > 0) != slip(seed) {
                    out.push(',');
                }
                if slip(seed) {
                    out.push_str("1");
                } else {
                    out.push_str(["\"a\"", "\"b\"", "\"\""][(next(seed) % 3) as usize]);
                }
                if !slip(seed) {
                    out.push(':');
                }
                sloppy(seed, depth + 1, out);
            }
            if n > 0 && slip(seed) {
                out.push(',');
            }
            if !slip(seed) {
                out.push(if slip(seed) { ']' } else { '}' });
            }
            if slip(seed) {
                out.push('}');
            }
        }
        _ => {
            out.push('[');
            let n = next(seed) % 4;
            for i in 0..n {
                if (i > 0) != slip(seed) {
                    out.push(',');
                }
                sloppy(seed, depth + 1, out);
            }
            if n > 0 && slip(seed) {
                out.push(',');
            }
            if !slip(seed) {
                out.push(if slip(seed) { '}' } else { ']' });
            }
            if slip(seed) {
                out.push(']');
            }
        }
    }
}

#[test]
fn sloppy_texts_are_read_or_refused() {
    let mut seed = 31;
    let mut read = 0;
    let mut failed = 0;
    for _ in 0..150000 {
        let mut text = String::new();
        sloppy(&mut seed, 0, &mut text);
        let tree = Tree::from_str(&text);
        if let Some(reason) = screen(&text) {
            assert_eq!(tree.as_ref().err(), Some(&GraphError::ParseError { reason }));
        }
        match tree {
            Ok(_) => read += 1,
            Err(_) => failed += 1,
        }
    }
    assert!(read > 10000);
    assert!(failed > 10000);
}

#[test]
fn nesting_of_a_tree_is_told() {
    let mut tree = Tree::U64(1);
    assert!(tree.is_shallow(0));
    for depth in 1..=130usize {
        tree = if depth % 2 == 0 {
            Tree::Array(vec![Tree::Null, tree])
        } else {
            Tree::Object(vec![("k".to_string(), tree), ("l".to_string(), Tree::Null)])
        };
        assert!(tree.is_shallow(depth));
        assert!(tree.is_shallow(depth + 1));
        assert!(!tree.is_shallow(depth - 1));
    }
    assert!(Tree::Array(vec![]).is_shallow(1));
    assert!(!Tree::Object(vec![]).is_shallow(0));
    let read = Tree::from_str(&nested(128)).unwrap();
    assert!(read.is_shallow(128));
    assert!(!read.is_shallow(127));
    assert_eq!(read.to_string(), nested(128));
    assert!(Graph::new().to_json().is_shallow(2));
}
