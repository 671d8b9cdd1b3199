use graph_store::decimal::{id_text, parse_id};
use graph_store::lex::{rank, Rank};

#[test]
fn id_text_writes_decimal() {
    assert_eq!(id_text(0), "0");
    assert_eq!(id_text(7), "7");
    assert_eq!(id_text(10), "10");
    assert_eq!(id_text(1203), "1203");
    assert_eq!(id_text(-1), "-1");
    assert_eq!(id_text(-450), "-450");
    assert_eq!(id_text(i32::MAX), "2147483647");
    assert_eq!(id_text(i32::MIN), "-2147483648");
}

#[test]
fn parse_id_reads_decimal() {
    assert_eq!(parse_id("0"), Some(0));
    assert_eq!(parse_id("42"), Some(42));
    assert_eq!(parse_id("-42"), Some(-42));
    assert_eq!(parse_id("+42"), Some(42));
    assert_eq!(parse_id("007"), Some(7));
    assert_eq!(parse_id("-0"), Some(0));
    assert_eq!(parse_id("2147483647"), Some(i32::MAX));
    assert_eq!(parse_id("-2147483648"), Some(i32::MIN));
    assert_eq!(parse_id("0000000000000000000000012"), Some(12));
}

#[test]
fn parse_id_rejects_what_is_no_id() {
    assert_eq!(parse_id(""), None);
    assert_eq!(parse_id("-"), None);
    assert_eq!(parse_id("+"), None);
    assert_eq!(parse_id("1a"), None);
    assert_eq!(parse_id("a1"), None);
    assert_eq!(parse_id(" 1"), None);
    assert_eq!(parse_id("1 "), None);
    assert_eq!(parse_id("1-"), None);
    assert_eq!(parse_id("--1"), None);
    assert_eq!(parse_id("1.0"), None);
    assert_eq!(parse_id("١"), None);
    assert_eq!(parse_id("2147483648"), None);
    assert_eq!(parse_id("-2147483649"), None);
    assert_eq!(parse_id("99999999999999999999999"), None);
    assert_eq!(parse_id("-99999999999999999999999"), None);
}

#[test]
fn parse_id_agrees_with_std() {
    for text in ["5", "+5", "-5", "05", "", "x", "4294967296", "-2147483648", "+-1", "1_0"] {
        assert_eq!(parse_id(text), text.parse::<i32>().ok(), "{}", text);
    }
}

#[test]
fn id_text_is_read_back() {
    for id in [0, 1, -1, 9, 10, 99, 100, -100, 123456789, i32::MAX, i32::MIN] {
        assert_eq!(parse_id(&id_text(id)), Some(id));
        assert_eq!(id_text(id), id.to_string());
    }
}

#[test]
fn rank_is_the_byte_order() {
    assert_eq!(rank("a", "b"), Rank::Before);
    assert_eq!(rank("b", "a"), Rank::After);
    assert_eq!(rank("a", "a"), Rank::Same);
    assert_eq!(rank("", ""), Rank::Same);
    assert_eq!(rank("", "a"), Rank::Before);
    assert_eq!(rank("a", ""), Rank::After);
    assert_eq!(rank("ab", "abc"), Rank::Before);
    assert_eq!(rank("10", "2"), Rank::Before);
    assert_eq!(rank("-1", "1"), Rank::Before);
    assert_eq!(rank("Z", "a"), Rank::Before);
    assert_eq!(rank("z", "é"), Rank::Before);
    assert_eq!(rank("é", "e"), Rank::After);
}

#[test]
fn rank_agrees_with_std() {
    let texts = ["", "a", "ab", "b", "10", "2", "é", "e\u{301}", "\u{10000}", "\u{ffff}", "Z"];
    for a in texts {
        for b in texts {
            let want = match a.cmp(b) {
                std::cmp::Ordering::Less => Rank::Before,
                std::cmp::Ordering::Equal => Rank::Same,
                std::cmp::Ordering::Greater => Rank::After,
            };
            assert_eq!(rank(a, b), want, "{:?} {:?}", a, b);
        }
    }
}
