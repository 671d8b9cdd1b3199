//! Node identifiers as decimal text, as they stand in object keys.

use vstd::prelude::*;
use vstd::string::StringExecFns;

verus! {

/// The character that writes the digit `d`.
pub open spec fn digit_char(d: int) -> char {
    if d == 0 {
        '0'
    } else if d == 1 {
        '1'
    } else if d == 2 {
        '2'
    } else if d == 3 {
        '3'
    } else if d == 4 {
        '4'
    } else if d == 5 {
        '5'
    } else if d == 6 {
        '6'
    } else if d == 7 {
        '7'
    } else if d == 8 {
        '8'
    } else {
        '9'
    }
}

/// The digit that `c` writes, if it writes one.
pub open spec fn digit_value(c: char) -> Option<int> {
    if c == '0' {
        Some(0int)
    } else if c == '1' {
        Some(1int)
    } else if c == '2' {
        Some(2int)
    } else if c == '3' {
        Some(3int)
    } else if c == '4' {
        Some(4int)
    } else if c == '5' {
        Some(5int)
    } else if c == '6' {
        Some(6int)
    } else if c == '7' {
        Some(7int)
    } else if c == '8' {
        Some(8int)
    } else if c == '9' {
        Some(9int)
    } else {
        None
    }
}

/// The digits of `n`, most significant first, without leading zeros.
pub open spec fn digits_of(n: nat) -> Seq<char>
    decreases n,
{
    if n < 10 {
        seq![digit_char(n as int)]
    } else {
        digits_of(n / 10).push(digit_char((n % 10) as int))
    }
}

/// The decimal text of `i`: a minus sign for a negative number, then its digits.
pub open spec fn decimal(i: int) -> Seq<char> {
    if i < 0 {
        seq!['-'] + digits_of((-i) as nat)
    } else {
        digits_of(i as nat)
    }
}

/// Every character of `s` is a digit.
pub open spec fn all_digits(s: Seq<char>) -> bool {
    forall|k: int| 0 <= k < s.len() ==> (#[trigger] digit_value(s[k])) is Some
}

/// The number that a run of digits writes; leading zeros are allowed.
pub open spec fn digits_value(s: Seq<char>) -> nat
    decreases s.len(),
{
    if s.len() == 0 {
        0
    } else {
        match digit_value(s.last()) {
            Some(d) => (digits_value(s.drop_last()) * 10 + d) as nat,
            None => 0,
        }
    }
}

/// The integer that `s` writes: an optional sign, then one digit or more.
pub open spec fn parsed_int(s: Seq<char>) -> Option<int> {
    if s.len() == 0 {
        None
    } else {
        let signed = s[0] == '-' || s[0] == '+';
        let body = if signed {
            s.skip(1)
        } else {
            s
        };
        if body.len() > 0 && all_digits(body) {
            if s[0] == '-' {
                Some(-(digits_value(body) as int))
            } else {
                Some(digits_value(body) as int)
            }
        } else {
            None
        }
    }
}

/// The identifier that the key `s` names, if it names one.
pub open spec fn parsed_id(s: Seq<char>) -> Option<i32> {
    match parsed_int(s) {
        Some(v) => if i32::MIN <= v <= i32::MAX {
            Some(v as i32)
        } else {
            None
        },
        None => None,
    }
}

/// The digits of a number are digits, and write that number.
pub proof fn lemma_digits_round_trip(n: nat)
    ensures
        digits_of(n).len() > 0,
        all_digits(digits_of(n)),
        digits_value(digits_of(n)) == n,
        digit_value(digits_of(n)[0]) is Some,
    decreases n,
{
    if n < 10 {
        let s = digits_of(n);
        assert(s.drop_last().len() == 0);
        assert(digits_value(s.drop_last()) == 0);
    } else {
        lemma_digits_round_trip(n / 10);
        let head = digits_of(n / 10);
        let s = digits_of(n);
        assert(s.drop_last() =~= head);
        assert(s.last() == digit_char((n % 10) as int));
        assert forall|k: int| 0 <= k < s.len() implies (#[trigger] digit_value(s[k])) is Some by {
            if k < head.len() {
                assert(s[k] == head[k]);
            }
        }
        assert(s[0] == head[0]);
    }
}

/// Reading the decimal text of an integer gives that integer back.
pub proof fn lemma_decimal_round_trip(i: int)
    ensures
        parsed_int(decimal(i)) == Some(i),
{
    if i < 0 {
        let n = (-i) as nat;
        lemma_digits_round_trip(n);
        let s = decimal(i);
        assert(s[0] == '-');
        assert(s.skip(1) =~= digits_of(n));
    } else {
        lemma_digits_round_trip(i as nat);
        let s = decimal(i);
        assert(s[0] != '-' && s[0] != '+');
    }
}

/// The one-character text of the digit `d`.
fn digit_str(d: u32) -> (r: &'static str)
    requires
        d < 10,
    ensures
        r@ == seq![digit_char(d as int)],
{
    proof {
        reveal_strlit("0");
        reveal_strlit("1");
        reveal_strlit("2");
        reveal_strlit("3");
        reveal_strlit("4");
        reveal_strlit("5");
        reveal_strlit("6");
        reveal_strlit("7");
        reveal_strlit("8");
        reveal_strlit("9");
    }
    let r = if d == 0 {
        "0"
    } else if d == 1 {
        "1"
    } else if d == 2 {
        "2"
    } else if d == 3 {
        "3"
    } else if d == 4 {
        "4"
    } else if d == 5 {
        "5"
    } else if d == 6 {
        "6"
    } else if d == 7 {
        "7"
    } else if d == 8 {
        "8"
    } else {
        "9"
    };
    assert(r@ =~= seq![digit_char(d as int)]);
    r
}

/// Appends the digits of `n` to `out`.
fn push_digits(n: u32, out: &mut String)
    ensures
        final(out)@ == old(out)@ + digits_of(n as nat),
    decreases n,
{
    if n >= 10 {
        push_digits(n / 10, out);
    }
    out.append(digit_str(n % 10));
    assert(out@ =~= old(out)@ + digits_of(n as nat));
}

/// The decimal text of an identifier.
pub fn id_text(id: i32) -> (r: String)
    ensures
        r@ == decimal(id as int),
{
    let mut out = String::new();
    if id < 0 {
        proof {
            reveal_strlit("-");
        }
        out.append("-");
        let magnitude: u32 = (0 - (id as i64)) as u32;
        push_digits(magnitude, &mut out);
        assert(out@ =~= decimal(id as int));
    } else {
        push_digits(id as u32, &mut out);
        assert(out@ =~= decimal(id as int));
    }
    out
}

/// The digit that `c` writes, if it writes one.
fn digit_of_char(c: char) -> (r: Option<u64>)
    ensures
        match r {
            Some(d) => digit_value(c) == Some(d as int) && d < 10,
            None => digit_value(c) is None,
        },
{
    if c == '0' {
        Some(0)
    } else if c == '1' {
        Some(1)
    } else if c == '2' {
        Some(2)
    } else if c == '3' {
        Some(3)
    } else if c == '4' {
        Some(4)
    } else if c == '5' {
        Some(5)
    } else if c == '6' {
        Some(6)
    } else if c == '7' {
        Some(7)
    } else if c == '8' {
        Some(8)
    } else if c == '9' {
        Some(9)
    } else {
        None
    }
}

/// A run of digits that continues keeps or raises the number it writes.
proof fn lemma_digits_value_grows(s: Seq<char>)
    requires
        s.len() > 0,
        digit_value(s.last()) is Some,
    ensures
        digits_value(s) == digits_value(s.drop_last()) * 10 + digit_value(s.last()).unwrap(),
        digits_value(s) >= digits_value(s.drop_last()),
{
}

/// Reads an identifier from its decimal text: an optional sign, then digits.
pub fn parse_id(text: &str) -> (r: Option<i32>)
    ensures
        r == parsed_id(text@),
{
    let mut first = true;
    let mut negative = false;
    let mut signed = false;
    let mut seen_digit = false;
    let mut bad = false;
    let mut over = false;
    let mut acc: u64 = 0;
    let ghost mut start: int = 0;
    let ghost mut bad_at: int = 0;
    for c in it: text.chars()
        invariant
            it.seq() == text@,
            first <==> it.index() == 0,
            signed <==> (it.index() > 0 && (text@[0] == '-' || text@[0] == '+')),
            negative <==> (it.index() > 0 && text@[0] == '-'),
            start == (if signed { 1int } else { 0int }),
            start <= it.index() || first,
            seen_digit ==> it.index() > start,
            !bad && it.index() > start ==> seen_digit,
            bad ==> start <= bad_at < it.index() && digit_value(text@[bad_at]) is None,
            !bad && !first ==> all_digits(text@.subrange(start, it.index())),
            !bad && !first && !over ==> acc == digits_value(
                text@.subrange(start, it.index()),
            ) && acc <= 0x8000_0000,
            !bad && !first && over ==> digits_value(text@.subrange(start, it.index()))
                > 0x8000_0000,
            first ==> acc == 0 && !over && !bad && !seen_digit,
    {
        let ghost i = it.index();
        if first && (c == '-' || c == '+') {
            negative = c == '-';
            signed = true;
            proof {
                start = 1;
                assert(text@.subrange(1, 1) =~= Seq::<char>::empty());
            }
        } else if !bad {
            let ghost before = text@.subrange(start, i);
            let ghost now = text@.subrange(start, i + 1);
            proof {
                if first {
                    assert(before =~= Seq::<char>::empty());
                }
                assert(now.drop_last() =~= before);
                assert(now.last() == c);
            }
            match digit_of_char(c) {
                Some(d) => {
                    seen_digit = true;
                    proof {
                        lemma_digits_value_grows(now);
                        assert forall|k: int| 0 <= k < now.len() implies (#[trigger] digit_value(
                            now[k],
                        )) is Some by {
                            if k < before.len() {
                                assert(now[k] == before[k]);
                            }
                        }
                    }
                    if !over {
                        let next: u64 = acc * 10 + d;
                        if next > 0x8000_0000 {
                            over = true;
                        } else {
                            acc = next;
                        }
                    }
                },
                None => {
                    bad = true;
                    proof {
                        bad_at = i;
                    }
                },
            }
        }
        first = false;
    }
    let ghost body = if signed {
        text@.skip(1)
    } else {
        text@
    };
    proof {
        if !first {
            assert(body =~= text@.subrange(start, text@.len() as int));
        }
        if bad {
            assert(body[bad_at - start] == text@[bad_at]);
        }
    }
    if bad || !seen_digit || over {
        None
    } else if negative {
        Some((0 - (acc as i64)) as i32)
    } else if acc > 0x7fff_ffff {
        None
    } else {
        Some(acc as i32)
    }
}

} // verus!
