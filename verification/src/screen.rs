//! What a text must keep to before it is handed to the JSON parser: how
//! deep it nests, how long the keys of nested objects are together, how long
//! an exponent is, and that no comma stands before a closing brace or
//! bracket.

use crate::error::ParseReason;
use vstd::prelude::*;
use vstd::utf8::encode_utf8;

verus! {

/// The greatest number of bytes of a text.
pub const MAX_BYTES: usize = 0x7fff_ffff;

/// The greatest number of objects and arrays that may be open at once.
pub const MAX_DEPTH: usize = 128;

/// The greatest number of bytes that the latest keys of the open objects
/// may have together.
pub const MAX_KEY_BYTES: usize = 0xffff;

/// The greatest number of digits of an exponent.
pub const MAX_EXPONENT_DIGITS: usize = 9;

/// The bytes that the pass tells apart, by their ASCII codes.
pub const QUOTE: u8 = 0x22;

pub const BACKSLASH: u8 = 0x5c;

pub const COLON: u8 = 0x3a;

pub const COMMA: u8 = 0x2c;

pub const OPEN_BRACE: u8 = 0x7b;

pub const CLOSE_BRACE: u8 = 0x7d;

pub const OPEN_BRACKET: u8 = 0x5b;

pub const CLOSE_BRACKET: u8 = 0x5d;

pub const SPACE: u8 = 0x20;

pub const LINE_FEED: u8 = 0x0a;

pub const TAB: u8 = 0x09;

pub const CARRIAGE_RETURN: u8 = 0x0d;

pub const DIGIT_0: u8 = 0x30;

pub const DIGIT_9: u8 = 0x39;

pub const SMALL_E: u8 = 0x65;

pub const CAPITAL_E: u8 = 0x45;

pub const PLUS: u8 = 0x2b;

pub const MINUS: u8 = 0x2d;

/// What a pass over the bytes of a text has seen so far.
pub struct Scan {
    /// No limit was passed.
    pub fits: bool,
    /// No comma stood before a closing brace or bracket.
    pub sound: bool,
    /// A comma came, and only blanks since.
    pub comma: bool,
    /// A string is open.
    pub in_string: bool,
    /// The byte before was a backslash that escapes this one.
    pub escaped: bool,
    /// The bytes of the string that is open, or of the one closed last.
    pub run: nat,
    /// A string was closed, and only blanks came since.
    pub closed: bool,
    /// For each open object or array, the bytes of its latest key.
    pub keys: Seq<nat>,
    /// Inside an exponent, the number of its digits so far.
    pub digits: Option<nat>,
}

/// The sum of the numbers.
pub open spec fn total(numbers: Seq<nat>) -> nat
    decreases numbers.len(),
{
    if numbers.len() == 0 {
        0
    } else {
        total(numbers.drop_last()) + numbers.last()
    }
}

/// Nothing seen yet.
pub open spec fn start() -> Scan {
    Scan {
        fits: true,
        sound: true,
        comma: false,
        in_string: false,
        escaped: false,
        run: 0,
        closed: false,
        keys: Seq::empty(),
        digits: None,
    }
}

/// A blank between the tokens of a text.
pub open spec fn is_blank(b: u8) -> bool {
    b == SPACE || b == LINE_FEED || b == TAB || b == CARRIAGE_RETURN
}

/// The digits of the exponent after the byte `b`, outside a string: `e`
/// opens an exponent, a sign may follow at once, digits are counted, and
/// anything else ends it.
pub open spec fn digits_after(digits: Option<nat>, b: u8) -> Option<nat> {
    if DIGIT_0 <= b <= DIGIT_9 {
        match digits {
            Some(n) => Some(n + 1),
            None => None,
        }
    } else if b == SMALL_E || b == CAPITAL_E {
        Some(0)
    } else if (b == PLUS || b == MINUS) && digits == Some(0nat) {
        Some(0)
    } else {
        None
    }
}

/// What the pass has seen after the byte `b`. Once a limit is passed, or a
/// comma stands before a closing brace or bracket, the pass looks no further.
pub open spec fn step(s: Scan, b: u8) -> Scan {
    if !s.fits || !s.sound {
        s
    } else if s.in_string {
        if s.escaped {
            Scan { escaped: false, run: s.run + 1, ..s }
        } else if b == BACKSLASH {
            Scan { escaped: true, run: s.run + 1, ..s }
        } else if b == QUOTE {
            Scan { in_string: false, closed: true, ..s }
        } else {
            Scan { run: s.run + 1, ..s }
        }
    } else {
        let digits = digits_after(s.digits, b);
        let short = match digits {
            Some(n) => n <= MAX_EXPONENT_DIGITS,
            None => true,
        };
        if b == QUOTE {
            Scan {
                fits: short,
                comma: false,
                in_string: true,
                escaped: false,
                run: 0,
                closed: false,
                digits,
                ..s
            }
        } else if is_blank(b) {
            Scan { fits: short, digits, ..s }
        } else if b == COMMA {
            Scan { fits: short, comma: true, closed: false, digits, ..s }
        } else if b == COLON {
            if s.closed && s.keys.len() > 0 {
                let keys = s.keys.update(s.keys.len() - 1, s.run);
                Scan {
                    fits: short && total(keys) <= MAX_KEY_BYTES,
                    comma: false,
                    closed: false,
                    keys,
                    digits,
                    ..s
                }
            } else {
                Scan { fits: short, comma: false, closed: false, digits, ..s }
            }
        } else if b == OPEN_BRACE || b == OPEN_BRACKET {
            let keys = s.keys.push(0);
            Scan {
                fits: short && keys.len() <= MAX_DEPTH,
                comma: false,
                closed: false,
                keys,
                digits,
                ..s
            }
        } else if b == CLOSE_BRACE || b == CLOSE_BRACKET {
            let keys = if s.keys.len() > 0 {
                s.keys.drop_last()
            } else {
                s.keys
            };
            Scan { fits: short, sound: !s.comma, comma: false, closed: false, keys, digits, ..s }
        } else {
            Scan { fits: short, comma: false, closed: false, digits, ..s }
        }
    }
}

/// What a pass over all of `bytes` has seen.
pub open spec fn scan(bytes: Seq<u8>) -> Scan
    decreases bytes.len(),
{
    if bytes.len() == 0 {
        start()
    } else {
        step(scan(bytes.drop_last()), bytes.last())
    }
}

/// Why the bytes are not handed to the parser, if they are not: `Oversize`
/// where they are too many or the pass comes upon a limit, `Syntax` where it
/// comes upon a comma before a closing brace or bracket. JSON has no such
/// comma.
pub open spec fn refusal_of(bytes: Seq<u8>) -> Option<ParseReason> {
    if bytes.len() > MAX_BYTES || !scan(bytes).fits {
        Some(ParseReason::Oversize)
    } else if !scan(bytes).sound {
        Some(ParseReason::Syntax)
    } else {
        None
    }
}

/// Why the text is not handed to the parser, if it is not.
pub open spec fn refusal(text: Seq<char>) -> Option<ParseReason> {
    refusal_of(encode_utf8(text))
}

/// The text can be handed to the parser.
pub open spec fn readable(text: Seq<char>) -> bool {
    refusal(text) is None
}

/// A pass that has stopped at a part of the bytes has seen the same after
/// all of them.
proof fn lemma_stopped_stays(bytes: Seq<u8>, upto: int)
    requires
        0 <= upto <= bytes.len(),
    ensures
        !scan(bytes.take(upto)).fits || !scan(bytes.take(upto)).sound ==> scan(bytes) == scan(
            bytes.take(upto),
        ),
    decreases bytes.len(),
{
    if upto < bytes.len() {
        let head = bytes.drop_last();
        assert(head.take(upto) =~= bytes.take(upto));
        lemma_stopped_stays(head, upto);
    } else {
        assert(bytes.take(upto) =~= bytes);
    }
}

/// A number put in place of the last one changes the sum by the difference.
proof fn lemma_total_update(numbers: Seq<nat>, value: nat)
    requires
        numbers.len() > 0,
    ensures
        total(numbers.update(numbers.len() - 1, value)) == total(numbers) - numbers.last() + value,
        total(numbers.push(value)) == total(numbers) + value,
        total(numbers.drop_last()) == total(numbers) - numbers.last(),
{
    let changed = numbers.update(numbers.len() - 1, value);
    assert(changed.drop_last() =~= numbers.drop_last());
    assert(numbers.push(value).drop_last() =~= numbers);
}

/// The numbers of a list of lengths.
pub open spec fn lengths(keys: Seq<usize>) -> Seq<nat> {
    Seq::new(keys.len(), |i: int| keys[i] as nat)
}

/// Why a text is not handed to the parser, if it is not.
pub fn screen(text: &str) -> (r: Option<ParseReason>)
    ensures
        r == refusal(text@),
{
    let bytes = text.as_bytes();
    if bytes.len() > MAX_BYTES {
        return Some(ParseReason::Oversize);
    }
    let mut in_string = false;
    let mut escaped = false;
    let mut closed = false;
    let mut comma = false;
    let mut run: usize = 0;
    let mut keys: Vec<usize> = Vec::new();
    let mut sum: usize = 0;
    let mut counting = false;
    let mut digits: usize = 0;
    let mut i: usize = 0;
    assert(lengths(keys@) =~= Seq::<nat>::empty());
    assert(bytes@.take(0) =~= Seq::<u8>::empty());
    while i < bytes.len()
        invariant
            bytes@ == encode_utf8(text@),
            bytes@.len() <= MAX_BYTES,
            i <= bytes@.len(),
            run <= i,
            keys@.len() <= MAX_DEPTH,
            sum == total(lengths(keys@)),
            sum <= MAX_KEY_BYTES,
            counting ==> digits <= MAX_EXPONENT_DIGITS,
            scan(bytes@.take(i as int)) == (Scan {
                fits: true,
                sound: true,
                comma,
                in_string,
                escaped,
                run: run as nat,
                closed,
                keys: lengths(keys@),
                digits: if counting {
                    Some(digits as nat)
                } else {
                    None
                },
            }),
        decreases bytes@.len() - i,
    {
        let b = bytes[i];
        proof {
            let head = bytes@.take(i + 1);
            assert(head.drop_last() =~= bytes@.take(i as int));
            assert(head.last() == b);
            lemma_stopped_stays(bytes@, i + 1);
        }
        if in_string {
            if escaped {
                escaped = false;
                run = run + 1;
            } else if b == BACKSLASH {
                escaped = true;
                run = run + 1;
            } else if b == QUOTE {
                in_string = false;
                closed = true;
            } else {
                run = run + 1;
            }
        } else {
            if DIGIT_0 <= b && b <= DIGIT_9 {
                if counting {
                    if digits == MAX_EXPONENT_DIGITS {
                        return Some(ParseReason::Oversize);
                    }
                    digits = digits + 1;
                }
            } else if b == SMALL_E || b == CAPITAL_E {
                counting = true;
                digits = 0;
            } else if (b == PLUS || b == MINUS) && counting && digits == 0 {
            } else {
                counting = false;
            }
            if b == QUOTE {
                in_string = true;
                escaped = false;
                run = 0;
                closed = false;
                comma = false;
            } else if b == SPACE || b == LINE_FEED || b == TAB || b == CARRIAGE_RETURN {
            } else if b == COMMA {
                comma = true;
                closed = false;
            } else if b == COLON {
                if closed && keys.len() > 0 {
                    let last = keys.len() - 1;
                    let before = keys[last];
                    proof {
                        lemma_total_update(lengths(keys@), run as nat);
                        assert(lengths(keys@).last() == before);
                    }
                    if run > MAX_KEY_BYTES || sum - before > MAX_KEY_BYTES - run {
                        assert(lengths(keys@).update(last as int, run as nat).len() > 0);
                        return Some(ParseReason::Oversize);
                    }
                    let ghost earlier = lengths(keys@);
                    sum = sum - before + run;
                    keys.pop();
                    keys.push(run);
                    assert(lengths(keys@) =~= earlier.update(last as int, run as nat));
                }
                closed = false;
                comma = false;
            } else if b == OPEN_BRACE || b == OPEN_BRACKET {
                if keys.len() == MAX_DEPTH {
                    return Some(ParseReason::Oversize);
                }
                let ghost earlier = lengths(keys@);
                keys.push(0);
                proof {
                    assert(lengths(keys@) =~= earlier.push(0));
                    assert(earlier.push(0).drop_last() =~= earlier);
                }
                closed = false;
                comma = false;
            } else if b == CLOSE_BRACE || b == CLOSE_BRACKET {
                if comma {
                    return Some(ParseReason::Syntax);
                }
                let ghost earlier = lengths(keys@);
                match keys.pop() {
                    Some(key) => {
                        proof {
                            assert(lengths(keys@) =~= earlier.drop_last());
                            assert(earlier.last() == key);
                        }
                        sum = sum - key;
                    },
                    None => {
                        assert(lengths(keys@) =~= earlier);
                    },
                }
                closed = false;
            } else {
                closed = false;
                comma = false;
            }
        }
        i = i + 1;
    }
    assert(bytes@.take(i as int) =~= bytes@);
    None
}

/// Whether a text can be handed to the parser.
pub fn is_readable(text: &str) -> (r: bool)
    ensures
        r == readable(text@),
{
    screen(text).is_none()
}

} // verus!
