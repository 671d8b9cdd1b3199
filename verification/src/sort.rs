//! Sorting of a list of entries by their keys.

use crate::entries::{lemma_views_rising, rising, views};
use crate::lex::{lemma_text_lt_transitive, rank, text_lt, Rank};
use crate::pairs::{keys_distinct, lemma_same_pairs_same_map, to_map};
use vstd::prelude::*;

verus! {

/// No two entries of the list have the same key.
pub open spec fn distinct<V>(entries: Seq<(String, V)>) -> bool {
    forall|i: int, j: int|
        0 <= i < j < entries.len() ==> (#[trigger] entries[i]).0@ != (#[trigger] entries[j]).0@
}

/// No entry of the one list has the key of an entry of the other.
pub open spec fn apart<V>(a: Seq<(String, V)>, b: Seq<(String, V)>) -> bool {
    forall|i: int, j: int|
        0 <= i < a.len() && 0 <= j < b.len() ==> (#[trigger] a[i]).0@ != (#[trigger] b[j]).0@
}

/// The two lists hold the same entries.
pub open spec fn same_entries<V>(a: Seq<(String, V)>, b: Seq<(String, V)>) -> bool {
    &&& a.len() == b.len()
    &&& forall|i: int| 0 <= i < a.len() ==> b.contains(#[trigger] a[i])
    &&& forall|j: int| 0 <= j < b.len() ==> a.contains(#[trigger] b[j])
}

/// The list from its end to its start.
fn reversed<V>(list: Vec<(String, V)>) -> (r: Vec<(String, V)>)
    ensures
        r@.len() == list@.len(),
        forall|k: int| 0 <= k < r@.len() ==> #[trigger] r@[k] == list@[list@.len() - 1 - k],
{
    let mut rest = list;
    let mut out: Vec<(String, V)> = Vec::new();
    while rest.len() > 0
        invariant
            rest@.len() + out@.len() == list@.len(),
            forall|k: int| 0 <= k < rest@.len() ==> #[trigger] rest@[k] == list@[k],
            forall|k: int| 0 <= k < out@.len() ==> #[trigger] out@[k] == list@[list@.len() - 1 - k],
        decreases rest@.len(),
    {
        if let Some(entry) = rest.pop() {
            out.push(entry);
        }
    }
    out
}

/// Merges two rising lists that share no key into one rising list.
fn merge<V>(a: Vec<(String, V)>, b: Vec<(String, V)>) -> (r: Vec<(String, V)>)
    requires
        rising(a@),
        rising(b@),
        apart(a@, b@),
    ensures
        rising(r@),
        r@.len() == a@.len() + b@.len(),
        forall|i: int| 0 <= i < a@.len() ==> r@.contains(#[trigger] a@[i]),
        forall|j: int| 0 <= j < b@.len() ==> r@.contains(#[trigger] b@[j]),
        forall|k: int| 0 <= k < r@.len() ==> a@.contains(#[trigger] r@[k]) || b@.contains(r@[k]),
{
    let mut x = reversed(a);
    let mut y = reversed(b);
    let mut out: Vec<(String, V)> = Vec::new();
    while x.len() > 0 || y.len() > 0
        invariant
            rising(a@),
            rising(b@),
            apart(a@, b@),
            x@.len() <= a@.len(),
            y@.len() <= b@.len(),
            forall|k: int| 0 <= k < x@.len() ==> #[trigger] x@[k] == a@[a@.len() - 1 - k],
            forall|k: int| 0 <= k < y@.len() ==> #[trigger] y@[k] == b@[b@.len() - 1 - k],
            out@.len() == (a@.len() - x@.len()) + (b@.len() - y@.len()),
            rising(out@),
            forall|k: int|
                0 <= k < out@.len() && x@.len() > 0 ==> text_lt(
                    (#[trigger] out@[k]).0@,
                    a@[a@.len() - x@.len()].0@,
                ),
            forall|k: int|
                0 <= k < out@.len() && y@.len() > 0 ==> text_lt(
                    (#[trigger] out@[k]).0@,
                    b@[b@.len() - y@.len()].0@,
                ),
            forall|i: int| 0 <= i < a@.len() - x@.len() ==> out@.contains(#[trigger] a@[i]),
            forall|j: int| 0 <= j < b@.len() - y@.len() ==> out@.contains(#[trigger] b@[j]),
            forall|k: int|
                0 <= k < out@.len() ==> a@.contains(#[trigger] out@[k]) || b@.contains(out@[k]),
        decreases x@.len() + y@.len(),
    {
        let ghost i = a@.len() - x@.len();
        let ghost j = b@.len() - y@.len();
        let ghost before = out@;
        let from_a = if x.len() == 0 {
            false
        } else if y.len() == 0 {
            true
        } else {
            assert(x@[x@.len() - 1] == a@[i]);
            assert(y@[y@.len() - 1] == b@[j]);
            match rank(x[x.len() - 1].0.as_str(), y[y.len() - 1].0.as_str()) {
                Rank::Before => true,
                _ => false,
            }
        };
        if from_a {
            assert(x@[x@.len() - 1] == a@[i]);
            if let Some(entry) = x.pop() {
                out.push(entry);
            }
            proof {
                lemma_pushed(before, out@, a@[i]);
                assert forall|k: int| 0 <= k < out@.len() && x@.len() > 0 implies text_lt(
                    (#[trigger] out@[k]).0@,
                    a@[a@.len() - x@.len()].0@,
                ) by {
                    if k < before.len() {
                        assert(out@[k] == before[k]);
                        lemma_text_lt_transitive(before[k].0@, a@[i].0@, a@[i + 1].0@);
                    }
                }
                assert forall|k: int| 0 <= k < out@.len() && y@.len() > 0 implies text_lt(
                    (#[trigger] out@[k]).0@,
                    b@[b@.len() - y@.len()].0@,
                ) by {
                    if k < before.len() {
                        assert(out@[k] == before[k]);
                    }
                }
                assert forall|m: int| 0 <= m < a@.len() - x@.len() implies out@.contains(
                    #[trigger] a@[m],
                ) by {
                    if m < i {
                        assert(before.contains(a@[m]));
                    }
                }
                assert forall|m: int| 0 <= m < b@.len() - y@.len() implies out@.contains(
                    #[trigger] b@[m],
                ) by {
                    assert(before.contains(b@[m]));
                }
                assert forall|k: int| 0 <= k < out@.len() implies a@.contains(#[trigger] out@[k])
                    || b@.contains(out@[k]) by {
                    if k < before.len() {
                        assert(out@[k] == before[k]);
                    } else {
                        assert(a@[i] == out@[k]);
                    }
                }
            }
        } else {
            assert(y@[y@.len() - 1] == b@[j]);
            proof {
                if x@.len() > 0 {
                    assert(a@[i].0@ != b@[j].0@);
                }
            }
            if let Some(entry) = y.pop() {
                out.push(entry);
            }
            proof {
                lemma_pushed(before, out@, b@[j]);
                assert forall|k: int| 0 <= k < out@.len() && y@.len() > 0 implies text_lt(
                    (#[trigger] out@[k]).0@,
                    b@[b@.len() - y@.len()].0@,
                ) by {
                    if k < before.len() {
                        assert(out@[k] == before[k]);
                        lemma_text_lt_transitive(before[k].0@, b@[j].0@, b@[j + 1].0@);
                    }
                }
                assert forall|k: int| 0 <= k < out@.len() && x@.len() > 0 implies text_lt(
                    (#[trigger] out@[k]).0@,
                    a@[a@.len() - x@.len()].0@,
                ) by {
                    if k < before.len() {
                        assert(out@[k] == before[k]);
                    }
                }
                assert forall|m: int| 0 <= m < b@.len() - y@.len() implies out@.contains(
                    #[trigger] b@[m],
                ) by {
                    if m < j {
                        assert(before.contains(b@[m]));
                    }
                }
                assert forall|m: int| 0 <= m < a@.len() - x@.len() implies out@.contains(
                    #[trigger] a@[m],
                ) by {
                    assert(before.contains(a@[m]));
                }
                assert forall|k: int| 0 <= k < out@.len() implies a@.contains(#[trigger] out@[k])
                    || b@.contains(out@[k]) by {
                    if k < before.len() {
                        assert(out@[k] == before[k]);
                    } else {
                        assert(b@[j] == out@[k]);
                    }
                }
            }
        }
    }
    out
}

/// A rising list with an entry at its end whose key is above the others is
/// rising, and holds what it held and that entry.
proof fn lemma_pushed<V>(before: Seq<(String, V)>, after: Seq<(String, V)>, entry: (String, V))
    requires
        rising(before),
        after == before.push(entry),
        forall|k: int| 0 <= k < before.len() ==> text_lt((#[trigger] before[k]).0@, entry.0@),
    ensures
        rising(after),
        after.contains(entry),
        forall|e: (String, V)| before.contains(e) ==> after.contains(e),
{
    assert forall|i: int, j: int| 0 <= i < j < after.len() implies text_lt(
        #[trigger] after[i].0@,
        #[trigger] after[j].0@,
    ) by {
        assert(after[i] == before[i]);
        if j < before.len() {
            assert(after[j] == before[j]);
        }
    }
    assert(after[before.len() as int] == entry);
    assert forall|e: (String, V)| before.contains(e) implies after.contains(e) by {
        let k = choose|k: int| 0 <= k < before.len() && before[k] == e;
        assert(after[k] == e);
    }
}

/// Puts the entries of a list in the rising order of their keys.
pub fn sort<V>(entries: Vec<(String, V)>) -> (r: Vec<(String, V)>)
    requires
        distinct(entries@),
    ensures
        rising(r@),
        same_entries(r@, entries@),
    decreases entries@.len(),
{
    if entries.len() <= 1 {
        proof {
            assert forall|i: int| 0 <= i < entries@.len() implies entries@.contains(
                #[trigger] entries@[i],
            ) by {}
        }
        return entries;
    }
    let mut left = entries;
    let half = left.len() / 2;
    let right = left.split_off(half);
    proof {
        assert forall|i: int, j: int| 0 <= i < j < left@.len() implies (#[trigger] left@[i]).0@
            != (#[trigger] left@[j]).0@ by {
            assert(left@[i] == entries@[i] && left@[j] == entries@[j]);
        }
        assert forall|i: int, j: int| 0 <= i < j < right@.len() implies (#[trigger] right@[i]).0@
            != (#[trigger] right@[j]).0@ by {
            assert(right@[i] == entries@[half + i] && right@[j] == entries@[half + j]);
        }
    }
    let ghost first = left@;
    let ghost second = right@;
    let left = sort(left);
    let right = sort(right);
    proof {
        assert forall|i: int, j: int|
            0 <= i < left@.len() && 0 <= j < right@.len() implies (#[trigger] left@[i]).0@ != (
        #[trigger] right@[j]).0@ by {
            assert(first.contains(left@[i]));
            assert(second.contains(right@[j]));
            let m = choose|m: int| 0 <= m < first.len() && first[m] == left@[i];
            let n = choose|n: int| 0 <= n < second.len() && second[n] == right@[j];
            assert(first[m] == entries@[m] && second[n] == entries@[half + n]);
        }
    }
    let out = merge(left, right);
    proof {
        assert forall|k: int| 0 <= k < out@.len() implies entries@.contains(#[trigger] out@[k]) by {
            if left@.contains(out@[k]) {
                let m = choose|m: int| 0 <= m < left@.len() && left@[m] == out@[k];
                assert(first.contains(left@[m]));
                let n = choose|n: int| 0 <= n < first.len() && first[n] == out@[k];
                assert(entries@[n] == out@[k]);
            } else {
                let m = choose|m: int| 0 <= m < right@.len() && right@[m] == out@[k];
                assert(second.contains(right@[m]));
                let n = choose|n: int| 0 <= n < second.len() && second[n] == out@[k];
                assert(entries@[half + n] == out@[k]);
            }
        }
        assert forall|k: int| 0 <= k < entries@.len() implies out@.contains(
            #[trigger] entries@[k],
        ) by {
            if k < half {
                assert(first[k] == entries@[k]);
                assert(left@.contains(first[k]));
                let m = choose|m: int| 0 <= m < left@.len() && left@[m] == entries@[k];
                assert(out@.contains(left@[m]));
            } else {
                assert(second[k - half] == entries@[k]);
                assert(right@.contains(second[k - half]));
                let m = choose|m: int| 0 <= m < right@.len() && right@[m] == entries@[k];
                assert(out@.contains(right@[m]));
            }
        }
    }
    out
}

/// A list in rising order that holds the entries of a list with distinct
/// keys writes the same map.
pub proof fn lemma_sorted_same_map<V: View>(sorted: Seq<(String, V)>, entries: Seq<(String, V)>)
    requires
        rising(sorted),
        distinct(entries),
        same_entries(sorted, entries),
    ensures
        to_map(views(sorted)) == to_map(views(entries)),
{
    let p = views(sorted);
    let q = views(entries);
    lemma_views_rising(sorted);
    assert(keys_distinct(q)) by {
        assert forall|i: int, j: int|
            0 <= i < q.len() && 0 <= j < q.len() && i != j implies (#[trigger] q[i]).0 != (
        #[trigger] q[j]).0 by {
            if i < j {
                assert(entries[i].0@ != entries[j].0@);
            } else {
                assert(entries[j].0@ != entries[i].0@);
            }
        }
    }
    assert forall|i: int| 0 <= i < p.len() implies q.contains(#[trigger] p[i]) by {
        assert(entries.contains(sorted[i]));
        let j = choose|j: int| 0 <= j < entries.len() && entries[j] == sorted[i];
        assert(q[j] == p[i]);
    }
    assert forall|j: int| 0 <= j < q.len() implies p.contains(#[trigger] q[j]) by {
        assert(sorted.contains(entries[j]));
        let i = choose|i: int| 0 <= i < sorted.len() && sorted[i] == entries[j];
        assert(p[i] == q[j]);
    }
    lemma_same_pairs_same_map(p, q);
}

} // verus!
