//! Association lists that are kept in rising key order.

use crate::lex::{lemma_text_lt_irreflexive, lemma_text_lt_transitive, rank, text_lt, Rank};
use crate::pairs::{
    holds_key, keys_distinct, keys_rising, lemma_rising_distinct, lemma_to_map_all,
    lemma_to_map_insert, lemma_to_map_remove, lemma_to_map_update, to_map,
};
use vstd::prelude::*;

verus! {

/// The keys of `entries` stand in strictly rising order.
pub open spec fn rising<V>(entries: Seq<(String, V)>) -> bool {
    forall|i: int, j: int|
        0 <= i < j < entries.len() ==> text_lt(#[trigger] entries[i].0@, #[trigger] entries[j].0@)
}

/// `key` is the key of one of `entries`.
pub open spec fn has_key<V>(entries: Seq<(String, V)>, key: Seq<char>) -> bool {
    exists|i: int| 0 <= i < entries.len() && (#[trigger] entries[i]).0@ == key
}

/// `at` is where `key` belongs in `entries`: what stands before it is
/// smaller, what stands from it on is greater.
pub open spec fn is_gap<V>(entries: Seq<(String, V)>, key: Seq<char>, at: int) -> bool {
    &&& 0 <= at <= entries.len()
    &&& forall|j: int| 0 <= j < at ==> text_lt((#[trigger] entries[j]).0@, key)
    &&& forall|j: int| at <= j < entries.len() ==> text_lt(key, (#[trigger] entries[j]).0@)
}

/// A key that belongs in a gap is the key of no entry.
pub proof fn lemma_gap_absent<V>(entries: Seq<(String, V)>, key: Seq<char>, at: int)
    requires
        is_gap(entries, key, at),
    ensures
        !has_key(entries, key),
{
    lemma_text_lt_irreflexive(key);
}

/// The entries as pairs of key text and value view.
pub open spec fn views<V: View>(entries: Seq<(String, V)>) -> Seq<(Seq<char>, V::V)> {
    Seq::new(entries.len(), |i: int| (entries[i].0@, entries[i].1@))
}

/// The views of a rising list have rising, and so distinct, keys.
pub proof fn lemma_views_rising<V: View>(entries: Seq<(String, V)>)
    requires
        rising(entries),
    ensures
        keys_rising(views(entries)),
        keys_distinct(views(entries)),
{
    let t = views(entries);
    assert forall|i: int, j: int| 0 <= i < j < t.len() implies text_lt(
        (#[trigger] t[i]).0,
        (#[trigger] t[j]).0,
    ) by {
        assert(t[i].0 == entries[i].0@ && t[j].0 == entries[j].0@);
    }
    lemma_rising_distinct(t);
}

/// A key is held by the views of a list exactly if it is held by the list.
pub proof fn lemma_views_keys<V: View>(entries: Seq<(String, V)>, key: Seq<char>)
    ensures
        holds_key(views(entries), key) <==> has_key(entries, key),
{
    let t = views(entries);
    if holds_key(t, key) {
        let j = choose|j: int| 0 <= j < t.len() && (#[trigger] t[j]).0 == key;
        assert(entries[j].0@ == key);
    }
    if has_key(entries, key) {
        let j = choose|j: int| 0 <= j < entries.len() && (#[trigger] entries[j]).0@ == key;
        assert(t[j].0 == key);
    }
}

/// Finds `key` in a rising list: `Ok` with its index, or `Err` with the index
/// at which an entry under that key belongs.
pub fn locate<V>(entries: &Vec<(String, V)>, key: &str) -> (r: Result<usize, usize>)
    requires
        rising(entries@),
    ensures
        match r {
            Ok(i) => i < entries@.len() && entries@[i as int].0@ == key@,
            Err(i) => is_gap(entries@, key@, i as int),
        },
{
    let mut lo: usize = 0;
    let mut hi: usize = entries.len();
    while lo < hi
        invariant
            rising(entries@),
            lo <= hi <= entries@.len(),
            forall|j: int| 0 <= j < lo ==> text_lt((#[trigger] entries@[j]).0@, key@),
            forall|j: int| hi <= j < entries@.len() ==> text_lt(key@, (#[trigger] entries@[j]).0@),
        decreases hi - lo,
    {
        let mid = lo + (hi - lo) / 2;
        match rank(entries[mid].0.as_str(), key) {
            Rank::Same => {
                return Ok(mid);
            },
            Rank::Before => {
                proof {
                    assert forall|j: int| 0 <= j < mid + 1 implies text_lt(
                        (#[trigger] entries@[j]).0@,
                        key@,
                    ) by {
                        if j < mid {
                            lemma_text_lt_transitive(entries@[j].0@, entries@[mid as int].0@, key@);
                        }
                    }
                }
                lo = mid + 1;
            },
            Rank::After => {
                proof {
                    assert forall|j: int| mid <= j < entries@.len() implies text_lt(
                        key@,
                        (#[trigger] entries@[j]).0@,
                    ) by {
                        if j > mid {
                            lemma_text_lt_transitive(key@, entries@[mid as int].0@, entries@[j].0@);
                        }
                    }
                }
                hi = mid;
            },
        }
    }
    Err(lo)
}

/// Puts `value` under `key` in a rising list and keeps the order. An entry
/// that stood under the key is replaced, and its value is handed back.
pub fn put<V: View>(entries: &mut Vec<(String, V)>, key: String, value: V) -> (r: Option<V>)
    requires
        rising(old(entries)@),
    ensures
        rising(final(entries)@),
        to_map(views(final(entries)@)) == to_map(views(old(entries)@)).insert(key@, value@),
        match r {
            Some(v) => to_map(views(old(entries)@)).contains_key(key@) && v@ == to_map(
                views(old(entries)@),
            )[key@],
            None => !to_map(views(old(entries)@)).contains_key(key@),
        },
{
    let ghost before = entries@;
    let ghost p = views(before);
    proof {
        lemma_views_rising(before);
        lemma_to_map_all(p);
        lemma_views_keys(before, key@);
    }
    match locate(entries, key.as_str()) {
        Ok(i) => {
            entries.push((key, value));
            let replaced = entries.swap_remove(i);
            proof {
                assert(entries@ =~= before.update(i as int, (key, value)));
                assert forall|a: int, b: int| 0 <= a < b < entries@.len() implies text_lt(
                    #[trigger] entries@[a].0@,
                    #[trigger] entries@[b].0@,
                ) by {
                    assert(entries@[a].0@ == before[a].0@);
                    assert(entries@[b].0@ == before[b].0@);
                }
                assert(p[i as int].0 == key@);
                lemma_to_map_update(p, i as int, value@);
                assert(views(entries@) =~= p.update(i as int, (p[i as int].0, value@)));
            }
            Some(replaced.1)
        },
        Err(i) => {
            entries.insert(i, (key, value));
            proof {
                assert forall|a: int, b: int| 0 <= a < b < entries@.len() implies text_lt(
                    #[trigger] entries@[a].0@,
                    #[trigger] entries@[b].0@,
                ) by {
                    if b < i {
                        assert(entries@[a] == before[a] && entries@[b] == before[b]);
                    } else if b == i {
                        assert(entries@[a] == before[a]);
                    } else if a < i {
                        assert(entries@[a] == before[a] && entries@[b] == before[b - 1]);
                    } else if a == i {
                        assert(entries@[b] == before[b - 1]);
                    } else {
                        assert(entries@[a] == before[a - 1] && entries@[b] == before[b - 1]);
                    }
                }
                lemma_gap_absent(before, key@, i as int);
                lemma_to_map_insert(p, i as int, (key@, value@));
                assert(views(entries@) =~= p.insert(i as int, (key@, value@)));
            }
            None
        },
    }
}

/// Takes the entry under `key` out of a rising list, if there is one, and
/// hands its value back.
pub fn take<V: View>(entries: &mut Vec<(String, V)>, key: &str) -> (r: Option<V>)
    requires
        rising(old(entries)@),
    ensures
        rising(final(entries)@),
        to_map(views(final(entries)@)) == to_map(views(old(entries)@)).remove(key@),
        match r {
            Some(v) => to_map(views(old(entries)@)).contains_key(key@) && v@ == to_map(
                views(old(entries)@),
            )[key@],
            None => !to_map(views(old(entries)@)).contains_key(key@),
        },
{
    let ghost before = entries@;
    let ghost p = views(before);
    proof {
        lemma_views_rising(before);
        lemma_to_map_all(p);
        lemma_views_keys(before, key@);
    }
    match locate(entries, key) {
        Ok(i) => {
            let removed = entries.remove(i);
            proof {
                assert forall|a: int, b: int| 0 <= a < b < entries@.len() implies text_lt(
                    #[trigger] entries@[a].0@,
                    #[trigger] entries@[b].0@,
                ) by {
                    let a0 = if a < i { a } else { a + 1 };
                    let b0 = if b < i { b } else { b + 1 };
                    assert(entries@[a] == before[a0] && entries@[b] == before[b0]);
                }
                assert(p[i as int].0 == key@);
                lemma_to_map_remove(p, i as int);
                assert(views(entries@) =~= p.remove(i as int));
            }
            Some(removed.1)
        },
        Err(i) => {
            proof {
                lemma_gap_absent(before, key@, i as int);
                assert(to_map(p).remove(key@) =~= to_map(p));
            }
            None
        },
    }
}

/// The value under `key` in a rising list, if there is one.
pub fn find<'a, V: View>(entries: &'a Vec<(String, V)>, key: &str) -> (r: Option<&'a V>)
    requires
        rising(entries@),
    ensures
        match r {
            Some(v) => to_map(views(entries@)).contains_key(key@) && v@ == to_map(
                views(entries@),
            )[key@],
            None => !to_map(views(entries@)).contains_key(key@),
        },
{
    proof {
        lemma_views_rising(entries@);
        lemma_to_map_all(views(entries@));
        lemma_views_keys(entries@, key@);
    }
    match locate(entries, key) {
        Ok(i) => {
            assert(views(entries@)[i as int].0 == key@);
            Some(&entries[i].1)
        },
        Err(i) => {
            proof {
                lemma_gap_absent(entries@, key@, i as int);
            }
            None
        },
    }
}

} // verus!
