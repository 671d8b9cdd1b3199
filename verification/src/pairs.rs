//! Lists of keyed values as the maps that they write.

use crate::lex::{
    lemma_text_lt_irreflexive, lemma_text_lt_total, lemma_text_lt_transitive, text_lt,
};
use vstd::prelude::*;

verus! {

/// The map that a list of pairs writes. Of two pairs under one key the later
/// one counts.
pub open spec fn to_map<T>(pairs: Seq<(Seq<char>, T)>) -> Map<Seq<char>, T>
    decreases pairs.len(),
{
    if pairs.len() == 0 {
        Map::empty()
    } else {
        to_map(pairs.drop_last()).insert(pairs.last().0, pairs.last().1)
    }
}

/// No two pairs of the list stand under the same key.
pub open spec fn keys_distinct<T>(pairs: Seq<(Seq<char>, T)>) -> bool {
    forall|i: int, j: int|
        0 <= i < pairs.len() && 0 <= j < pairs.len() && i != j ==> (#[trigger] pairs[i]).0
            != (#[trigger] pairs[j]).0
}

/// The keys of the list stand in strictly rising order.
pub open spec fn keys_rising<T>(pairs: Seq<(Seq<char>, T)>) -> bool {
    forall|i: int, j: int|
        0 <= i < j < pairs.len() ==> text_lt((#[trigger] pairs[i]).0, (#[trigger] pairs[j]).0)
}

/// One of the pairs stands under `key`.
pub open spec fn holds_key<T>(pairs: Seq<(Seq<char>, T)>, key: Seq<char>) -> bool {
    exists|i: int| 0 <= i < pairs.len() && (#[trigger] pairs[i]).0 == key
}

/// Rising keys are distinct keys.
pub proof fn lemma_rising_distinct<T>(pairs: Seq<(Seq<char>, T)>)
    requires
        keys_rising(pairs),
    ensures
        keys_distinct(pairs),
{
    assert forall|i: int, j: int|
        0 <= i < pairs.len() && 0 <= j < pairs.len() && i != j implies (#[trigger] pairs[i]).0
        != (#[trigger] pairs[j]).0 by {
        lemma_text_lt_irreflexive(pairs[i].0);
        if i < j {
            assert(text_lt(pairs[i].0, pairs[j].0));
        } else {
            assert(text_lt(pairs[j].0, pairs[i].0));
        }
    }
}

/// The written map holds exactly the keys of the list, and is finite.
pub proof fn lemma_to_map_dom<T>(pairs: Seq<(Seq<char>, T)>)
    ensures
        forall|k: Seq<char>| #[trigger] to_map(pairs).contains_key(k) <==> holds_key(pairs, k),
        to_map(pairs).dom().finite(),
    decreases pairs.len(),
{
    if pairs.len() > 0 {
        let head = pairs.drop_last();
        lemma_to_map_dom(head);
        assert forall|k: Seq<char>| to_map(pairs).contains_key(k) <==> holds_key(pairs, k) by {
            if holds_key(pairs, k) {
                let i = choose|i: int| 0 <= i < pairs.len() && (#[trigger] pairs[i]).0 == k;
                if i < head.len() {
                    assert(head[i].0 == k);
                    assert(holds_key(head, k));
                }
            }
            if to_map(pairs).contains_key(k) {
                if k == pairs.last().0 {
                    assert(pairs[pairs.len() - 1].0 == k);
                } else {
                    assert(holds_key(head, k));
                    let i = choose|i: int| 0 <= i < head.len() && (#[trigger] head[i]).0 == k;
                    assert(pairs[i].0 == k);
                }
            }
        }
    } else {
        assert forall|k: Seq<char>| to_map(pairs).contains_key(k) <==> holds_key(pairs, k) by {}
    }
}

/// Under distinct keys the written map gives each key the value of its pair.
pub proof fn lemma_to_map_at<T>(pairs: Seq<(Seq<char>, T)>, i: int)
    requires
        keys_distinct(pairs),
        0 <= i < pairs.len(),
    ensures
        to_map(pairs).contains_key(pairs[i].0),
        to_map(pairs)[pairs[i].0] == pairs[i].1,
    decreases pairs.len(),
{
    let head = pairs.drop_last();
    if i < pairs.len() - 1 {
        assert(keys_distinct(head)) by {
            assert forall|a: int, b: int|
                0 <= a < head.len() && 0 <= b < head.len() && a != b implies (#[trigger] head[a]).0
                != (#[trigger] head[b]).0 by {
                assert(head[a] == pairs[a] && head[b] == pairs[b]);
            }
        }
        lemma_to_map_at(head, i);
        assert(head[i] == pairs[i]);
        assert(pairs[i].0 != pairs[pairs.len() - 1].0);
    }
}

/// Two lists with distinct keys that hold the same pairs write the same map.
pub proof fn lemma_same_pairs_same_map<T>(p: Seq<(Seq<char>, T)>, q: Seq<(Seq<char>, T)>)
    requires
        keys_distinct(p),
        keys_distinct(q),
        forall|i: int| 0 <= i < p.len() ==> q.contains(#[trigger] p[i]),
        forall|j: int| 0 <= j < q.len() ==> p.contains(#[trigger] q[j]),
    ensures
        to_map(p) == to_map(q),
{
    lemma_to_map_dom(p);
    lemma_to_map_dom(q);
    assert forall|k: Seq<char>| to_map(p).contains_key(k) implies to_map(q).contains_key(k)
        && to_map(q)[k] == to_map(p)[k] by {
        assert(holds_key(p, k));
        let i = choose|i: int| 0 <= i < p.len() && (#[trigger] p[i]).0 == k;
        assert(q.contains(p[i]));
        let j = choose|j: int| 0 <= j < q.len() && q[j] == p[i];
        assert(q[j].0 == k);
        lemma_to_map_at(p, i);
        lemma_to_map_at(q, j);
    }
    assert forall|k: Seq<char>| to_map(q).contains_key(k) implies to_map(p).contains_key(k) by {
        assert(holds_key(q, k));
        let j = choose|j: int| 0 <= j < q.len() && (#[trigger] q[j]).0 == k;
        assert(p.contains(q[j]));
        let i = choose|i: int| 0 <= i < p.len() && p[i] == q[j];
        assert(p[i].0 == k);
    }
    assert(to_map(p) =~= to_map(q));
}

/// A list with distinct keys has as many pairs as its map has keys.
pub proof fn lemma_to_map_len<T>(pairs: Seq<(Seq<char>, T)>)
    requires
        keys_distinct(pairs),
    ensures
        to_map(pairs).dom().finite(),
        to_map(pairs).dom().len() == pairs.len(),
    decreases pairs.len(),
{
    lemma_to_map_dom(pairs);
    if pairs.len() > 0 {
        let head = pairs.drop_last();
        assert(keys_distinct(head)) by {
            assert forall|a: int, b: int|
                0 <= a < head.len() && 0 <= b < head.len() && a != b implies (#[trigger] head[a]).0
                != (#[trigger] head[b]).0 by {
                assert(head[a] == pairs[a] && head[b] == pairs[b]);
            }
        }
        lemma_to_map_len(head);
        lemma_to_map_dom(head);
        let k = pairs.last().0;
        if holds_key(head, k) {
            let i = choose|i: int| 0 <= i < head.len() && (#[trigger] head[i]).0 == k;
            assert(head[i] == pairs[i]);
            assert(pairs[i].0 == pairs[pairs.len() - 1].0);
        }
        assert(!to_map(head).dom().contains(k));
        assert(to_map(pairs).dom() =~= to_map(head).dom().insert(k));
    } else {
        assert(to_map(pairs).dom() =~= Set::<Seq<char>>::empty());
    }
}

/// Under distinct keys: the map holds the keys of the list, each with the
/// value of its pair.
pub proof fn lemma_to_map_all<T>(pairs: Seq<(Seq<char>, T)>)
    requires
        keys_distinct(pairs),
    ensures
        forall|k: Seq<char>| #[trigger] to_map(pairs).contains_key(k) <==> holds_key(pairs, k),
        forall|i: int|
            0 <= i < pairs.len() ==> to_map(pairs).contains_key((#[trigger] pairs[i]).0) && to_map(
                pairs,
            )[pairs[i].0] == pairs[i].1,
{
    lemma_to_map_dom(pairs);
    assert forall|i: int| 0 <= i < pairs.len() implies to_map(pairs).contains_key(
        (#[trigger] pairs[i]).0,
    ) && to_map(pairs)[pairs[i].0] == pairs[i].1 by {
        lemma_to_map_at(pairs, i);
    }
}

/// A pair under a new key, put anywhere into the list, adds that key to the map.
pub proof fn lemma_to_map_insert<T>(pairs: Seq<(Seq<char>, T)>, at: int, pair: (Seq<char>, T))
    requires
        keys_distinct(pairs),
        !holds_key(pairs, pair.0),
        0 <= at <= pairs.len(),
    ensures
        keys_distinct(pairs.insert(at, pair)),
        to_map(pairs.insert(at, pair)) == to_map(pairs).insert(pair.0, pair.1),
{
    let after = pairs.insert(at, pair);
    assert forall|i: int, j: int|
        0 <= i < after.len() && 0 <= j < after.len() && i != j implies (#[trigger] after[i]).0
        != (#[trigger] after[j]).0 by {
        let i0 = if i < at { i } else { i - 1 };
        let j0 = if j < at { j } else { j - 1 };
        if i != at {
            assert(after[i] == pairs[i0]);
        }
        if j != at {
            assert(after[j] == pairs[j0]);
        }
    }
    lemma_to_map_all(pairs);
    lemma_to_map_all(after);
    let want = to_map(pairs).insert(pair.0, pair.1);
    assert forall|k: Seq<char>| to_map(after).contains_key(k) implies want.contains_key(k)
        && want[k] == to_map(after)[k] by {
        assert(holds_key(after, k));
        let i = choose|i: int| 0 <= i < after.len() && (#[trigger] after[i]).0 == k;
        if i != at {
            let i0 = if i < at { i } else { i - 1 };
            assert(after[i] == pairs[i0]);
            assert(pairs[i0].0 == k);
        }
    }
    assert forall|k: Seq<char>| want.contains_key(k) implies to_map(after).contains_key(k) by {
        if k == pair.0 {
            assert(after[at].0 == k);
        } else {
            assert(holds_key(pairs, k));
            let i = choose|i: int| 0 <= i < pairs.len() && (#[trigger] pairs[i]).0 == k;
            let i1 = if i < at { i } else { i + 1 };
            assert(after[i1] == pairs[i]);
            assert(after[i1].0 == k);
        }
    }
    assert(to_map(after) =~= want);
}

/// A new value under the key of a pair of the list changes that key in the map.
pub proof fn lemma_to_map_update<T>(pairs: Seq<(Seq<char>, T)>, at: int, value: T)
    requires
        keys_distinct(pairs),
        0 <= at < pairs.len(),
    ensures
        keys_distinct(pairs.update(at, (pairs[at].0, value))),
        to_map(pairs.update(at, (pairs[at].0, value))) == to_map(pairs).insert(pairs[at].0, value),
{
    let key = pairs[at].0;
    let after = pairs.update(at, (key, value));
    assert forall|i: int, j: int|
        0 <= i < after.len() && 0 <= j < after.len() && i != j implies (#[trigger] after[i]).0
        != (#[trigger] after[j]).0 by {
        assert(after[i].0 == pairs[i].0);
        assert(after[j].0 == pairs[j].0);
    }
    lemma_to_map_all(pairs);
    lemma_to_map_all(after);
    let want = to_map(pairs).insert(key, value);
    assert forall|k: Seq<char>| to_map(after).contains_key(k) implies want.contains_key(k)
        && want[k] == to_map(after)[k] by {
        assert(holds_key(after, k));
        let i = choose|i: int| 0 <= i < after.len() && (#[trigger] after[i]).0 == k;
        assert(after[i].0 == pairs[i].0);
        if i != at {
            assert(after[i] == pairs[i]);
        }
    }
    assert forall|k: Seq<char>| want.contains_key(k) implies to_map(after).contains_key(k) by {
        if k == key {
            assert(after[at].0 == k);
        } else {
            assert(holds_key(pairs, k));
            let i = choose|i: int| 0 <= i < pairs.len() && (#[trigger] pairs[i]).0 == k;
            assert(after[i].0 == k);
        }
    }
    assert(to_map(after) =~= want);
}

/// A pair taken out of the list takes its key out of the map.
pub proof fn lemma_to_map_remove<T>(pairs: Seq<(Seq<char>, T)>, at: int)
    requires
        keys_distinct(pairs),
        0 <= at < pairs.len(),
    ensures
        keys_distinct(pairs.remove(at)),
        to_map(pairs.remove(at)) == to_map(pairs).remove(pairs[at].0),
{
    let key = pairs[at].0;
    let after = pairs.remove(at);
    assert forall|i: int, j: int|
        0 <= i < after.len() && 0 <= j < after.len() && i != j implies (#[trigger] after[i]).0
        != (#[trigger] after[j]).0 by {
        let i0 = if i < at { i } else { i + 1 };
        let j0 = if j < at { j } else { j + 1 };
        assert(after[i] == pairs[i0] && after[j] == pairs[j0]);
    }
    lemma_to_map_all(pairs);
    lemma_to_map_all(after);
    let want = to_map(pairs).remove(key);
    assert forall|k: Seq<char>| to_map(after).contains_key(k) implies want.contains_key(k)
        && want[k] == to_map(after)[k] by {
        assert(holds_key(after, k));
        let i = choose|i: int| 0 <= i < after.len() && (#[trigger] after[i]).0 == k;
        let i0 = if i < at { i } else { i + 1 };
        assert(after[i] == pairs[i0]);
        assert(pairs[i0].0 == k);
    }
    assert forall|k: Seq<char>| want.contains_key(k) implies to_map(after).contains_key(k) by {
        assert(holds_key(pairs, k));
        let i = choose|i: int| 0 <= i < pairs.len() && (#[trigger] pairs[i]).0 == k;
        let i1 = if i < at { i } else { i - 1 };
        assert(after[i1] == pairs[i]);
        assert(after[i1].0 == k);
    }
    assert(to_map(after) =~= want);
}

/// A map is written by one list with rising keys only.
pub proof fn lemma_rising_unique<T>(p: Seq<(Seq<char>, T)>, q: Seq<(Seq<char>, T)>)
    requires
        keys_rising(p),
        keys_rising(q),
        to_map(p) == to_map(q),
    ensures
        p == q,
    decreases p.len(),
{
    lemma_rising_distinct(p);
    lemma_rising_distinct(q);
    lemma_to_map_len(p);
    lemma_to_map_len(q);
    if p.len() == 0 {
        assert(p =~= q);
    } else {
        let hp = p.drop_last();
        let hq = q.drop_last();
        let kp = p.last().0;
        let kq = q.last().0;
        lemma_to_map_all(p);
        lemma_to_map_all(q);
        assert(to_map(q).contains_key(kp)) by {
            assert(p[p.len() - 1].0 == kp);
        }
        assert(to_map(p).contains_key(kq)) by {
            assert(q[q.len() - 1].0 == kq);
        }
        assert(holds_key(q, kp));
        assert(holds_key(p, kq));
        let j = choose|j: int| 0 <= j < q.len() && (#[trigger] q[j]).0 == kp;
        let i = choose|i: int| 0 <= i < p.len() && (#[trigger] p[i]).0 == kq;
        if kp != kq {
            assert(j < q.len() - 1);
            assert(i < p.len() - 1);
            assert(text_lt(q[j].0, q[q.len() - 1].0));
            assert(text_lt(p[i].0, p[p.len() - 1].0));
            lemma_text_lt_transitive(kp, kq, kp);
            lemma_text_lt_irreflexive(kp);
        }
        assert(p.last().1 == q.last().1) by {
            assert(to_map(p)[p[p.len() - 1].0] == p[p.len() - 1].1);
            assert(to_map(q)[q[q.len() - 1].0] == q[q.len() - 1].1);
        }
        assert(hp =~= p.remove(p.len() - 1));
        assert(hq =~= q.remove(q.len() - 1));
        lemma_to_map_remove(p, p.len() - 1);
        lemma_to_map_remove(q, q.len() - 1);
        assert(keys_rising(hp)) by {
            assert forall|a: int, b: int| 0 <= a < b < hp.len() implies text_lt(
                (#[trigger] hp[a]).0,
                (#[trigger] hp[b]).0,
            ) by {
                assert(hp[a] == p[a] && hp[b] == p[b]);
            }
        }
        assert(keys_rising(hq)) by {
            assert forall|a: int, b: int| 0 <= a < b < hq.len() implies text_lt(
                (#[trigger] hq[a]).0,
                (#[trigger] hq[b]).0,
            ) by {
                assert(hq[a] == q[a] && hq[b] == q[b]);
            }
        }
        lemma_rising_unique(hp, hq);
        assert(p =~= hp.push(p.last()));
        assert(q =~= hq.push(q.last()));
    }
}

/// The list with rising keys that writes `map`.
pub open spec fn rising_list<T>(map: Map<Seq<char>, T>) -> Seq<(Seq<char>, T)> {
    choose|list: Seq<(Seq<char>, T)>| keys_rising(list) && to_map(list) == map
}

/// A list with rising keys is the rising list of the map that it writes.
pub proof fn lemma_rising_list_is<T>(list: Seq<(Seq<char>, T)>)
    requires
        keys_rising(list),
    ensures
        rising_list(to_map(list)) == list,
{
    let found = rising_list(to_map(list));
    assert(keys_rising(found) && to_map(found) == to_map(list));
    lemma_rising_unique(found, list);
}

/// A pair under a key that the list does not hold has its place in a list
/// with rising keys.
proof fn lemma_gap_exists<T>(list: Seq<(Seq<char>, T)>, key: Seq<char>) -> (at: int)
    requires
        keys_rising(list),
        !holds_key(list, key),
    ensures
        0 <= at <= list.len(),
        forall|j: int| 0 <= j < at ==> text_lt((#[trigger] list[j]).0, key),
        forall|j: int| at <= j < list.len() ==> text_lt(key, (#[trigger] list[j]).0),
    decreases list.len(),
{
    if list.len() == 0 {
        0
    } else {
        let last = list.len() - 1;
        if text_lt(list[last].0, key) {
            assert forall|j: int| 0 <= j < list.len() implies text_lt(
                (#[trigger] list[j]).0,
                key,
            ) by {
                if j < last {
                    lemma_text_lt_transitive(list[j].0, list[last].0, key);
                }
            }
            list.len() as int
        } else {
            assert(list[last].0 != key);
            if !text_lt(key, list[last].0) {
                lemma_text_lt_total(list[last].0, key);
            }
            let head = list.drop_last();
            assert(keys_rising(head)) by {
                assert forall|a: int, b: int| 0 <= a < b < head.len() implies text_lt(
                    (#[trigger] head[a]).0,
                    (#[trigger] head[b]).0,
                ) by {
                    assert(head[a] == list[a] && head[b] == list[b]);
                }
            }
            if holds_key(head, key) {
                let i = choose|i: int| 0 <= i < head.len() && (#[trigger] head[i]).0 == key;
                assert(list[i].0 == key);
            }
            let at = lemma_gap_exists(head, key);
            assert forall|j: int| 0 <= j < at implies text_lt((#[trigger] list[j]).0, key) by {
                assert(head[j] == list[j]);
            }
            assert forall|j: int| at <= j < list.len() implies text_lt(
                key,
                (#[trigger] list[j]).0,
            ) by {
                if j < last {
                    assert(head[j] == list[j]);
                }
            }
            at
        }
    }
}

/// Every finite map is written by a list with rising keys.
pub proof fn lemma_rising_list_exists<T>(map: Map<Seq<char>, T>)
    requires
        map.dom().finite(),
    ensures
        keys_rising(rising_list(map)),
        to_map(rising_list(map)) == map,
    decreases map.dom().len(),
{
    if map.dom().len() == 0 {
        let empty = Seq::<(Seq<char>, T)>::empty();
        assert(map.dom() =~= Set::<Seq<char>>::empty());
        assert(to_map(empty) =~= map);
        assert(keys_rising(empty) && to_map(empty) == map);
    } else {
        let key = map.dom().choose();
        let rest = map.remove(key);
        lemma_rising_list_exists(rest);
        let list = rising_list(rest);
        lemma_to_map_dom(list);
        lemma_rising_distinct(list);
        assert(!holds_key(list, key));
        let at = lemma_gap_exists(list, key);
        let more = list.insert(at, (key, map[key]));
        lemma_to_map_insert(list, at, (key, map[key]));
        assert(to_map(more) =~= map);
        assert(keys_rising(more)) by {
            assert forall|a: int, b: int| 0 <= a < b < more.len() implies text_lt(
                (#[trigger] more[a]).0,
                (#[trigger] more[b]).0,
            ) by {
                if b < at {
                    assert(more[a] == list[a] && more[b] == list[b]);
                } else if b == at {
                    assert(more[a] == list[a]);
                } else if a < at {
                    assert(more[a] == list[a] && more[b] == list[b - 1]);
                } else if a == at {
                    assert(more[b] == list[b - 1]);
                } else {
                    assert(more[a] == list[a - 1] && more[b] == list[b - 1]);
                }
            }
        }
        assert(keys_rising(more) && to_map(more) == map);
    }
}

} // verus!
