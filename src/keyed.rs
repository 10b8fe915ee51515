//! Lists of `(key, value)` pairs kept in strictly increasing key order,
//! used as small maps: storing under a key replaces or inserts in place.

use vstd::prelude::*;

verus! {

/// The number of entries among the first `k` whose key is below `key`.
pub open spec fn count_below<T>(s: Seq<(u64, T)>, key: u64, k: int) -> int
    decreases k,
{
    if k <= 0 {
        0
    } else {
        count_below(s, key, k - 1) + if s[k - 1].0 < key {
            1int
        } else {
            0int
        }
    }
}

/// Keys never decrease.
pub open spec fn sorted<T>(s: Seq<(u64, T)>) -> bool {
    forall|i: int, j: int| 0 <= i <= j < s.len() ==> s[i].0 <= s[j].0
}

/// Keys strictly increase.
pub open spec fn strictly_sorted<T>(s: Seq<(u64, T)>) -> bool {
    forall|i: int, j: int| 0 <= i < j < s.len() ==> s[i].0 < s[j].0
}

/// The list after `(id, state)` is stored: it replaces the entry with the
/// same key, or is inserted where the order of keys puts it.
pub open spec fn store_keyed<S>(c: Seq<(u64, S)>, id: u64, state: S) -> Seq<(u64, S)> {
    let p = count_below(c, id, c.len() as int);
    if p < c.len() && c[p].0 == id {
        c.update(p, (id, state))
    } else {
        c.insert(p, (id, state))
    }
}

/// In a list sorted by key, the entries below `key` form a prefix.
pub proof fn lemma_count_below_split<T>(s: Seq<(u64, T)>, key: u64, k: int)
    requires
        sorted(s),
        0 <= k <= s.len(),
    ensures
        0 <= count_below(s, key, k) <= k,
        forall|i: int| 0 <= i < count_below(s, key, k) ==> s[i].0 < key,
        forall|i: int| count_below(s, key, k) <= i < k ==> s[i].0 >= key,
    decreases k,
{
    if k > 0 {
        lemma_count_below_split(s, key, k - 1);
    }
}

/// Storing keeps the keys strictly increasing, and the stored entry is the
/// only one with its key.
pub proof fn lemma_store_keyed<S>(c: Seq<(u64, S)>, id: u64, state: S)
    requires
        strictly_sorted(c),
    ensures
        ({
            let p = count_below(c, id, c.len() as int);
            let r = store_keyed(c, id, state);
            &&& strictly_sorted(r)
            &&& 0 <= p < r.len()
            &&& r[p] == (id, state)
            &&& forall|j: int| 0 <= j < r.len() && j != p ==> r[j].0 != id
            &&& r.len() <= c.len() + 1
        }),
{
    lemma_count_below_split(c, id, c.len() as int);
    let p = count_below(c, id, c.len() as int);
    let r = store_keyed(c, id, state);
    if p < c.len() && c[p].0 == id {
        assert forall|i: int, j: int| 0 <= i < j < r.len() implies r[i].0 < r[j].0 by {
            if i == p {
                assert(c[i].0 < c[j].0);
            } else if j == p {
                assert(c[i].0 < c[j].0);
            }
        }
    } else {
        assert forall|i: int, j: int| 0 <= i < j < r.len() implies r[i].0 < r[j].0 by {
            if i < p && j == p {
            } else if i == p {
                assert(r[j] == c[j - 1]);
                assert(c[j - 1].0 >= id);
            } else if i > p {
                assert(r[i] == c[i - 1] && r[j] == c[j - 1]);
            } else if j > p {
                assert(r[j] == c[j - 1]);
                assert(c[i].0 < c[j - 1].0 || i == j - 1);
            }
        }
        assert forall|j: int| 0 <= j < r.len() && j != p implies r[j].0 != id by {
            if j > p {
                assert(r[j] == c[j - 1]);
                if j - 1 > p {
                    assert(c[p].0 < c[j - 1].0);
                }
            }
        }
    }
}

/// Some entry has key `key`.
pub open spec fn has_key<T>(s: Seq<(u64, T)>, key: u64) -> bool {
    exists|i: int| 0 <= i < s.len() && (#[trigger] s[i]).0 == key
}

/// The value stored under `key`.
pub open spec fn value_at<T>(s: Seq<(u64, T)>, key: u64) -> T {
    s[choose|i: int| 0 <= i < s.len() && (#[trigger] s[i]).0 == key].1
}

/// The map the list stands for.
pub open spec fn as_map<T>(s: Seq<(u64, T)>) -> Map<u64, T> {
    Map::new(|k: u64| has_key(s, k), |k: u64| value_at(s, k))
}

proof fn lemma_value_at_unique<T>(s: Seq<(u64, T)>, i: int)
    requires
        strictly_sorted(s),
        0 <= i < s.len(),
    ensures
        has_key(s, s[i].0),
        value_at(s, s[i].0) == s[i].1,
{
    let key = s[i].0;
    assert(0 <= i < s.len() && s[i].0 == key);
    let j = choose|j: int| 0 <= j < s.len() && (#[trigger] s[j]).0 == key;
    if j < i {
        assert(s[j].0 < s[i].0);
    } else if i < j {
        assert(s[i].0 < s[j].0);
    }
}

/// Storing `(key, value)` stores `value` under `key` in the map and leaves
/// every other key alone.
pub proof fn lemma_store_as_map<T>(c: Seq<(u64, T)>, key: u64, value: T)
    requires
        strictly_sorted(c),
    ensures
        as_map(store_keyed(c, key, value)) == as_map(c).insert(key, value),
{
    lemma_store_keyed(c, key, value);
    lemma_count_below_split(c, key, c.len() as int);
    let p = count_below(c, key, c.len() as int);
    let r = store_keyed(c, key, value);
    let replaced = p < c.len() && c[p].0 == key;
    assert forall|k: u64| #[trigger] has_key(r, k) == (has_key(c, k) || k == key) by {
        if has_key(r, k) && k != key {
            let i = choose|i: int| 0 <= i < r.len() && (#[trigger] r[i]).0 == k;
            let ci = if replaced || i < p {
                i
            } else {
                i - 1
            };
            assert(c[ci] == r[i]);
            assert(0 <= ci < c.len() && c[ci].0 == k);
        }
        if has_key(c, k) && k != key {
            let ci = choose|i: int| 0 <= i < c.len() && (#[trigger] c[i]).0 == k;
            let i = if replaced || ci < p {
                ci
            } else {
                ci + 1
            };
            assert(r[i] == c[ci]);
            assert(0 <= i < r.len() && r[i].0 == k);
        }
        if k == key {
            assert(0 <= p < r.len() && r[p].0 == k);
        }
    }
    assert forall|k: u64| has_key(r, k) implies #[trigger] value_at(r, k) == (if k == key {
        value
    } else {
        value_at(c, k)
    }) by {
        let i = choose|i: int| 0 <= i < r.len() && (#[trigger] r[i]).0 == k;
        lemma_value_at_unique(r, i);
        if k == key {
            lemma_value_at_unique(r, p);
        } else {
            let ci = if replaced || i < p {
                i
            } else {
                i - 1
            };
            assert(c[ci] == r[i]);
            lemma_value_at_unique(c, ci);
        }
    }
    assert(as_map(r) =~= as_map(c).insert(key, value));
}

/// Extending a strictly sorted list by an entry with a larger key is storing it.
pub proof fn lemma_push_is_store<T>(c: Seq<(u64, T)>, key: u64, value: T)
    requires
        strictly_sorted(c.push((key, value))),
    ensures
        store_keyed(c, key, value) == c.push((key, value)),
        strictly_sorted(c),
{
    let s = c.push((key, value));
    assert forall|i: int, j: int| 0 <= i < j < c.len() implies c[i].0 < c[j].0 by {
        assert(s[i] == c[i] && s[j] == c[j]);
    }
    lemma_count_below_split(c, key, c.len() as int);
    let p = count_below(c, key, c.len() as int);
    if p < c.len() {
        assert(s[p] == c[p]);
        assert(s[c.len() as int].0 == key);
        assert(c[p].0 < key);
    }
    assert(c.insert(c.len() as int, (key, value)) =~= c.push((key, value)));
}

/// Stores `(key, value)` in `list`, as `store_keyed` says.
pub fn store_entry<T>(list: &mut Vec<(u64, T)>, key: u64, value: T)
    requires
        strictly_sorted(old(list)@),
    ensures
        final(list)@ == store_keyed(old(list)@, key, value),
        strictly_sorted(final(list)@),
{
    let ghost c = list@;
    proof {
        lemma_count_below_split(c, key, c.len() as int);
        lemma_store_keyed(c, key, value);
    }
    let mut p: usize = 0;
    while p < list.len() && list[p].0 < key
        invariant
            c == list@,
            p <= c.len(),
            forall|i: int| 0 <= i < p ==> c[i].0 < key,
        decreases c.len() - p,
    {
        p = p + 1;
    }
    proof {
        let q = count_below(c, key, c.len() as int);
        if p < q {
            assert(c[p as int].0 < key);
        } else if q < p {
            assert(c[q].0 < key);
        }
        assert(p == q);
    }
    if p < list.len() && list[p].0 == key {
        list.set(p, (key, value));
    } else {
        list.insert(p, (key, value));
    }
}

} // verus!
