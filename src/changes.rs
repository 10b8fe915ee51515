//! The changed-amplitude part of a delta: a list of `(index, value)` pairs
//! in increasing index order, merged and written into a state as a map.

use crate::keyed::{as_map, lemma_push_is_store, lemma_store_as_map, store_entry, strictly_sorted};
use vstd::prelude::*;

verus! {

proof fn lemma_prefix_sorted<V>(b: Seq<(u64, V)>, j: int)
    requires
        strictly_sorted(b),
        0 <= j < b.len(),
    ensures
        strictly_sorted(b.subrange(0, j + 1)),
        b.subrange(0, j + 1) == b.subrange(0, j).push(b[j]),
        as_map(b.subrange(0, j + 1)) == as_map(b.subrange(0, j)).insert(b[j].0, b[j].1),
{
    let s = b.subrange(0, j + 1);
    assert forall|x: int, y: int| 0 <= x < y < s.len() implies s[x].0 < s[y].0 by {
        assert(s[x] == b[x] && s[y] == b[y]);
    }
    assert(s =~= b.subrange(0, j).push(b[j]));
    lemma_push_is_store(b.subrange(0, j), b[j].0, b[j].1);
    lemma_store_as_map(b.subrange(0, j), b[j].0, b[j].1);
}

/// Merges two change lists: every index of either list, with the value of
/// `later` where both have it.
pub fn merge_changes<V: Copy>(earlier: &Vec<(u64, V)>, later: &Vec<(u64, V)>) -> (r: Vec<(u64, V)>)
    requires
        strictly_sorted(earlier@),
        strictly_sorted(later@),
    ensures
        strictly_sorted(r@),
        as_map(r@) == as_map(earlier@).union_prefer_right(as_map(later@)),
{
    let mut out: Vec<(u64, V)> = Vec::new();
    let mut i: usize = 0;
    while i < earlier.len()
        invariant
            i <= earlier@.len(),
            out@ == earlier@.subrange(0, i as int),
        decreases earlier@.len() - i,
    {
        out.push(earlier[i]);
        i = i + 1;
        assert(out@ =~= earlier@.subrange(0, i as int));
    }
    assert(earlier@.subrange(0, earlier@.len() as int) =~= earlier@);
    let mut j: usize = 0;
    assert(as_map(later@.subrange(0, 0)) =~= Map::empty());
    assert(as_map(earlier@).union_prefer_right(Map::empty()) =~= as_map(earlier@));
    while j < later.len()
        invariant
            strictly_sorted(later@),
            strictly_sorted(out@),
            j <= later@.len(),
            as_map(out@) == as_map(earlier@).union_prefer_right(
                as_map(later@.subrange(0, j as int)),
            ),
        decreases later@.len() - j,
    {
        let (key, value) = later[j];
        let ghost before = out@;
        store_entry(&mut out, key, value);
        proof {
            lemma_store_as_map(before, key, value);
            lemma_prefix_sorted(later@, j as int);
            assert(as_map(earlier@).union_prefer_right(
                as_map(later@.subrange(0, j as int)),
            ).insert(key, value) =~= as_map(earlier@).union_prefer_right(
                as_map(later@.subrange(0, j as int)).insert(key, value),
            ));
        }
        j = j + 1;
    }
    assert(later@.subrange(0, later@.len() as int) =~= later@);
    out
}

/// Writes each change into `state`: afterwards index `i` holds the change
/// for `i` where there is one, and its old value elsewhere.
pub fn apply_changes<V: Copy>(state: &mut Vec<V>, changes: &Vec<(u64, V)>)
    requires
        strictly_sorted(changes@),
        forall|k: int| 0 <= k < changes@.len() ==> (#[trigger] changes@[k]).0 < old(state)@.len(),
    ensures
        final(state)@.len() == old(state)@.len(),
        forall|i: int|
            0 <= i < old(state)@.len() ==> #[trigger] final(state)@[i] == if as_map(
                changes@,
            ).contains_key(i as u64) {
                as_map(changes@)[i as u64]
            } else {
                old(state)@[i]
            },
{
    let ghost orig = state@;
    let mut j: usize = 0;
    while j < changes.len()
        invariant
            strictly_sorted(changes@),
            forall|k: int| 0 <= k < changes@.len() ==> (#[trigger] changes@[k]).0 < orig.len(),
            state@.len() == orig.len(),
            j <= changes@.len(),
            forall|i: int|
                0 <= i < orig.len() ==> #[trigger] state@[i] == if as_map(
                    changes@.subrange(0, j as int),
                ).contains_key(i as u64) {
                    as_map(changes@.subrange(0, j as int))[i as u64]
                } else {
                    orig[i]
                },
        decreases changes@.len() - j,
    {
        let (key, value) = changes[j];
        let n = state.len();
        assert(changes@[j as int].0 < orig.len());
        let idx = key as usize;
        assert(idx as int == key as int);
        let ghost before = state@;
        state.set(idx, value);
        proof {
            assert(state@ == before.update(key as int, value));
            lemma_prefix_sorted(changes@, j as int);
            let m0 = as_map(changes@.subrange(0, j as int));
            let m = as_map(changes@.subrange(0, j + 1));
            assert(m == m0.insert(key, value));
            assert forall|i: int| 0 <= i < orig.len() implies #[trigger] state@[i] == if m.contains_key(
                i as u64,
            ) {
                m[i as u64]
            } else {
                orig[i]
            } by {
                if i == key as int {
                    assert(i as u64 == key);
                } else {
                    assert(state@[i] == before[i]);
                    assert(i < n);
                    assert(i as u64 != key);
                    assert(m.contains_key(i as u64) == m0.contains_key(i as u64));
                }
            }
        }
        j = j + 1;
    }
    assert(changes@.subrange(0, changes@.len() as int) =~= changes@);
}

/// Writing an empty change list leaves the state as it was: whatever
/// `apply_changes` ensures of an empty list pins the state to its old value.
pub proof fn lemma_empty_changes_keep_state<V>(before: Seq<V>, after: Seq<V>)
    requires
        after.len() == before.len(),
        forall|i: int|
            0 <= i < before.len() ==> #[trigger] after[i] == if as_map(
                Seq::<(u64, V)>::empty(),
            ).contains_key(i as u64) {
                as_map(Seq::<(u64, V)>::empty())[i as u64]
            } else {
                before[i]
            },
    ensures
        after == before,
{
    assert forall|i: int| 0 <= i < before.len() implies after[i] == before[i] by {
        assert(!as_map(Seq::<(u64, V)>::empty()).contains_key(i as u64));
    }
    assert(after =~= before);
}

} // verus!
