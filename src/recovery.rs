//! Bookkeeping for state recovery: a bounded set of checkpoints, keyed by
//! their timestamp, and a bounded history of timestamped deltas. Recovering
//! the state at a time means taking the latest checkpoint at or before it and
//! replaying, in timestamp order, the deltas recorded after the checkpoint
//! and up to that time.

use crate::keyed::{
    count_below, lemma_count_below_split, lemma_store_keyed, store_entry, store_keyed,
    sorted, strictly_sorted,
};
use vstd::prelude::*;

verus! {

/// How a lost state is to be rebuilt.
#[derive(Clone, Copy, Debug, PartialEq, Eq)]
pub enum RecoveryStrategy {
    /// From a full copy of the state.
    Full,
    /// By replaying deltas.
    Delta,
    /// From the nearest checkpoint.
    Checkpoint,
    /// Choosing among the above as the situation requires.
    Adaptive,
}

/// What a checkpoint holds.
#[derive(Clone, Copy, Debug, PartialEq, Eq)]
pub enum CheckpointType {
    /// The whole state.
    Full,
    /// The changes since the previous checkpoint.
    Delta,
    /// The sequence of operations that led to the state.
    Score,
}

/// Why a recovery could not be planned.
#[derive(Clone, Copy, Debug, PartialEq, Eq)]
pub enum RecoveryError {
    /// No checkpoint was taken at or before the requested time.
    NoCheckpointBefore,
    /// The checkpoint asked for is not (or no longer) held.
    CheckpointNotFound,
}

/// Delta `x` of `h` is stamped in `(after, upto]`.
pub open spec fn in_window<D>(h: Seq<(u64, D)>, x: int, after: u64, upto: u64) -> bool {
    0 <= x < h.len() && after < h[x].0 && h[x].0 <= upto
}

/// Delta `x` is replayed before delta `y`: it has the earlier stamp, or the
/// same stamp and arrived first.
pub open spec fn replay_before<D>(h: Seq<(u64, D)>, x: int, y: int) -> bool {
    h[x].0 < h[y].0 || (h[x].0 == h[y].0 && x < y)
}

/// `ds` lists every delta stamped in `(after, upto]`, each once, in replay order.
pub open spec fn replay_order<D>(h: Seq<(u64, D)>, after: u64, upto: u64, ds: Seq<usize>) -> bool {
    &&& forall|k: int| 0 <= k < ds.len() ==> in_window(h, #[trigger] ds[k] as int, after, upto)
    &&& forall|x: int| in_window(h, x, after, upto) ==> ds.contains(x as usize)
    &&& forall|k: int, l: int|
        0 <= k < l < ds.len() ==> replay_before(h, #[trigger] ds[k] as int, #[trigger] ds[l] as int)
}

/// Inserting arrival `x` (later than every listed delta) behind the deltas
/// stamped at or before it keeps the list in replay order.
proof fn lemma_insert_replay<D>(
    h: Seq<(u64, D)>,
    before: Seq<usize>,
    p: int,
    x: int,
    after: u64,
    upto: u64,
)
    requires
        0 <= p <= before.len(),
        in_window(h, x, after, upto),
        x < usize::MAX,
        forall|k: int|
            0 <= k < before.len() ==> in_window(h, #[trigger] before[k] as int, after, upto)
                && before[k] < x,
        forall|y: int| 0 <= y < x && in_window(h, y, after, upto) ==> before.contains(y as usize),
        forall|k: int, l: int|
            0 <= k < l < before.len() ==> replay_before(
                h,
                #[trigger] before[k] as int,
                #[trigger] before[l] as int,
            ),
        forall|k: int| 0 <= k < p ==> h[#[trigger] before[k] as int].0 <= h[x].0,
        p < before.len() ==> h[before[p] as int].0 > h[x].0,
    ensures
        ({
            let ds = before.insert(p, x as usize);
            &&& forall|k: int|
                0 <= k < ds.len() ==> in_window(h, #[trigger] ds[k] as int, after, upto) && ds[k]
                    < x + 1
            &&& forall|y: int|
                0 <= y < x + 1 && in_window(h, y, after, upto) ==> ds.contains(y as usize)
            &&& forall|k: int, l: int|
                0 <= k < l < ds.len() ==> replay_before(
                    h,
                    #[trigger] ds[k] as int,
                    #[trigger] ds[l] as int,
                )
        }),
{
    let ds = before.insert(p, x as usize);
    let stamp = h[x].0;
    assert forall|k: int| p <= k < before.len() implies h[#[trigger] before[k] as int].0
        > stamp by {
        if k > p {
            assert(replay_before(h, before[p] as int, before[k] as int));
        }
    }
    assert forall|k: int|
        0 <= k < ds.len() implies in_window(h, #[trigger] ds[k] as int, after, upto) && ds[k] < x
        + 1 by {
        if k < p {
            assert(ds[k] == before[k]);
        } else if k > p {
            assert(ds[k] == before[k - 1]);
        }
    }
    assert forall|y: int| 0 <= y < x + 1 && in_window(h, y, after, upto) implies ds.contains(
        y as usize,
    ) by {
        if y == x {
            assert(ds[p] == x as usize);
        } else {
            assert(before.contains(y as usize));
            let k = choose|k: int| 0 <= k < before.len() && before[k] == y as usize;
            if k < p {
                assert(ds[k] == before[k]);
            } else {
                assert(ds[k + 1] == before[k]);
            }
        }
    }
    assert forall|k: int, l: int| 0 <= k < l < ds.len() implies replay_before(
        h,
        #[trigger] ds[k] as int,
        #[trigger] ds[l] as int,
    ) by {
        if l < p {
            assert(ds[k] == before[k] && ds[l] == before[l]);
        } else if l == p {
            assert(ds[k] == before[k]);
        } else if k == p {
            assert(ds[l] == before[l - 1]);
        } else if k < p {
            assert(ds[k] == before[k] && ds[l] == before[l - 1]);
        } else {
            assert(ds[k] == before[k - 1] && ds[l] == before[l - 1]);
        }
    }
}

/// The oldest entries are dropped until at most `max` remain.
pub open spec fn keep_newest<T>(s: Seq<(u64, T)>, max: nat) -> Seq<(u64, T)> {
    if s.len() > max {
        s.subrange(s.len() - max, s.len() as int)
    } else {
        s
    }
}

proof fn lemma_keep_newest_sorted<T>(s: Seq<(u64, T)>, max: nat)
    ensures
        strictly_sorted(s) ==> strictly_sorted(keep_newest(s, max)),
        sorted(s) ==> sorted(keep_newest(s, max)),
        keep_newest(s, max).len() <= max || keep_newest(s, max) == s,
{
    if s.len() > max {
        let off = s.len() - max;
        let r = keep_newest(s, max);
        assert forall|i: int, j: int| 0 <= i < j < r.len() && strictly_sorted(s) implies r[i].0 < r[j].0 by {
            assert(r[i] == s[i + off] && r[j] == s[j + off]);
        }
        assert forall|i: int, j: int| 0 <= i <= j < r.len() && sorted(s) implies r[i].0 <= r[j].0 by {
            assert(r[i] == s[i + off] && r[j] == s[j + off]);
        }
    }
}

/// Checkpoints of states `S` and a history of deltas `D`, both bounded.
pub struct RecoveryProtocol<S, D> {
    checkpoints: Vec<(u64, S)>,
    deltas: Vec<(u64, D)>,
    max_history_length: usize,
    max_checkpoints: usize,
    last_checkpoint_id: Option<u64>,
}

impl<S, D> RecoveryProtocol<S, D> {
    /// The checkpoints, by increasing id.
    pub closed spec fn checkpoints(&self) -> Seq<(u64, S)> {
        self.checkpoints@
    }

    /// The deltas with their stamps, in arrival order.
    pub closed spec fn history(&self) -> Seq<(u64, D)> {
        self.deltas@
    }

    pub closed spec fn max_history(&self) -> nat {
        self.max_history_length as nat
    }

    pub closed spec fn max_checkpoint_count(&self) -> nat {
        self.max_checkpoints as nat
    }

    /// The id of the checkpoint stored last.
    pub closed spec fn last_id(&self) -> Option<u64> {
        self.last_checkpoint_id
    }

    pub open spec fn wf(&self) -> bool {
        &&& strictly_sorted(self.checkpoints())
        &&& self.checkpoints().len() <= self.max_checkpoint_count()
        &&& self.history().len() <= self.max_history()
    }

    /// An empty protocol keeping up to 100 deltas and 10 checkpoints.
    pub fn new() -> (r: Self)
        ensures
            r.wf(),
            r.checkpoints().len() == 0,
            r.history().len() == 0,
            r.max_history() == 100,
            r.max_checkpoint_count() == 10,
            r.last_id() is None,
    {
        RecoveryProtocol {
            checkpoints: Vec::new(),
            deltas: Vec::new(),
            max_history_length: 100,
            max_checkpoints: 10,
            last_checkpoint_id: None,
        }
    }
    /// An empty protocol keeping up to `max_history_length` deltas and
    /// `max_checkpoints` checkpoints.
    pub fn with_limits(max_history_length: usize, max_checkpoints: usize) -> (r: Self)
        ensures
            r.wf(),
            r.checkpoints().len() == 0,
            r.history().len() == 0,
            r.max_history() == max_history_length,
            r.max_checkpoint_count() == max_checkpoints,
            r.last_id() is None,
    {
        RecoveryProtocol {
            checkpoints: Vec::new(),
            deltas: Vec::new(),
            max_history_length,
            max_checkpoints,
            last_checkpoint_id: None,
        }
    }

    /// Stores `state` as the checkpoint `id` (replacing one with that id),
    /// then drops the oldest checkpoint if there are more than allowed.
    pub fn add_checkpoint(&mut self, id: u64, state: S)
        requires
            old(self).wf(),
        ensures
            final(self).wf(),
            final(self).checkpoints() == keep_newest(
                store_keyed(old(self).checkpoints(), id, state),
                old(self).max_checkpoint_count(),
            ),
            final(self).history() == old(self).history(),
            final(self).max_history() == old(self).max_history(),
            final(self).max_checkpoint_count() == old(self).max_checkpoint_count(),
            final(self).last_id() == Some(id),
    {
        let ghost c = self.checkpoints@;
        store_entry(&mut self.checkpoints, id, state);
        let ghost stored = self.checkpoints@;
        proof {
            lemma_store_keyed(c, id, state);
        }
        if self.checkpoints.len() > self.max_checkpoints {
            self.checkpoints.remove(0);
            assert(self.checkpoints@ =~= keep_newest(stored, self.max_checkpoints as nat));
        }
        proof {
            lemma_keep_newest_sorted(stored, self.max_checkpoints as nat);
        }
        self.last_checkpoint_id = Some(id);
    }

    /// Appends `delta`, stamped `timestamp`, to the history, then drops the
    /// delta that arrived first if there are more than allowed.
    pub fn add_delta(&mut self, timestamp: u64, delta: D)
        requires
            old(self).wf(),
        ensures
            final(self).wf(),
            final(self).history() == keep_newest(
                old(self).history().push((timestamp, delta)),
                old(self).max_history(),
            ),
            final(self).checkpoints() == old(self).checkpoints(),
            final(self).max_history() == old(self).max_history(),
            final(self).max_checkpoint_count() == old(self).max_checkpoint_count(),
            final(self).last_id() == old(self).last_id(),
    {
        self.deltas.push((timestamp, delta));
        let ghost recorded = self.deltas@;
        if self.deltas.len() > self.max_history_length {
            self.deltas.remove(0);
            assert(self.deltas@ =~= keep_newest(recorded, self.max_history_length as nat));
        }
    }

    /// Plans the recovery of the state at `timestamp`: the position of the
    /// latest checkpoint at or before it, and the positions of the deltas
    /// stamped after that checkpoint and up to `timestamp`, in timestamp
    /// order (arrival order among equal stamps). Replaying those deltas onto
    /// a copy of that checkpoint's state gives the state at `timestamp`.
    pub fn recovery_plan(&self, timestamp: u64) -> (r: Result<(usize, Vec<usize>), RecoveryError>)
        requires
            self.wf(),
        ensures
            r is Err <==> (self.checkpoints().len() == 0 || self.checkpoints()[0].0 > timestamp),
            r is Err ==> r == Err::<(usize, Vec<usize>), RecoveryError>(
                RecoveryError::NoCheckpointBefore,
            ),
            r matches Ok((i, ds)) ==> {
                &&& i < self.checkpoints().len()
                &&& self.checkpoints()[i as int].0 <= timestamp
                &&& forall|j: int|
                    i < j < self.checkpoints().len() ==> self.checkpoints()[j].0 > timestamp
                &&& replay_order(
                    self.history(),
                    self.checkpoints()[i as int].0,
                    timestamp,
                    ds@,
                )
            },
    {
        let ghost c = self.checkpoints@;
        let mut i: usize = 0;
        while i < self.checkpoints.len() && self.checkpoints[i].0 <= timestamp
            invariant
                self.wf(),
                c == self.checkpoints@,
                i <= c.len(),
                forall|k: int| 0 <= k < i ==> c[k].0 <= timestamp,
            decreases c.len() - i,
        {
            i = i + 1;
        }
        if i == 0 {
            return Err(RecoveryError::NoCheckpointBefore);
        }
        let cp = i - 1;
        let after = self.checkpoints[cp].0;
        proof {
            assert forall|j: int| cp < j < c.len() implies c[j].0 > timestamp by {
                assert(c[i as int].0 > timestamp);
                assert(c[i as int].0 <= c[j].0 || j == i);
            }
        }
        let ds = self.deltas_in_replay_order(after, timestamp);
        Ok((cp, ds))
    }

    /// The positions of the deltas stamped in `(after, upto]`, in replay order.
    fn deltas_in_replay_order(&self, after: u64, upto: u64) -> (ds: Vec<usize>)
        ensures
            replay_order(self.history(), after, upto, ds@),
    {
        let ghost h = self.deltas@;
        let mut ds: Vec<usize> = Vec::new();
        let mut x: usize = 0;
        while x < self.deltas.len()
            invariant
                h == self.deltas@,
                x <= h.len(),
                forall|k: int|
                    0 <= k < ds@.len() ==> in_window(h, #[trigger] ds@[k] as int, after, upto)
                        && ds@[k] < x,
                forall|y: int| 0 <= y < x && in_window(h, y, after, upto) ==> ds@.contains(
                    y as usize,
                ),
                forall|k: int, l: int|
                    0 <= k < l < ds@.len() ==> replay_before(
                        h,
                        #[trigger] ds@[k] as int,
                        #[trigger] ds@[l] as int,
                    ),
            decreases h.len() - x,
        {
            let stamp = self.deltas[x].0;
            if after < stamp && stamp <= upto {
                let mut p: usize = 0;
                while p < ds.len() && self.deltas[ds[p]].0 <= stamp
                    invariant
                        h == self.deltas@,
                        p <= ds@.len(),
                        forall|k: int| 0 <= k < ds@.len() ==> (#[trigger] ds@[k]) < h.len(),
                        forall|k: int| 0 <= k < p ==> h[#[trigger] ds@[k] as int].0 <= stamp,
                    decreases ds@.len() - p,
                {
                    p = p + 1;
                }
                let ghost before = ds@;
                ds.insert(p, x);
                proof {
                    lemma_insert_replay(h, before, p as int, x as int, after, upto);
                }
            }
            x = x + 1;
        }
        ds
    }

    /// The state of the checkpoint at position `i`.
    pub fn checkpoint_state(&self, i: usize) -> (r: &S)
        requires
            i < self.checkpoints().len(),
        ensures
            *r == self.checkpoints()[i as int].1,
    {
        &self.checkpoints[i].1
    }

    /// The id of the checkpoint at position `i`.
    pub fn checkpoint_id(&self, i: usize) -> (r: u64)
        requires
            i < self.checkpoints().len(),
        ensures
            r == self.checkpoints()[i as int].0,
    {
        self.checkpoints[i].0
    }

    /// The delta at position `i`.
    pub fn delta_at(&self, i: usize) -> (r: &D)
        requires
            i < self.history().len(),
        ensures
            *r == self.history()[i as int].1,
    {
        &self.deltas[i].1
    }

    /// The number of checkpoints held.
    pub fn checkpoint_count(&self) -> (r: usize)
        ensures
            r == self.checkpoints().len(),
    {
        self.checkpoints.len()
    }

    /// The number of deltas held.
    pub fn history_len(&self) -> (r: usize)
        ensures
            r == self.history().len(),
    {
        self.deltas.len()
    }

    /// The position of the checkpoint stored last, if it is still held.
    pub fn get_last_checkpoint(&self) -> (r: Result<usize, RecoveryError>)
        requires
            self.wf(),
        ensures
            r matches Ok(i) ==> i < self.checkpoints().len() && self.last_id() == Some(
                self.checkpoints()[i as int].0,
            ),
            r is Err <==> (self.last_id() is None || forall|j: int|
                0 <= j < self.checkpoints().len() ==> Some(self.checkpoints()[j].0)
                    != self.last_id()),
            r is Err ==> r == Err::<usize, RecoveryError>(RecoveryError::CheckpointNotFound),
    {
        match self.last_checkpoint_id {
            None => Err(RecoveryError::CheckpointNotFound),
            Some(id) => {
                let mut i: usize = 0;
                while i < self.checkpoints.len()
                    invariant
                        self.last_checkpoint_id == Some(id),
                        i <= self.checkpoints@.len(),
                        forall|j: int| 0 <= j < i ==> self.checkpoints@[j].0 != id,
                    decreases self.checkpoints@.len() - i,
                {
                    if self.checkpoints[i].0 == id {
                        assert(self.checkpoints@[i as int].0 == id);
                        assert(Some(self.checkpoints()[i as int].0) == self.last_id());
                        return Ok(i);
                    }
                    i = i + 1;
                }
                Err(RecoveryError::CheckpointNotFound)
            },
        }
    }

    /// Sets the bound on the delta history, dropping the oldest deltas
    /// beyond it.
    pub fn set_max_history_length(&mut self, length: usize)
        requires
            old(self).wf(),
        ensures
            final(self).wf(),
            final(self).max_history() == length,
            final(self).history() == keep_newest(old(self).history(), length as nat),
            final(self).checkpoints() == old(self).checkpoints(),
            final(self).max_checkpoint_count() == old(self).max_checkpoint_count(),
            final(self).last_id() == old(self).last_id(),
    {
        let ghost h = self.deltas@;
        let ghost c0 = self.checkpoints@;
        proof {
            lemma_keep_newest_sorted(h, length as nat);
        }
        self.max_history_length = length;
        assert(h.subrange(0, h.len() as int) =~= h);
        while self.deltas.len() > length
            invariant
                self.max_history_length == length,
                self.max_checkpoints == old(self).max_checkpoints,
                self.last_checkpoint_id == old(self).last_checkpoint_id,
                self.checkpoints@ == c0,
                self.deltas@.len() <= h.len(),
                self.deltas@ == h.subrange(h.len() - self.deltas@.len(), h.len() as int),
                h.len() > length ==> self.deltas@.len() >= length,
                h.len() <= length ==> self.deltas@ == h,
            decreases self.deltas@.len(),
        {
            let ghost before = self.deltas@;
            self.deltas.remove(0);
            assert(self.deltas@ =~= h.subrange(h.len() - self.deltas@.len(), h.len() as int));
        }
        assert(self.deltas@ =~= keep_newest(h, length as nat));
    }

    /// Sets the bound on the checkpoints, dropping the oldest beyond it.
    pub fn set_max_checkpoints(&mut self, count: usize)
        requires
            old(self).wf(),
        ensures
            final(self).wf(),
            final(self).max_checkpoint_count() == count,
            final(self).checkpoints() == keep_newest(old(self).checkpoints(), count as nat),
            final(self).history() == old(self).history(),
            final(self).max_history() == old(self).max_history(),
            final(self).last_id() == old(self).last_id(),
    {
        let ghost c = self.checkpoints@;
        let ghost h0 = self.deltas@;
        proof {
            lemma_keep_newest_sorted(c, count as nat);
        }
        self.max_checkpoints = count;
        assert(c.subrange(0, c.len() as int) =~= c);
        while self.checkpoints.len() > count
            invariant
                self.max_checkpoints == count,
                self.max_history_length == old(self).max_history_length,
                self.last_checkpoint_id == old(self).last_checkpoint_id,
                self.deltas@ == h0,
                self.checkpoints@.len() <= c.len(),
                self.checkpoints@ == c.subrange(c.len() - self.checkpoints@.len(), c.len() as int),
                c.len() > count ==> self.checkpoints@.len() >= count,
                c.len() <= count ==> self.checkpoints@ == c,
            decreases self.checkpoints@.len(),
        {
            self.checkpoints.remove(0);
            assert(self.checkpoints@ =~= c.subrange(c.len() - self.checkpoints@.len(), c.len() as int));
        }
        assert(self.checkpoints@ =~= keep_newest(c, count as nat));
    }

    /// Drops every delta.
    pub fn clear_delta_history(&mut self)
        requires
            old(self).wf(),
        ensures
            final(self).wf(),
            final(self).history().len() == 0,
            final(self).checkpoints() == old(self).checkpoints(),
            final(self).max_history() == old(self).max_history(),
            final(self).max_checkpoint_count() == old(self).max_checkpoint_count(),
            final(self).last_id() == old(self).last_id(),
    {
        self.deltas = Vec::new();
    }

    /// Drops every checkpoint and forgets the last one stored.
    pub fn clear_checkpoints(&mut self)
        requires
            old(self).wf(),
        ensures
            final(self).wf(),
            final(self).checkpoints().len() == 0,
            final(self).history() == old(self).history(),
            final(self).max_history() == old(self).max_history(),
            final(self).max_checkpoint_count() == old(self).max_checkpoint_count(),
            final(self).last_id() is None,
    {
        self.checkpoints = Vec::new();
        self.last_checkpoint_id = None;
    }
}

} // verus!

verus! {

/// Right after `add_checkpoint(t, s)`, with no delta recorded since,
/// recovering the state at `t` starts from that very checkpoint, which holds
/// `s`, and replays no delta (none is stamped in `(t, t]`); this holds whenever the new checkpoint was not
/// itself dropped as the oldest one. Here `i` is any position satisfying what
/// `recovery_plan` ensures of the checkpoint it picks.
pub proof fn lemma_recover_right_after_checkpoint<S, D>(
    c: Seq<(u64, S)>,
    h: Seq<(u64, D)>,
    t: u64,
    s: S,
    max: nat,
    i: int,
)
    requires
        strictly_sorted(c),
        exists|q: int|
            0 <= q < keep_newest(store_keyed(c, t, s), max).len() && (#[trigger] keep_newest(
                store_keyed(c, t, s),
                max,
            )[q]).0 == t,
        0 <= i < keep_newest(store_keyed(c, t, s), max).len(),
        keep_newest(store_keyed(c, t, s), max)[i].0 <= t,
        forall|j: int|
            i < j < keep_newest(store_keyed(c, t, s), max).len() ==> keep_newest(
                store_keyed(c, t, s),
                max,
            )[j].0 > t,
    ensures
        keep_newest(store_keyed(c, t, s), max)[i] == (t, s),
        forall|ds: Seq<usize>|
            replay_order(h, keep_newest(store_keyed(c, t, s), max)[i].0, t, ds) ==> ds.len() == 0,
{
    let st = store_keyed(c, t, s);
    let c2 = keep_newest(st, max);
    lemma_store_keyed(c, t, s);
    lemma_keep_newest_sorted(st, max);
    let p = count_below(c, t, c.len() as int);
    let q = choose|q: int| 0 <= q < c2.len() && (#[trigger] c2[q]).0 == t;
    let off: int = if st.len() > max {
        st.len() - max
    } else {
        0
    };
    assert(c2[q] == st[q + off]);
    assert(q + off == p);
    if q < i {
        assert(c2[q].0 < c2[i].0);
    } else if i < q {
        assert(c2[q].0 > t);
    }
    assert(c2[i] == st[p]);
    assert forall|ds: Seq<usize>| replay_order(h, c2[i].0, t, ds) implies ds.len() == 0 by {
        if ds.len() > 0 {
            assert(in_window(h, ds[0] as int, t, t));
        }
    }
}

} // verus!
