//! Grouping deltas into batches before they are sent: a batch leaves once it
//! holds enough deltas, enough bytes, or has waited long enough.

use vstd::prelude::*;

verus! {

/// `Σ sizes[i]` over the first `k` sizes.
pub open spec fn size_sum(sizes: Seq<usize>, k: int) -> int
    decreases k,
{
    if k <= 0 {
        0
    } else {
        size_sum(sizes, k - 1) + sizes[k - 1] as int
    }
}

/// Deltas `D` waiting to be sent together.
pub struct DeltaBatcher<D> {
    batch_buffer: Vec<D>,
    sizes: Vec<usize>,
    pending_bytes: usize,
    max_batch_size: usize,
    max_delta_count: usize,
    first_delta_time: Option<u64>,
    max_wait_time_ms: u64,
}

impl<D> DeltaBatcher<D> {
    /// The deltas waiting, oldest first.
    pub closed spec fn pending(&self) -> Seq<D> {
        self.batch_buffer@
    }

    /// The size in bytes of each waiting delta.
    pub closed spec fn pending_sizes(&self) -> Seq<usize> {
        self.sizes@
    }

    /// When the oldest waiting delta arrived, in milliseconds.
    pub closed spec fn first_time(&self) -> Option<u64> {
        self.first_delta_time
    }

    pub closed spec fn limits(&self) -> (usize, usize, u64) {
        (self.max_batch_size, self.max_delta_count, self.max_wait_time_ms)
    }

    pub closed spec fn wf(&self) -> bool {
        &&& self.sizes@.len() == self.batch_buffer@.len()
        &&& self.pending_bytes as int == if size_sum(self.sizes@, self.sizes@.len() as int)
            > usize::MAX {
            usize::MAX as int
        } else {
            size_sum(self.sizes@, self.sizes@.len() as int)
        }
        &&& (self.first_delta_time is Some <==> self.batch_buffer@.len() > 0)
    }

    /// The total size in bytes of the waiting deltas.
    pub open spec fn total_size(&self) -> int {
        size_sum(self.pending_sizes(), self.pending_sizes().len() as int)
    }

    /// A batch is due at time `now_ms`: something waits, and the count, the
    /// size or the waiting time has reached its bound.
    pub open spec fn due(&self, now_ms: u64) -> bool {
        &&& self.pending().len() > 0
        &&& {
            ||| self.pending().len() >= self.limits().1
            ||| self.total_size() >= self.limits().0
            ||| match self.first_time() {
                Some(t) => now_ms >= t && now_ms - t >= self.limits().2,
                None => false,
            }
        }
    }

    /// An empty batcher with the given bounds.
    pub fn new(max_batch_size: usize, max_delta_count: usize, max_wait_time_ms: u64) -> (r: Self)
        ensures
            r.wf(),
            r.pending().len() == 0,
            r.pending_sizes().len() == 0,
            r.first_time() is None,
            r.limits() == (max_batch_size, max_delta_count, max_wait_time_ms),
    {
        DeltaBatcher {
            batch_buffer: Vec::new(),
            sizes: Vec::new(),
            pending_bytes: 0,
            max_batch_size,
            max_delta_count,
            first_delta_time: None,
            max_wait_time_ms,
        }
    }

    /// Whether a batch is due at `now_ms`.
    pub fn should_send_batch(&self, now_ms: u64) -> (r: bool)
        requires
            self.wf(),
        ensures
            r == self.due(now_ms),
    {
        if self.batch_buffer.len() == 0 {
            return false;
        }
        if self.batch_buffer.len() >= self.max_delta_count {
            return true;
        }
        if self.pending_bytes >= self.max_batch_size {
            return true;
        }
        match self.first_delta_time {
            Some(t) => now_ms >= t && now_ms - t >= self.max_wait_time_ms,
            None => false,
        }
    }

    /// Hands out every waiting delta, oldest first, and empties the batcher.
    pub fn take_batch(&mut self) -> (r: Vec<D>)
        requires
            old(self).wf(),
        ensures
            final(self).wf(),
            r@ == old(self).pending(),
            final(self).pending().len() == 0,
            final(self).pending_sizes().len() == 0,
            final(self).first_time() is None,
            final(self).limits() == old(self).limits(),
    {
        let mut out: Vec<D> = Vec::new();
        std::mem::swap(&mut self.batch_buffer, &mut out);
        self.sizes = Vec::new();
        self.pending_bytes = 0;
        self.first_delta_time = None;
        out
    }

    /// Adds `delta`, of `size_in_bytes` bytes, arriving at `now_ms`; hands
    /// out the whole batch if one is then due.
    pub fn add_delta(&mut self, delta: D, size_in_bytes: usize, now_ms: u64) -> (r: Option<Vec<D>>)
        requires
            old(self).wf(),
        ensures
            final(self).wf(),
            final(self).limits() == old(self).limits(),
            ({
                let pending = old(self).pending().push(delta);
                let sizes = old(self).pending_sizes().push(size_in_bytes);
                let first = if old(self).pending().len() == 0 {
                    Some(now_ms)
                } else {
                    old(self).first_time()
                };
                let total = size_sum(sizes, sizes.len() as int);
                let (max_size, max_count, max_wait) = old(self).limits();
                let is_due = pending.len() >= max_count || total >= max_size || match first {
                    Some(t) => now_ms >= t && now_ms - t >= max_wait,
                    None => false,
                };
                &&& r is Some <==> is_due
                &&& r matches Some(b) ==> b@ == pending && final(self).pending().len() == 0
                    && final(self).first_time() is None
                &&& r is None ==> final(self).pending() == pending && final(self).pending_sizes()
                    == sizes && final(self).first_time() == first
            }),
    {
        if self.batch_buffer.len() == 0 {
            self.first_delta_time = Some(now_ms);
        }
        self.batch_buffer.push(delta);
        let ghost old_sizes = self.sizes@;
        self.sizes.push(size_in_bytes);
        proof {
            assert(self.sizes@.subrange(0, old_sizes.len() as int) =~= old_sizes);
            assert(size_sum(self.sizes@, old_sizes.len() as int) == size_sum(
                old_sizes,
                old_sizes.len() as int,
            )) by {
                lemma_size_sum_prefix(self.sizes@, old_sizes, old_sizes.len() as int);
            }
        }
        self.pending_bytes = self.pending_bytes.saturating_add(size_in_bytes);
        if self.should_send_batch(now_ms) {
            Some(self.take_batch())
        } else {
            None
        }
    }

    /// Hands out the whole batch if one is due at `now_ms`.
    pub fn check_pending_batch(&mut self, now_ms: u64) -> (r: Option<Vec<D>>)
        requires
            old(self).wf(),
        ensures
            final(self).wf(),
            final(self).limits() == old(self).limits(),
            r is Some <==> old(self).due(now_ms),
            r matches Some(b) ==> b@ == old(self).pending() && final(self).pending().len() == 0,
            r is None ==> *final(self) == *old(self),
    {
        if self.should_send_batch(now_ms) {
            Some(self.take_batch())
        } else {
            None
        }
    }

    /// The number of waiting deltas.
    pub fn pending_count(&self) -> (r: usize)
        ensures
            r == self.pending().len(),
    {
        self.batch_buffer.len()
    }

    /// The total size of the waiting deltas, capped at `usize::MAX`.
    pub fn pending_size(&self) -> (r: usize)
        requires
            self.wf(),
        ensures
            r == if self.total_size() > usize::MAX {
                usize::MAX as int
            } else {
                self.total_size()
            },
    {
        self.pending_bytes
    }
}

proof fn lemma_size_sum_prefix(a: Seq<usize>, b: Seq<usize>, k: int)
    requires
        0 <= k <= a.len(),
        k <= b.len(),
        forall|i: int| 0 <= i < k ==> a[i] == b[i],
    ensures
        size_sum(a, k) == size_sum(b, k),
    decreases k,
{
    if k > 0 {
        lemma_size_sum_prefix(a, b, k - 1);
    }
}

} // verus!
