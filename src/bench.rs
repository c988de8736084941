//! Throughput figures of benchmark runs.
use vstd::prelude::*;

verus! {

/// Bytes and messages moved in a span of time, measured in microseconds.
#[derive(Clone, Copy, Debug, PartialEq, Eq, Structural)]
pub struct Stats {
    pub bytes: usize,
    pub msgs: usize,
    pub elapsed_us: u64,
}

pub open spec fn total_bytes(s: Seq<Stats>) -> nat
    decreases s.len(),
{
    if s.len() == 0 {
        0
    } else {
        total_bytes(s.drop_last()) + s.last().bytes as nat
    }
}

pub open spec fn total_msgs(s: Seq<Stats>) -> nat
    decreases s.len(),
{
    if s.len() == 0 {
        0
    } else {
        total_msgs(s.drop_last()) + s.last().msgs as nat
    }
}

pub open spec fn total_elapsed(s: Seq<Stats>) -> nat
    decreases s.len(),
{
    if s.len() == 0 {
        0
    } else {
        total_elapsed(s.drop_last()) + s.last().elapsed_us as nat
    }
}

/// The three sums fit their fields.
pub open spec fn sums_fit(s: Seq<Stats>) -> bool {
    total_bytes(s) <= usize::MAX && total_msgs(s) <= usize::MAX && total_elapsed(s) <= u64::MAX
}

/// A span of at least one microsecond, so that rates are defined.
pub open spec fn span(us: u64) -> int {
    if us == 0 {
        1
    } else {
        us as int
    }
}

proof fn lemma_prefix_sums(s: Seq<Stats>, k: int)
    requires
        0 <= k <= s.len(),
    ensures
        total_bytes(s.subrange(0, k)) <= total_bytes(s),
        total_msgs(s.subrange(0, k)) <= total_msgs(s),
        total_elapsed(s.subrange(0, k)) <= total_elapsed(s),
    decreases s.len(),
{
    if k < s.len() {
        assert(s.drop_last().subrange(0, k) =~= s.subrange(0, k));
        lemma_prefix_sums(s.drop_last(), k);
    } else {
        assert(s.subrange(0, k) =~= s);
    }
}

impl Stats {
    pub fn new(bytes: usize, msgs: usize, elapsed_us: u64) -> (r: Self)
        ensures
            r == (Stats { bytes, msgs, elapsed_us }),
    {
        Self { bytes, msgs, elapsed_us }
    }

    /// Messages per second over the span.
    pub fn msgs_per_sec(&self) -> (r: u64)
        requires
            self.msgs * 1000000 <= u64::MAX,
        ensures
            r == (self.msgs * 1000000) / span(self.elapsed_us),
    {
        let us: u64 = if self.elapsed_us == 0 {
            1
        } else {
            self.elapsed_us
        };
        (self.msgs as u64 * 1000000) / us
    }

    /// Bytes per second over the span.
    pub fn bytes_per_sec(&self) -> (r: u64)
        requires
            self.bytes * 1000000 <= u64::MAX,
        ensures
            r == (self.bytes * 1000000) / span(self.elapsed_us),
    {
        let us: u64 = if self.elapsed_us == 0 {
            1
        } else {
            self.elapsed_us
        };
        (self.bytes as u64 * 1000000) / us
    }

    /// Field-wise sum.
    fn sum(v: &Vec<Stats>) -> (r: Stats)
        requires
            sums_fit(v@),
        ensures
            r.bytes == total_bytes(v@),
            r.msgs == total_msgs(v@),
            r.elapsed_us == total_elapsed(v@),
    {
        let mut res = Stats { bytes: 0, msgs: 0, elapsed_us: 0 };
        let mut k: usize = 0;
        while k < v.len()
            invariant
                k <= v@.len(),
                sums_fit(v@),
                res.bytes == total_bytes(v@.subrange(0, k as int)),
                res.msgs == total_msgs(v@.subrange(0, k as int)),
                res.elapsed_us == total_elapsed(v@.subrange(0, k as int)),
            decreases v@.len() - k,
        {
            proof {
                assert(v@.subrange(0, k + 1).drop_last() =~= v@.subrange(0, k as int));
                lemma_prefix_sums(v@, k + 1);
            }
            res.bytes = res.bytes + v[k].bytes;
            res.msgs = res.msgs + v[k].msgs;
            res.elapsed_us = res.elapsed_us + v[k].elapsed_us;
            k = k + 1;
        }
        assert(v@.subrange(0, v@.len() as int) =~= v@);
        res
    }

    /// Per-run average of bytes, messages and span.
    pub fn average(v: &Vec<Stats>) -> (r: Stats)
        requires
            v@.len() > 0,
            sums_fit(v@),
        ensures
            r.bytes == total_bytes(v@) / v@.len(),
            r.msgs == total_msgs(v@) / v@.len(),
            r.elapsed_us == total_elapsed(v@) / v@.len(),
    {
        let mut res = Self::sum(v);
        res.bytes = res.bytes / v.len();
        res.msgs = res.msgs / v.len();
        res.elapsed_us = res.elapsed_us / v.len() as u64;
        res
    }

    /// Total bytes and messages over the average span: the runs are taken to have run side
    /// by side.
    pub fn total(v: &Vec<Stats>) -> (r: Stats)
        requires
            v@.len() > 0,
            sums_fit(v@),
        ensures
            r.bytes == total_bytes(v@),
            r.msgs == total_msgs(v@),
            r.elapsed_us == total_elapsed(v@) / v@.len(),
    {
        let mut res = Self::sum(v);
        res.elapsed_us = res.elapsed_us / v.len() as u64;
        res
    }

    /// Records new cumulative figures and returns what was added since the last ones.
    pub fn update(&mut self, bytes: usize, msgs: usize, elapsed_us: u64) -> (r: Stats)
        requires
            bytes >= old(self).bytes,
            msgs >= old(self).msgs,
            elapsed_us >= old(self).elapsed_us,
        ensures
            *final(self) == (Stats { bytes, msgs, elapsed_us }),
            r == (Stats {
                bytes: (bytes - old(self).bytes) as usize,
                msgs: (msgs - old(self).msgs) as usize,
                elapsed_us: (elapsed_us - old(self).elapsed_us) as u64,
            }),
    {
        let diff = Stats::new(bytes - self.bytes, msgs - self.msgs, elapsed_us - self.elapsed_us);
        *self = Stats::new(bytes, msgs, elapsed_us);
        diff
    }
}

} // verus!
