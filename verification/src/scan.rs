//! How the records of the master file table are shared out among the
//! scanning workers, and what the indexing worker does with what they send.

use vstd::prelude::*;
use crate::indexer::{
    apply_staging, candidates_of, Candidate, CandidateView, DeletedIndex, IndexModel,
};
use crate::util::root_key;

verus! {

/// 0.7 times `cpus`, rounded to the nearest whole number, a half upwards.
pub open spec fn seven_tenths(cpus: nat) -> nat {
    (7 * cpus + 5) / 10
}

/// How many workers scan: the requested number where one is given, but at
/// least one; else seven tenths of the processors, but at least two.
pub open spec fn worker_count_of(cpus: nat, requested: Option<usize>) -> nat {
    match requested {
        Some(v) => if v < 1 {
            1
        } else {
            v as nat
        },
        None => if seven_tenths(cpus) < 2 {
            2
        } else {
            seven_tenths(cpus)
        },
    }
}

/// How many workers scan on a machine of `cpus` processors when `requested`
/// workers are asked for.
pub fn worker_count(cpus: usize, requested: Option<usize>) -> (n: usize)
    ensures
        n == worker_count_of(cpus as nat, requested),
        n >= 1,
{
    match requested {
        Some(v) => if v < 1 {
            1
        } else {
            v
        },
        None => {
            let tens: usize = cpus / 10;
            let ones: usize = cpus % 10;
            let n: usize = 7 * tens + (7 * ones + 5) / 10;
            if n < 2 {
                2
            } else {
                n
            }
        },
    }
}

/// The size of each worker's span when the records from `start` up to, not
/// including, `end` are shared out among `workers`: their number divided by
/// `workers`, rounded up.
pub open spec fn span_size(start: u64, end: u64, workers: nat) -> nat {
    if end <= start || workers == 0 {
        0
    } else {
        let n = (end - start) as nat;
        if n % workers == 0 {
            n / workers
        } else {
            n / workers + 1
        }
    }
}

/// The spans of `size` records each that cover the records from `start` up
/// to, not including, `end`, in order; the last one may be shorter.
pub open spec fn spans_of(start: nat, end: nat, size: nat) -> Seq<(u64, u64)>
    decreases end - start,
{
    if start >= end || size == 0 {
        Seq::<(u64, u64)>::empty()
    } else {
        let next = if end - start <= size {
            end
        } else {
            start + size
        };
        seq![(start as u64, next as u64)] + spans_of(next, end, size)
    }
}

/// The spans in which `threads` workers scan the records from `start` up
/// to, not including, `end`: contiguous, in order, each as long as the
/// number of records divided by `threads`, rounded up, except that the last
/// ends with the records. No span is empty, so there are fewer spans than
/// workers where the records do not go round.
pub fn scan_spans(start: u64, end: u64, threads: usize) -> (spans: Vec<(u64, u64)>)
    requires
        threads >= 1,
    ensures
        spans@ == spans_of(start as nat, end as nat, span_size(start, end, threads as nat)),
{
    let mut spans: Vec<(u64, u64)> = Vec::new();
    if end <= start {
        return spans;
    }
    let n: u64 = end - start;
    let t: u64 = threads as u64;
    proof {
        assert(n == t * (n / t) + n % t && 0 <= n % t < t && 0 <= n / t <= n) by (nonlinear_arith)
            requires
                t >= 1,
                n >= 0,
        ;
        assert(n % t != 0 ==> n / t < n) by (nonlinear_arith)
            requires
                t >= 1,
                n == t * (n / t) + n % t,
                0 <= n % t,
                0 <= n / t,
        ;
        assert(n / t == 0 ==> n % t == n) by (nonlinear_arith)
            requires
                n == t * (n / t) + n % t,
        ;
    }
    let size: u64 = if n % t == 0 {
        n / t
    } else {
        n / t + 1
    };
    assert(size >= 1);
    let mut cur: u64 = start;
    let ghost all = spans_of(start as nat, end as nat, size as nat);
    while cur < end
        invariant
            start <= cur <= end,
            size >= 1,
            spans@ + spans_of(cur as nat, end as nat, size as nat) == all,
        decreases end - cur,
    {
        let next: u64 = if end - cur <= size {
            end
        } else {
            cur + size
        };
        let ghost before = spans@;
        spans.push((cur, next));
        proof {
            assert(spans@ + spans_of(next as nat, end as nat, size as nat) =~= before + (seq![
                (cur, next),
            ] + spans_of(next as nat, end as nat, size as nat)));
        }
        cur = next;
    }
    assert(spans@ + Seq::<(u64, u64)>::empty() =~= spans@);
    spans
}

/// What a scanning worker does at one record.
#[derive(Clone, Copy, Debug, PartialEq, Eq, Structural)]
pub enum ScanStep {
    /// The scan was cancelled: the worker ends.
    Stop,
    /// The record counts as processed and gives nothing.
    Skip,
    /// The record counts as processed and is sent on as a candidate.
    Emit,
}

/// What a scanning worker does at a record: it stops where the scan is
/// cancelled; a record that is missing or in use is passed over, and one
/// that is not in use is sent on.
pub fn scan_step(cancelled: bool, record_in_use: Option<bool>) -> (step: ScanStep)
    ensures
        step == if cancelled {
            ScanStep::Stop
        } else if record_in_use == Some(false) {
            ScanStep::Emit
        } else {
            ScanStep::Skip
        },
{
    if cancelled {
        ScanStep::Stop
    } else {
        match record_in_use {
            Some(false) => ScanStep::Emit,
            _ => ScanStep::Skip,
        }
    }
}

/// How many records a scan goes through when the table holds records up
/// to, not including, `max_record`, and the first `first_normal` of them
/// are the system's own.
pub fn total_records(max_record: u64, first_normal: u64) -> (n: u64)
    ensures
        n == if max_record >= first_normal {
            max_record - first_normal
        } else {
            0
        },
{
    if max_record >= first_normal {
        max_record - first_normal
    } else {
        0
    }
}

/// What reaches the indexing worker while it waits for candidates.
#[derive(Debug)]
pub enum Received {
    /// A scanner sent a candidate.
    Candidate(Candidate),
    /// Nothing came within the waiting time.
    Timeout,
    /// Every scanner is done and nothing is left to receive.
    Disconnected,
}

/// The indexing worker: the index it builds and the candidates that wait
/// to be placed in it.
pub struct IndexerWorker {
    /// The index built so far.
    pub index: DeletedIndex,
    /// The candidates received and not yet placed, oldest first.
    pub staging: Vec<Candidate>,
    /// The number of waiting candidates at which they are placed.
    pub flush_every: usize,
}

impl IndexerWorker {
    /// Whether the index that is built is well-formed.
    pub open spec fn wf(&self) -> bool {
        self.index.wf()
    }

    /// The index that the worker would hand over now: the index built so
    /// far with the waiting candidates placed.
    pub open spec fn outcome(&self) -> IndexModel {
        self.index@.place_all(candidates_of(self.staging@))
    }

    /// The worker at its start: an index that holds the root and nothing
    /// else, and nothing waiting.
    pub fn new(flush_every: usize) -> (w: IndexerWorker)
        ensures
            w.wf(),
            w.index@ == IndexModel::empty().touch_dir(root_key()),
            w.staging@.len() == 0,
            w.flush_every == flush_every,
    {
        let mut index = DeletedIndex::new();
        index.ensure_dirs_from_root("\\");
        proof {
            crate::indexer::lemma_no_components_of_root();
            reveal_strlit("\\");
            assert("\\"@ =~= root_key());
        }
        IndexerWorker { index, staging: Vec::new(), flush_every }
    }

    /// Places the waiting candidates. Returns how many were entered.
    pub fn flush(&mut self) -> (found: u64)
        requires
            old(self).wf(),
        ensures
            final(self).wf(),
            final(self).index@ == old(self).outcome(),
            final(self).staging@.len() == 0,
            final(self).flush_every == old(self).flush_every,
            found == old(self).index@.placed_count(candidates_of(old(self).staging@)),
    {
        apply_staging(&mut self.index, &mut self.staging)
    }

    /// Takes what was received. A candidate joins those waiting, and all of
    /// them are placed once they are `flush_every` or more; a timeout
    /// places those that wait; a disconnect changes nothing. Returns how
    /// many candidates were entered in the index, and whether the worker is
    /// to go on receiving: it is, unless the scanners have disconnected.
    pub fn receive(&mut self, event: Received) -> (r: (u64, bool))
        requires
            old(self).wf(),
        ensures
            final(self).wf(),
            final(self).flush_every == old(self).flush_every,
            r.1 == !(event is Disconnected),
            match event {
                Received::Candidate(c) => {
                    let waiting = candidates_of(old(self).staging@).push(c@);
                    if old(self).staging@.len() + 1 >= old(self).flush_every {
                        &&& final(self).index@ == old(self).index@.place_all(waiting)
                        &&& final(self).staging@.len() == 0
                        &&& r.0 == old(self).index@.placed_count(waiting)
                    } else {
                        &&& final(self).index@ == old(self).index@
                        &&& candidates_of(final(self).staging@) == waiting
                        &&& r.0 == 0
                    }
                },
                Received::Timeout => {
                    &&& final(self).index@ == old(self).outcome()
                    &&& final(self).staging@.len() == 0
                    &&& r.0 == old(self).index@.placed_count(candidates_of(old(self).staging@))
                },
                Received::Disconnected => {
                    &&& final(self).index@ == old(self).index@
                    &&& final(self).staging@ == old(self).staging@
                    &&& r.0 == 0
                },
            },
    {
        match event {
            Received::Candidate(c) => {
                let ghost before = candidates_of(self.staging@);
                self.staging.push(c);
                assert(candidates_of(self.staging@) =~= before.push(c@));
                if self.staging.len() >= self.flush_every {
                    (self.flush(), true)
                } else {
                    (0, true)
                }
            },
            Received::Timeout => {
                if self.staging.len() > 0 {
                    (self.flush(), true)
                } else {
                    assert(candidates_of(self.staging@) =~= Seq::<CandidateView>::empty());
                    (0, true)
                }
            },
            Received::Disconnected => (0, false),
        }
    }

    /// Ends the work: places the candidates that still wait and hands the
    /// index over, with the number of candidates that were entered at last.
    pub fn finish(self) -> (r: (DeletedIndex, u64))
        requires
            self.wf(),
        ensures
            r.0.wf(),
            r.0@ == self.outcome(),
            r.1 == self.index@.placed_count(candidates_of(self.staging@)),
    {
        let mut w = self;
        let found = w.flush();
        (w.index, found)
    }
}

} // verus!
