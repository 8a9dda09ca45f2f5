//! Progress of a build in thousandths, reported each time it advances.

use crate::values::strictly_increasing;
use vstd::prelude::*;

verus! {

/// How far a build has come, in thousandths, when `processed` of `total`
/// entries are written. A build of nothing is complete.
pub open spec fn per_mille(processed: int, total: int) -> int {
    if total <= 0 {
        1000
    } else if processed * 1000 / total >= 1000 {
        1000
    } else {
        processed * 1000 / total
    }
}

/// The report made last, or zero if none was made.
pub open spec fn last_report(r: Seq<u64>) -> int {
    if r.len() == 0 {
        0
    } else {
        r.last() as int
    }
}

/// The reports made while the first `n` of `total` entries are written:
/// after each entry the progress in thousandths, if it has advanced.
pub open spec fn reports(n: nat, total: int) -> Seq<u64>
    decreases n,
{
    if n == 0 {
        Seq::empty()
    } else if per_mille(n as int, total) > last_report(reports((n - 1) as nat, total)) {
        reports((n - 1) as nat, total).push(per_mille(n as int, total) as u64)
    } else {
        reports((n - 1) as nat, total)
    }
}

/// The reports of a build ascend strictly and lie between 1 and 1000.
pub proof fn law_reports_ascend(n: nat, total: int)
    ensures
        strictly_increasing(reports(n, total)),
        forall|i: int| 0 <= i < reports(n, total).len() ==> 1 <= #[trigger] reports(n, total)[i] <= 1000,
        0 <= last_report(reports(n, total)) <= 1000,
    decreases n,
{
    if n > 0 {
        law_reports_ascend((n - 1) as nat, total);
        let before = reports((n - 1) as nat, total);
        let p = per_mille(n as int, total);
        if p > last_report(before) {
            let after = before.push(p as u64);
            assert forall|i: int, j: int| 0 <= i < j < after.len() implies after[i] < after[j] by {
                if j == before.len() {
                    assert(before[i] <= before.last()) by {
                        if i < before.len() - 1 {
                            assert(before[i] < before[before.len() - 1]);
                        }
                    }
                }
            }
        }
    }
}

/// Counts the entries written and tells when the progress advances.
pub struct Progress {
    total: u64,
    processed: u64,
    last: u64,
}

impl Progress {
    /// The number of entries that the build expects.
    pub closed spec fn total(&self) -> int {
        self.total as int
    }

    /// The number of entries written so far.
    pub closed spec fn processed(&self) -> nat {
        self.processed as nat
    }

    /// The count of entries fits 64 bits.
    pub proof fn lemma_processed_fits(&self)
        ensures
            self.processed() <= u64::MAX,
    {
    }

    /// The report made last was the last of the reports for the entries
    /// written so far.
    pub closed spec fn wf(&self) -> bool {
        self.last as int == last_report(reports(self.processed as nat, self.total as int))
    }

    /// A meter for a build of `total` entries, none of them written.
    pub fn new(total: u64) -> (p: Progress)
        ensures
            p.wf(),
            p.total() == total,
            p.processed() == 0,
    {
        Progress { total, processed: 0, last: 0 }
    }

    /// Counts one more entry as written. Returns the progress in
    /// thousandths if it has advanced. The count stops at the largest
    /// number it can hold.
    pub fn advance(&mut self) -> (report: Option<u64>)
        requires
            old(self).wf(),
        ensures
            final(self).wf(),
            final(self).total() == old(self).total(),
            final(self).processed() == if old(self).processed() < u64::MAX {
                old(self).processed() + 1
            } else {
                old(self).processed()
            },
            reports(final(self).processed(), final(self).total()) == match report {
                Some(p) => reports(old(self).processed(), old(self).total()).push(p),
                None => reports(old(self).processed(), old(self).total()),
            },
            report matches Some(p) ==> p as int == per_mille(
                final(self).processed() as int,
                final(self).total(),
            ),
    {
        if self.processed == u64::MAX {
            return None;
        }
        self.processed = self.processed + 1;
        let now: u64 = if self.total == 0 {
            1000
        } else {
            let scaled: u128 = (self.processed as u128) * 1000 / (self.total as u128);
            if scaled >= 1000 {
                1000
            } else {
                scaled as u64
            }
        };
        if now > self.last {
            self.last = now;
            Some(now)
        } else {
            None
        }
    }
}

} // verus!
