//! Byte counting for a transfer of known length, with a notification each
//! time the whole-number percentage moves past the last one reported.

use vstd::prelude::*;

verus! {

/// What a progress notification carries.
#[derive(Clone, Copy, Debug, PartialEq, Eq)]
pub struct ProgressEvent {
    /// Whole percent of the declared total that has been read. It exceeds
    /// 100 when the source yields more than was declared.
    pub percent: u128,
    /// Bytes read so far.
    pub current: u64,
    /// Declared total length.
    pub total: u64,
}

/// The counters of a [`ProgressReader`], as mathematical values.
pub ghost struct ProgressView {
    pub total: nat,
    pub current: nat,
    pub last_percent: nat,
}

/// Whole percent that `current` bytes are of `total` bytes, rounded down.
pub open spec fn percent_of(current: nat, total: nat) -> nat
    recommends
        total > 0,
{
    (current * 100) / total
}

/// Whether a read that brings the counter to `current` is to be reported.
pub open spec fn crosses(v: ProgressView, current: nat) -> bool {
    v.total > 0 && percent_of(current, v.total) > v.last_percent
}

/// The counters after `n` more bytes were read.
pub open spec fn after_read(v: ProgressView, n: nat) -> ProgressView {
    let current = v.current + n;
    ProgressView {
        total: v.total,
        current,
        last_percent: if crosses(v, current) {
            percent_of(current, v.total)
        } else {
            v.last_percent
        },
    }
}

/// The notification that a read of `n` bytes gives rise to, if any.
pub open spec fn event_of(v: ProgressView, n: nat) -> Option<ProgressEvent> {
    let current = v.current + n;
    if crosses(v, current) {
        Some(
            ProgressEvent {
                percent: percent_of(current, v.total) as u128,
                current: current as u64,
                total: v.total as u64,
            },
        )
    } else {
        None
    }
}

/// A byte source together with the count of what was read from it.
///
/// The source itself is only carried: whoever reads from `reader` tells the
/// counter how many bytes came with [`ProgressReader::advance`].
pub struct ProgressReader<R> {
    /// The wrapped source.
    pub reader: R,
    /// Declared total length.
    pub total: u64,
    /// Bytes read so far.
    pub current: u64,
    /// The percentage last reported, 0 before the first report.
    pub last_print: u128,
}

impl<R> ProgressReader<R> {
    /// The counters as mathematical values.
    pub open spec fn counters(&self) -> ProgressView {
        ProgressView {
            total: self.total as nat,
            current: self.current as nat,
            last_percent: self.last_print as nat,
        }
    }

    /// Wraps `reader`, of which `total` bytes are expected. Nothing has been
    /// read and nothing reported yet.
    pub fn new(reader: R, total: u64) -> (wrapped: Self)
        ensures
            wrapped.reader == reader,
            wrapped.counters() == (ProgressView { total: total as nat, current: 0, last_percent: 0 }),
    {
        Self { reader, total, current: 0, last_print: 0 }
    }

    /// Counts `n` bytes that were just read from the source.
    ///
    /// Returns the notification to send when the whole-number percentage has
    /// moved past the last one reported, and nothing otherwise; with a total
    /// of zero nothing is ever reported. The source is left alone.
    pub fn advance(&mut self, n: usize) -> (event: Option<ProgressEvent>)
        requires
            old(self).counters().current + n <= u64::MAX,
        ensures
            final(self).reader == old(self).reader,
            final(self).counters() == after_read(old(self).counters(), n as nat),
            event == event_of(old(self).counters(), n as nat),
    {
        self.current = self.current + n as u64;
        if self.total > 0 {
            let percent_done: u128 = (self.current as u128 * 100) / (self.total as u128);
            if percent_done > self.last_print {
                self.last_print = percent_done;
                return Some(
                    ProgressEvent { percent: percent_done, current: self.current, total: self.total },
                );
            }
        }
        None
    }
}

/// The counters after the reads `reads`, in order.
pub open spec fn after_reads(v: ProgressView, reads: Seq<nat>) -> ProgressView
    decreases reads.len(),
{
    if reads.len() == 0 {
        v
    } else {
        after_read(after_reads(v, reads.drop_last()), reads.last())
    }
}

/// The percentages reported over the reads `reads`, in order.
pub open spec fn reported(v: ProgressView, reads: Seq<nat>) -> Seq<nat>
    decreases reads.len(),
{
    if reads.len() == 0 {
        Seq::empty()
    } else {
        let before = after_reads(v, reads.drop_last());
        let earlier = reported(v, reads.drop_last());
        if crosses(before, before.current + reads.last()) {
            earlier.push(percent_of(before.current + reads.last(), before.total))
        } else {
            earlier
        }
    }
}

/// With a total of zero nothing is ever reported.
pub proof fn law_no_total_no_report(v: ProgressView, reads: Seq<nat>)
    requires
        v.total == 0,
    ensures
        reported(v, reads) == Seq::<nat>::empty(),
        after_reads(v, reads).total == 0,
    decreases reads.len(),
{
    if reads.len() > 0 {
        law_no_total_no_report(v, reads.drop_last());
    }
}

/// Over any reads the percentages reported go strictly up, from above the
/// one last reported before: none comes twice and none goes back. The last
/// of them is the one that the counter then holds.
pub proof fn law_reports_go_up(v: ProgressView, reads: Seq<nat>)
    ensures
        forall|i: int| 0 <= i < reported(v, reads).len() ==> v.last_percent < #[trigger] reported(
            v,
            reads,
        )[i],
        forall|i: int, j: int|
            0 <= i < j < reported(v, reads).len() ==> reported(v, reads)[i] < reported(
                v,
                reads,
            )[j],
        after_reads(v, reads).last_percent == if reported(v, reads).len() > 0 {
            reported(v, reads).last()
        } else {
            v.last_percent
        },
        after_reads(v, reads).total == v.total,
    decreases reads.len(),
{
    if reads.len() > 0 {
        law_reports_go_up(v, reads.drop_last());
    }
}

} // verus!
