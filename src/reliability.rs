//! Peer reliability counters and the score derived from them.
use vstd::prelude::*;

verus! {

/// Historical request outcomes of one peer.
#[derive(Clone, Copy, Debug, PartialEq, Eq, Structural, Hash)]
pub struct ReliabilityReport {
    pub total_requests_sent: u32,
    pub total_requests_success: u32,
}

/// Numerator of the Laplace-smoothed success ratio `(success + 1) / (sent + 2)`.
pub open spec fn score_num(r: ReliabilityReport) -> int {
    r.total_requests_success + 1
}

/// Denominator of the Laplace-smoothed success ratio `(success + 1) / (sent + 2)`.
pub open spec fn score_den(r: ReliabilityReport) -> int {
    r.total_requests_sent + 2
}

/// The score of `a` is strictly greater than the score of `b` (compared as fractions).
pub open spec fn score_gt(a: ReliabilityReport, b: ReliabilityReport) -> bool {
    score_num(a) * score_den(b) > score_num(b) * score_den(a)
}

/// The scores of `a` and `b` are the same fraction.
pub open spec fn score_eq(a: ReliabilityReport, b: ReliabilityReport) -> bool {
    score_num(a) * score_den(b) == score_num(b) * score_den(a)
}

/// `a` ranks at least as high as `b`: a higher score, or the same score and at
/// least as many requests sent.
pub open spec fn report_ranks_before(a: ReliabilityReport, b: ReliabilityReport) -> bool {
    score_gt(a, b) || (score_eq(a, b) && a.total_requests_sent >= b.total_requests_sent)
}

impl ReliabilityReport {
    pub fn new(total_requests_sent: u32, total_requests_success: u32) -> (r: ReliabilityReport)
        ensures
            r.total_requests_sent == total_requests_sent,
            r.total_requests_success == total_requests_success,
    {
        ReliabilityReport { total_requests_sent, total_requests_success }
    }

    /// The score as the fraction `(numerator, denominator)`, i.e. `(success + 1, sent + 2)`.
    pub fn score(&self) -> (r: (u64, u64))
        ensures
            r.0 == score_num(*self),
            r.1 == score_den(*self),
            r.1 > 0,
    {
        (self.total_requests_success as u64 + 1, self.total_requests_sent as u64 + 2)
    }

    /// Counts one more request sent to the peer, and one more success when `succeeded`.
    /// Each counter stops at `u32::MAX`.
    pub fn record_request(&mut self, succeeded: bool)
        ensures
            final(self).total_requests_sent == if old(self).total_requests_sent < u32::MAX {
                old(self).total_requests_sent + 1
            } else {
                old(self).total_requests_sent as int
            },
            final(self).total_requests_success == if succeeded && old(self).total_requests_success
                < u32::MAX {
                old(self).total_requests_success + 1
            } else {
                old(self).total_requests_success as int
            },
            old(self).total_requests_success <= old(self).total_requests_sent
                ==> final(self).total_requests_success <= final(self).total_requests_sent,
    {
        if self.total_requests_sent < u32::MAX {
            self.total_requests_sent = self.total_requests_sent + 1;
        }
        if succeeded && self.total_requests_success < u32::MAX {
            self.total_requests_success = self.total_requests_success + 1;
        }
    }

    /// `score_num(self) * score_den(other)`, the left side of a score comparison.
    fn cross(&self, other: &ReliabilityReport) -> (r: u128)
        ensures
            r == score_num(*self) * score_den(*other),
    {
        let n = self.total_requests_success as u128 + 1;
        let d = other.total_requests_sent as u128 + 2;
        proof {
            assert(n * d <= 0x1_0000_0001u128 * 0x1_0000_0001u128) by (nonlinear_arith)
                requires n <= 0x1_0000_0001u128, d <= 0x1_0000_0001u128, n >= 0, d >= 0;
        }
        n * d
    }

    /// Whether the score of `self` is strictly greater than that of `other`.
    pub fn has_better_score_than(&self, other: &ReliabilityReport) -> (r: bool)
        ensures
            r == score_gt(*self, *other),
    {
        self.cross(other) > other.cross(self)
    }

    /// Whether `self` ranks at least as high as `other` in request priority.
    pub fn ranks_before(&self, other: &ReliabilityReport) -> (r: bool)
        ensures
            r == report_ranks_before(*self, *other),
    {
        let lhs = self.cross(other);
        let rhs = other.cross(self);
        lhs > rhs || (lhs == rhs && self.total_requests_sent >= other.total_requests_sent)
    }
}

/// Any two reports are comparable.
pub proof fn lemma_report_order_total(a: ReliabilityReport, b: ReliabilityReport)
    ensures
        report_ranks_before(a, b) || report_ranks_before(b, a),
{
}

/// The report order is transitive.
pub proof fn lemma_report_order_transitive(
    a: ReliabilityReport,
    b: ReliabilityReport,
    c: ReliabilityReport,
)
    requires
        report_ranks_before(a, b),
        report_ranks_before(b, c),
    ensures
        report_ranks_before(a, c),
{
    let (an, ad, bn, bd, cn, cd) = (score_num(a), score_den(a), score_num(b), score_den(b), score_num(c), score_den(c));
    assert(an * bd >= bn * ad && bn * cd >= cn * bd ==> an * cd >= cn * ad) by (nonlinear_arith)
        requires ad > 0, bd > 0, cd > 0, an > 0, bn > 0, cn > 0;
    assert(an * bd > bn * ad && bn * cd >= cn * bd ==> an * cd > cn * ad) by (nonlinear_arith)
        requires ad > 0, bd > 0, cd > 0, an > 0, bn > 0, cn > 0;
    assert(an * bd >= bn * ad && bn * cd > cn * bd ==> an * cd > cn * ad) by (nonlinear_arith)
        requires ad > 0, bd > 0, cd > 0, an > 0, bn > 0, cn > 0;
}

/// Two reports that rank before each other are the same report.
pub proof fn lemma_report_order_antisymmetric(a: ReliabilityReport, b: ReliabilityReport)
    requires
        report_ranks_before(a, b),
        report_ranks_before(b, a),
    ensures
        a == b,
{
    assert(score_num(a) * score_den(b) == score_num(b) * score_den(a));
    assert(a.total_requests_sent == b.total_requests_sent);
    let d = score_den(a);
    assert(score_num(a) * d == score_num(b) * d ==> score_num(a) == score_num(b)) by (nonlinear_arith)
        requires d > 0;
}

/// The score lies strictly between 0 and 1 whenever no more requests succeeded than
/// were sent, and it does not decrease as successes grow with the same number sent.
pub proof fn lemma_score_bounds_and_monotone(a: ReliabilityReport, b: ReliabilityReport)
    requires
        a.total_requests_success <= a.total_requests_sent,
        b.total_requests_sent == a.total_requests_sent,
        a.total_requests_success <= b.total_requests_success,
    ensures
        0 < score_num(a) < score_den(a),
        !score_gt(a, b),
{
    let d = score_den(a);
    assert(score_num(a) <= score_num(b) ==> score_num(a) * d <= score_num(b) * d) by (nonlinear_arith)
        requires d > 0;
}

} // verus!
