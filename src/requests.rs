//! Inventory requests to peers and attachment requests, each with its priority order.
use vstd::prelude::*;
use crate::attachment::ContractId;
use crate::hash::Hash160;
use crate::queue::Prioritized;
use crate::reliability::{
    ReliabilityReport,
    report_ranks_before,
    lemma_report_order_total,
    lemma_report_order_transitive,
};

verus! {

/// A question to one peer: which positions of these pages of a contract does it hold.
#[derive(Clone, Debug, PartialEq, Eq, Hash)]
pub struct AttachmentsInventoryRequest {
    pub url: String,
    pub block_height: u64,
    pub pages: Vec<u32>,
    pub contract_id: ContractId,
    /// The peer's record when the request was made.
    pub reliability_report: ReliabilityReport,
}

impl AttachmentsInventoryRequest {
    pub fn get_url(&self) -> (r: &String)
        ensures
            r == &self.url,
    {
        &self.url
    }
}

impl Prioritized for AttachmentsInventoryRequest {
    open spec fn ranks_before_spec(&self, other: &Self) -> bool {
        report_ranks_before(self.reliability_report, other.reliability_report)
    }

    fn ranks_before(&self, other: &Self) -> (r: bool) {
        self.reliability_report.ranks_before(&other.reliability_report)
    }

    proof fn lemma_total(a: &Self, b: &Self) {
        lemma_report_order_total(a.reliability_report, b.reliability_report);
    }

    proof fn lemma_transitive(a: &Self, b: &Self, c: &Self) {
        lemma_report_order_transitive(
            a.reliability_report,
            b.reliability_report,
            c.reliability_report,
        );
    }
}

/// The peers that hold one attachment as far as their inventories tell, with their records.
pub type Sources = Vec<(String, ReliabilityReport)>;

/// Index of the first source with the highest-ranking record; `-1` when there is none.
pub open spec fn best_index(s: Seq<(String, ReliabilityReport)>) -> int
    decreases s.len(),
{
    if s.len() == 0 {
        -1
    } else {
        let i = best_index(s.drop_last());
        if i >= 0 && report_ranks_before(s[i].1, s.last().1) {
            i
        } else {
            s.len() - 1
        }
    }
}

proof fn lemma_best_index(s: Seq<(String, ReliabilityReport)>)
    ensures
        s.len() == 0 <==> best_index(s) == -1,
        s.len() > 0 ==> 0 <= best_index(s) < s.len(),
        forall|j: int| 0 <= j < s.len() ==> report_ranks_before(s[best_index(s)].1, #[trigger] s[j].1),
    decreases s.len(),
{
    if s.len() > 0 {
        let r = s.drop_last();
        lemma_best_index(r);
        let i = best_index(r);
        lemma_report_order_total(s.last().1, s.last().1);
        if i >= 0 {
            lemma_report_order_total(s[i].1, s.last().1);
        }
        assert forall|j: int| 0 <= j < s.len() implies report_ranks_before(
            s[best_index(s)].1,
            #[trigger] s[j].1,
        ) by {
            if j < s.len() - 1 {
                assert(s[j] == r[j]);
                if best_index(s) != i {
                    lemma_report_order_transitive(s.last().1, s[i].1, s[j].1);
                }
            }
        }
    }
}

/// A request for the content of one attachment from the peers known to hold it.
#[derive(Clone, Debug, PartialEq, Eq, Hash)]
pub struct AttachmentRequest {
    pub sources: Sources,
    pub content_hash: Hash160,
}

/// `a` ranks at least as high as `b`: fewer sources; then a best source whose record
/// ranks at least as high.
pub open spec fn attachment_request_ranks_before(a: AttachmentRequest, b: AttachmentRequest) -> bool {
    let (sa, sb) = (a.sources@, b.sources@);
    sa.len() < sb.len() || (sa.len() == sb.len() && (sa.len() == 0 || report_ranks_before(
        sa[best_index(sa)].1,
        sb[best_index(sb)].1,
    )))
}

impl AttachmentRequest {
    /// Index of the first source whose record ranks highest; `None` without sources.
    pub fn most_reliable_source(&self) -> (r: Option<usize>)
        ensures
            r.is_none() <==> self.sources@.len() == 0,
            r.is_some() ==> r.unwrap() == best_index(self.sources@) && r.unwrap() < self.sources@.len(),
            r.is_some() ==> forall|j: int|
                0 <= j < self.sources@.len() ==> report_ranks_before(
                    self.sources@[r.unwrap() as int].1,
                    #[trigger] self.sources@[j].1,
                ),
    {
        proof {
            lemma_best_index(self.sources@);
        }
        if self.sources.len() == 0 {
            return None;
        }
        let mut best: usize = 0;
        let mut k: usize = 1;
        proof {
            reveal_with_fuel(best_index, 2);
            assert(self.sources@.subrange(0, 1).drop_last() =~= Seq::<(String, ReliabilityReport)>::empty());
        }
        while k < self.sources.len()
            invariant
                1 <= k <= self.sources@.len(),
                best == best_index(self.sources@.subrange(0, k as int)),
            decreases self.sources@.len() - k,
        {
            let ghost pre = self.sources@.subrange(0, k as int);
            proof {
                assert(self.sources@.subrange(0, k + 1).drop_last() =~= pre);
                lemma_best_index(pre);
            }
            if !self.sources[best].1.ranks_before(&self.sources[k].1) {
                best = k;
            }
            k = k + 1;
        }
        proof {
            assert(self.sources@.subrange(0, self.sources@.len() as int) =~= self.sources@);
        }
        Some(best)
    }

    /// The URL of the most reliable source; `None` without sources.
    pub fn get_url(&self) -> (r: Option<&String>)
        ensures
            r.is_none() <==> self.sources@.len() == 0,
            r.is_some() ==> r.unwrap() == &self.sources@[best_index(self.sources@)].0,
    {
        match self.most_reliable_source() {
            Some(i) => Some(&self.sources[i].0),
            None => None,
        }
    }
}

impl Prioritized for AttachmentRequest {
    open spec fn ranks_before_spec(&self, other: &Self) -> bool {
        attachment_request_ranks_before(*self, *other)
    }

    fn ranks_before(&self, other: &Self) -> (r: bool) {
        let (na, nb) = (self.sources.len(), other.sources.len());
        if na != nb {
            return na < nb;
        }
        match (self.most_reliable_source(), other.most_reliable_source()) {
            (Some(i), Some(j)) => self.sources[i].1.ranks_before(&other.sources[j].1),
            _ => true,
        }
    }

    proof fn lemma_total(a: &Self, b: &Self) {
        let (sa, sb) = (a.sources@, b.sources@);
        if sa.len() == sb.len() && sa.len() > 0 {
            lemma_report_order_total(sa[best_index(sa)].1, sb[best_index(sb)].1);
        }
    }

    proof fn lemma_transitive(a: &Self, b: &Self, c: &Self) {
        let (sa, sb, sc) = (a.sources@, b.sources@, c.sources@);
        if sa.len() == sb.len() && sb.len() == sc.len() && sa.len() > 0 {
            lemma_report_order_transitive(
                sa[best_index(sa)].1,
                sb[best_index(sb)].1,
                sc[best_index(sc)].1,
            );
        }
    }
}

} // verus!
