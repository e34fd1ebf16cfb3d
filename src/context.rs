//! The state of one round of work on a batch: the peers, what their inventories
//! reported, and the prioritised requests built from them.
use vstd::prelude::*;
use crate::attachment::ContractId;
use crate::batch::{
    AttachmentsBatch,
    MAX_ATTACHMENT_INV_PAGES_PER_REQUEST,
    contract_is_tracked,
    lemma_pagination,
    missing_pages_in_order,
    paginate,
    strictly_increasing,
};
use crate::queue::PriorityQueue;
use crate::reliability::ReliabilityReport;
use crate::requests::{AttachmentRequest, AttachmentsInventoryRequest};

verus! {

/// Number of positions in one inventory page; a longer presence vector is malformed.
pub const ATTACHMENTS_INV_PAGE_SIZE: usize = 8;

/// Settings fixed when a context is made.
#[derive(Clone, Copy, Debug, PartialEq, Eq, Structural)]
pub struct ConnectionOptions {
    /// Rounds without progress after which a batch is given up.
    pub max_attachment_retry_count: u32,
}

impl Default for ConnectionOptions {
    fn default() -> (r: ConnectionOptions)
        ensures
            r.max_attachment_retry_count == 5,
    {
        ConnectionOptions { max_attachment_retry_count: 5 }
    }
}

/// One page of a peer's inventory: byte `i` is nonzero when the peer holds position `i`.
#[derive(Clone, Debug, PartialEq, Eq)]
pub struct AttachmentPage {
    pub index: u32,
    pub inventory: Vec<u8>,
}

/// A decoded inventory response.
#[derive(Clone, Debug, PartialEq, Eq)]
pub struct GetAttachmentsInvResponse {
    pub pages: Vec<AttachmentPage>,
}

/// The answers to the inventory requests of a round: for each request, each peer asked
/// and its response, `None` where it failed or timed out.
#[derive(Debug)]
pub struct BatchedRequestsResult {
    pub succeeded: Vec<(AttachmentsInventoryRequest, Vec<(String, Option<GetAttachmentsInvResponse>)>)>,
}

impl BatchedRequestsResult {
    pub fn empty() -> (r: BatchedRequestsResult)
        ensures
            r.succeeded@.len() == 0,
    {
        BatchedRequestsResult { succeeded: Vec::new() }
    }
}

/// What one peer reported of one page of a contract.
#[derive(Clone, Debug, PartialEq, Eq)]
pub struct PageAvailability {
    pub contract_id: ContractId,
    pub url: String,
    pub page_index: u32,
    pub inventory: Vec<u8>,
}

/// The mathematical value of a [`PageAvailability`].
pub struct AvailabilityView {
    pub contract: (Seq<char>, Seq<char>),
    pub url: Seq<char>,
    pub page_index: u32,
    pub inventory: Seq<u8>,
}

impl View for PageAvailability {
    type V = AvailabilityView;

    open spec fn view(&self) -> AvailabilityView {
        AvailabilityView {
            contract: self.contract_id@,
            url: self.url@,
            page_index: self.page_index,
            inventory: self.inventory@,
        }
    }
}

pub open spec fn availability_views(s: Seq<PageAvailability>) -> Seq<AvailabilityView> {
    s.map_values(|a: PageAvailability| a@)
}

/// The record kept of `page` as answered by `url` to `req`: none when the page was not
/// asked for or its presence vector is longer than a page.
pub open spec fn page_record(req: AttachmentsInventoryRequest, url: String, page: AttachmentPage) -> Option<
    AvailabilityView,
> {
    if req.pages@.contains(page.index) && page.inventory@.len() <= ATTACHMENTS_INV_PAGE_SIZE {
        Some(
            AvailabilityView {
                contract: req.contract_id@,
                url: url@,
                page_index: page.index,
                inventory: page.inventory@,
            },
        )
    } else {
        None
    }
}

pub open spec fn response_reports(
    req: AttachmentsInventoryRequest,
    url: String,
    resp: GetAttachmentsInvResponse,
    v: AvailabilityView,
) -> bool {
    exists|g: int| 0 <= g < resp.pages@.len() && page_record(req, url, #[trigger] resp.pages@[g]) == Some(v)
}

pub open spec fn request_reports(
    req: AttachmentsInventoryRequest,
    responses: Seq<(String, Option<GetAttachmentsInvResponse>)>,
    v: AvailabilityView,
) -> bool {
    exists|m: int|
        0 <= m < responses.len() && (#[trigger] responses[m]).1.is_some() && response_reports(
            req,
            responses[m].0,
            responses[m].1.unwrap(),
            v,
        )
}

/// Some well-formed page of some response in `res` yields the record `v`.
pub open spec fn results_report(res: BatchedRequestsResult, v: AvailabilityView) -> bool {
    exists|k: int|
        0 <= k < res.succeeded@.len() && request_reports(
            (#[trigger] res.succeeded@[k]).0,
            res.succeeded@[k].1@,
            v,
        )
}

/// Some record says that the peer at `url` holds position `pos` of page `page` of contract `c`.
pub open spec fn peer_holds(
    avail: Seq<AvailabilityView>,
    c: (Seq<char>, Seq<char>),
    url: Seq<char>,
    page: u32,
    pos: u32,
) -> bool {
    exists|j: int|
        0 <= j < avail.len() && (#[trigger] avail[j]).contract == c && avail[j].url == url
            && avail[j].page_index == page && pos < avail[j].inventory.len()
            && avail[j].inventory[pos as int] != 0
}

pub open spec fn source_views(s: Seq<(String, ReliabilityReport)>) -> Seq<(Seq<char>, ReliabilityReport)> {
    s.map_values(|p: (String, ReliabilityReport)| (p.0@, p.1))
}

/// The mathematical value of an inventory request.
pub struct InventoryRequestView {
    pub url: Seq<char>,
    pub block_height: u64,
    pub pages: Seq<u32>,
    pub contract: (Seq<char>, Seq<char>),
    pub report: ReliabilityReport,
}

pub open spec fn inventory_request_view(q: AttachmentsInventoryRequest) -> InventoryRequestView {
    InventoryRequestView {
        url: q.url@,
        block_height: q.block_height,
        pages: q.pages@,
        contract: q.contract_id@,
        report: q.reliability_report,
    }
}

/// The pages of contract `c` that one inventory request asks about, chunk by chunk.
pub open spec fn page_chunks(b: AttachmentsBatch, c: (Seq<char>, Seq<char>)) -> Seq<Seq<u32>> {
    paginate(missing_pages_in_order(b@, c), MAX_ATTACHMENT_INV_PAGES_PER_REQUEST as nat)
}

/// The request to peer `p` of `peers` for chunk `i` of the missing pages of contract `c`.
pub open spec fn planned_request(
    b: AttachmentsBatch,
    peers: Seq<(String, ReliabilityReport)>,
    c: (Seq<char>, Seq<char>),
    i: int,
    p: int,
) -> InventoryRequestView {
    InventoryRequestView {
        url: peers[p].0@,
        block_height: b.block_height,
        pages: page_chunks(b, c)[i],
        contract: c,
        report: peers[p].1,
    }
}

pub open spec fn is_planned(
    b: AttachmentsBatch,
    peers: Seq<(String, ReliabilityReport)>,
    c: (Seq<char>, Seq<char>),
    i: int,
    p: int,
) -> bool {
    contract_is_tracked(b@, c) && 0 <= i < page_chunks(b, c).len() && 0 <= p < peers.len()
}

/// `v` is the request to some peer for some chunk of the missing pages of some tracked
/// contract.
pub open spec fn is_planned_view(
    b: AttachmentsBatch,
    peers: Seq<(String, ReliabilityReport)>,
    v: InventoryRequestView,
) -> bool {
    exists|c: (Seq<char>, Seq<char>), i: int, p: int|
        #[trigger] is_planned(b, peers, c, i, p) && v == planned_request(b, peers, c, i, p)
}

/// Some request of `qs` has the value `v`.
pub open spec fn queue_has(qs: Seq<AttachmentsInventoryRequest>, v: InventoryRequestView) -> bool {
    exists|k: int| 0 <= k < qs.len() && inventory_request_view(#[trigger] qs[k]) == v
}

proof fn lemma_queue_has_push(qs: Seq<AttachmentsInventoryRequest>, x: AttachmentsInventoryRequest, v: InventoryRequestView)
    ensures
        queue_has(qs, v) ==> queue_has(qs.push(x), v),
        inventory_request_view(x) == v ==> queue_has(qs.push(x), v),
{
    if queue_has(qs, v) {
        let k = choose|k: int| 0 <= k < qs.len() && inventory_request_view(#[trigger] qs[k]) == v;
        assert(qs.push(x)[k] == qs[k]);
    }
    assert(qs.push(x)[qs.len() as int] == x);
}

/// No two peers of the table share a URL.
pub open spec fn urls_unique(peers: Seq<(String, ReliabilityReport)>) -> bool {
    forall|i: int, j: int|
        0 <= i < peers.len() && 0 <= j < peers.len() && i != j ==> (#[trigger] peers[i]).0@ != (
        #[trigger] peers[j]).0@
}

/// No two requests of `qs` have the same value.
pub open spec fn views_distinct(qs: Seq<AttachmentsInventoryRequest>) -> bool {
    forall|k1: int, k2: int|
        0 <= k1 < k2 < qs.len() ==> inventory_request_view(#[trigger] qs[k1]) != inventory_request_view(
            #[trigger] qs[k2],
        )
}

/// `(a2, i2, p2)` comes before `(a, i, p)` in lexicographic order.
pub open spec fn lex_before(a2: int, i2: int, p2: int, a: int, i: int, p: int) -> bool {
    a2 < a || (a2 == a && (i2 < i || (i2 == i && p2 < p)))
}

/// `v` is the planned request for contract `cv[a2]`, chunk `i2` and peer `p2`, for some
/// triple before `(a, i, p)`.
pub open spec fn placed_before(
    b: AttachmentsBatch,
    peers: Seq<(String, ReliabilityReport)>,
    cv: Seq<(Seq<char>, Seq<char>)>,
    v: InventoryRequestView,
    a: int,
    i: int,
    p: int,
) -> bool {
    exists|a2: int, i2: int, p2: int|
        #[trigger] lex_before(a2, i2, p2, a, i, p) && 0 <= a2 < cv.len() && is_planned(
            b,
            peers,
            cv[a2],
            i2,
            p2,
        ) && v == planned_request(b, peers, cv[a2], i2, p2)
}

proof fn lemma_placed_later(
    b: AttachmentsBatch,
    peers: Seq<(String, ReliabilityReport)>,
    cv: Seq<(Seq<char>, Seq<char>)>,
    v: InventoryRequestView,
    a: int,
    i: int,
    p: int,
    a3: int,
    i3: int,
    p3: int,
)
    requires
        placed_before(b, peers, cv, v, a, i, p),
        lex_before(a, i, p, a3, i3, p3) || (a == a3 && i + 1 == i3 && p == peers.len() && p3 == 0)
            || (a + 1 == a3 && i3 == 0 && p3 == 0 && p == 0 && i == page_chunks(b, cv[a]).len()),
    ensures
        placed_before(b, peers, cv, v, a3, i3, p3),
{
    let (a2, i2, p2) = choose|a2: int, i2: int, p2: int|
        #[trigger] lex_before(a2, i2, p2, a, i, p) && 0 <= a2 < cv.len() && is_planned(b, peers, cv[a2], i2, p2)
            && v == planned_request(b, peers, cv[a2], i2, p2);
    assert(lex_before(a2, i2, p2, a3, i3, p3));
}

/// Planned requests for two different triples differ.
proof fn lemma_planned_distinct(
    b: AttachmentsBatch,
    peers: Seq<(String, ReliabilityReport)>,
    cv: Seq<(Seq<char>, Seq<char>)>,
    a2: int,
    i2: int,
    p2: int,
    a: int,
    i: int,
    p: int,
)
    requires
        lex_before(a2, i2, p2, a, i, p),
        0 <= a2 < cv.len(),
        0 <= a < cv.len(),
        cv.no_duplicates(),
        urls_unique(peers),
        is_planned(b, peers, cv[a2], i2, p2),
        is_planned(b, peers, cv[a], i, p),
        strictly_increasing(missing_pages_in_order(b@, cv[a])),
    ensures
        planned_request(b, peers, cv[a2], i2, p2) != planned_request(b, peers, cv[a], i, p),
{
    if a2 == a && i2 != i {
        let m = missing_pages_in_order(b@, cv[a]);
        lemma_pagination(m);
        let chunks = page_chunks(b, cv[a]);
        assert(chunks[i2][0] == m[i2 * 8]);
        assert(chunks[i][0] == m[i * 8]);
        assert(i2 * 8 < i * 8);
        assert(chunks[i2][0] != chunks[i][0]);
    } else if a2 == a && p2 != p {
        assert(peers[p2].0@ != peers[p].0@);
    }
}

/// A batch, the peers that may serve it, and what their inventories have told so far.
#[derive(Debug)]
pub struct AttachmentsBatchStateContext {
    pub attachments_batch: AttachmentsBatch,
    pub peers: Vec<(String, ReliabilityReport)>,
    pub connection_options: ConnectionOptions,
    pub inventories: Vec<PageAvailability>,
}

proof fn lemma_push_contains<A>(s: Seq<A>, x: A, v: A)
    ensures
        s.push(x).contains(v) <==> (s.contains(v) || v == x),
{
    if s.contains(v) {
        let j = choose|j: int| 0 <= j < s.len() && s[j] == v;
        assert(s.push(x)[j] == v);
    }
    if v == x {
        assert(s.push(x)[s.len() as int] == v);
    }
    if s.push(x).contains(v) {
        let j = choose|j: int| 0 <= j < s.push(x).len() && s.push(x)[j] == v;
        if j < s.len() {
            assert(s[j] == v);
        }
    }
}

/// Keeps the record of `page` as answered by `url` to `req`, when it is well formed.
fn merge_page(
    inv: &mut Vec<PageAvailability>,
    req: &AttachmentsInventoryRequest,
    url: &String,
    page: &AttachmentPage,
)
    ensures
        forall|v: AvailabilityView|
            #[trigger] availability_views(final(inv)@).contains(v) <==> (availability_views(
                old(inv)@,
            ).contains(v) || page_record(*req, *url, *page) == Some(v)),
{
    let mut asked = false;
    let mut i: usize = 0;
    while i < req.pages.len()
        invariant
            i <= req.pages@.len(),
            asked == exists|j: int| 0 <= j < i && req.pages@[j] == page.index,
        decreases req.pages@.len() - i,
    {
        if req.pages[i] == page.index {
            asked = true;
        }
        i = i + 1;
    }
    let ghost before = availability_views(inv@);
    if asked && page.inventory.len() <= ATTACHMENTS_INV_PAGE_SIZE {
        let rec = PageAvailability {
            contract_id: req.contract_id.duplicate(),
            url: url.clone(),
            page_index: page.index,
            inventory: vstd::slice::slice_to_vec(page.inventory.as_slice()),
        };
        inv.push(rec);
        proof {
            assert(availability_views(inv@) =~= before.push(rec@));
            assert forall|v: AvailabilityView|
                #[trigger] availability_views(inv@).contains(v) <==> (before.contains(v) || page_record(
                    *req,
                    *url,
                    *page,
                ) == Some(v)) by {
                lemma_push_contains(before, rec@, v);
            }
        }
    }
}

/// Keeps the well-formed page records of one response.
fn merge_response(
    inv: &mut Vec<PageAvailability>,
    req: &AttachmentsInventoryRequest,
    url: &String,
    resp: &GetAttachmentsInvResponse,
)
    ensures
        forall|v: AvailabilityView|
            #[trigger] availability_views(final(inv)@).contains(v) <==> (availability_views(
                old(inv)@,
            ).contains(v) || response_reports(*req, *url, *resp, v)),
{
    let ghost start = availability_views(inv@);
    let mut g: usize = 0;
    while g < resp.pages.len()
        invariant
            g <= resp.pages@.len(),
            start == availability_views(old(inv)@),
            forall|v: AvailabilityView|
                #[trigger] availability_views(inv@).contains(v) <==> (start.contains(v) || exists|h: int|
                    0 <= h < g && page_record(*req, *url, #[trigger] resp.pages@[h]) == Some(v)),
        decreases resp.pages@.len() - g,
    {
        let ghost mid = availability_views(inv@);
        merge_page(inv, req, url, &resp.pages[g]);
        proof {
            assert forall|v: AvailabilityView|
                #[trigger] availability_views(inv@).contains(v) <==> (start.contains(v) || exists|h: int|
                    0 <= h < g + 1 && page_record(*req, *url, #[trigger] resp.pages@[h]) == Some(v)) by {
                if mid.contains(v) && !start.contains(v) {
                    let h = choose|h: int|
                        0 <= h < g && page_record(*req, *url, #[trigger] resp.pages@[h]) == Some(v);
                }
            }
        }
        g = g + 1;
    }
}

/// Keeps the well-formed page records of every response to one request.
fn merge_request(
    inv: &mut Vec<PageAvailability>,
    req: &AttachmentsInventoryRequest,
    responses: &Vec<(String, Option<GetAttachmentsInvResponse>)>,
)
    ensures
        forall|v: AvailabilityView|
            #[trigger] availability_views(final(inv)@).contains(v) <==> (availability_views(
                old(inv)@,
            ).contains(v) || request_reports(*req, responses@, v)),
{
    let ghost start = availability_views(inv@);
    let mut m: usize = 0;
    while m < responses.len()
        invariant
            m <= responses@.len(),
            start == availability_views(old(inv)@),
            forall|v: AvailabilityView|
                #[trigger] availability_views(inv@).contains(v) <==> (start.contains(v) || exists|h: int|
                    0 <= h < m && (#[trigger] responses@[h]).1.is_some() && response_reports(
                        *req,
                        responses@[h].0,
                        responses@[h].1.unwrap(),
                        v,
                    )),
        decreases responses@.len() - m,
    {
        let ghost mid = availability_views(inv@);
        match &responses[m].1 {
            Some(resp) => {
                merge_response(inv, req, &responses[m].0, resp);
            },
            None => {},
        }
        proof {
            assert forall|v: AvailabilityView|
                #[trigger] availability_views(inv@).contains(v) <==> (start.contains(v) || exists|h: int|
                    0 <= h < m + 1 && (#[trigger] responses@[h]).1.is_some() && response_reports(
                        *req,
                        responses@[h].0,
                        responses@[h].1.unwrap(),
                        v,
                    )) by {
                if mid.contains(v) && !start.contains(v) {
                    let h = choose|h: int|
                        0 <= h < m && (#[trigger] responses@[h]).1.is_some() && response_reports(
                            *req,
                            responses@[h].0,
                            responses@[h].1.unwrap(),
                            v,
                        );
                }
            }
        }
        m = m + 1;
    }
}

impl AttachmentsBatchStateContext {
    /// The peer table maps each URL to one record.
    pub open spec fn wf(&self) -> bool {
        urls_unique(self.peers@)
    }

    pub fn new(
        attachments_batch: AttachmentsBatch,
        peers: Vec<(String, ReliabilityReport)>,
        connection_options: &ConnectionOptions,
    ) -> (r: AttachmentsBatchStateContext)
        requires
            urls_unique(peers@),
        ensures
            r.wf(),
            r.attachments_batch == attachments_batch,
            r.peers == peers,
            r.connection_options == *connection_options,
            r.inventories@.len() == 0,
    {
        AttachmentsBatchStateContext {
            attachments_batch,
            peers,
            connection_options: *connection_options,
            inventories: Vec::new(),
        }
    }

    /// For every tracked contract, every chunk of its missing pages and every peer,
    /// exactly one request, ranked by the peer's record; and no other request.
    pub fn get_prioritized_attachments_inventory_requests(&self) -> (r: PriorityQueue<
        AttachmentsInventoryRequest,
    >)
        requires
            self.wf(),
        ensures
            forall|k: int|
                0 <= k < r@.len() ==> is_planned_view(
                    self.attachments_batch,
                    self.peers@,
                    inventory_request_view(#[trigger] r@[k]),
                ),
            forall|c: (Seq<char>, Seq<char>), i: int, p: int|
                #[trigger] is_planned(self.attachments_batch, self.peers@, c, i, p) ==> queue_has(
                    r@,
                    planned_request(self.attachments_batch, self.peers@, c, i, p),
                ),
            forall|k1: int, k2: int|
                0 <= k1 < k2 < r@.len() ==> inventory_request_view(#[trigger] r@[k1])
                    != inventory_request_view(#[trigger] r@[k2]),
    {
        let batch = &self.attachments_batch;
        let peers = &self.peers;
        let cids = batch.contract_ids();
        let ghost cv = crate::batch::contract_views(cids@);
        let mut queue: PriorityQueue<AttachmentsInventoryRequest> = PriorityQueue::new();
        let mut a: usize = 0;
        while a < cids.len()
            invariant
                a <= cids@.len(),
                batch == &self.attachments_batch,
                peers == &self.peers,
                urls_unique(peers@),
                cv == crate::batch::contract_views(cids@),
                cv.no_duplicates(),
                forall|c: (Seq<char>, Seq<char>)|
                    #[trigger] cv.contains(c) <==> contract_is_tracked(batch@, c),
                forall|k: int|
                    0 <= k < queue@.len() ==> placed_before(
                        *batch,
                        peers@,
                        cv,
                        inventory_request_view(#[trigger] queue@[k]),
                        a as int,
                        0,
                        0,
                    ),
                views_distinct(queue@),
                forall|c: (Seq<char>, Seq<char>), i: int, p: int|
                    #[trigger] is_planned(*batch, peers@, c, i, p) && (exists|x: int|
                        0 <= x < a && cv[x] == c) ==> queue_has(
                        queue@,
                        planned_request(*batch, peers@, c, i, p),
                    ),
            decreases cids@.len() - a,
        {
            let cid = &cids[a];
            let ghost c = cv[a as int];
            proof {
                assert(c == cid@);
                assert(cv.contains(c));
            }
            let chunks = batch.get_paginated_missing_pages_for_contract_id(cid);
            proof {
                assert(chunks@.len() == page_chunks(*batch, c).len());
            }
            let mut b: usize = 0;
            while b < chunks.len()
                invariant
                    a < cids@.len(),
                    b <= chunks@.len(),
                    batch == &self.attachments_batch,
                    peers == &self.peers,
                    urls_unique(peers@),
                    cv == crate::batch::contract_views(cids@),
                    cv.no_duplicates(),
                    c == cv[a as int],
                    c == cid@,
                    contract_is_tracked(batch@, c),
                    strictly_increasing(missing_pages_in_order(batch@, c)),
                    chunks@.map_values(|v: Vec<u32>| v@) == page_chunks(*batch, c),
                    forall|k: int|
                        0 <= k < queue@.len() ==> placed_before(
                            *batch,
                            peers@,
                            cv,
                            inventory_request_view(#[trigger] queue@[k]),
                            a as int,
                            b as int,
                            0,
                        ),
                    views_distinct(queue@),
                    forall|c2: (Seq<char>, Seq<char>), i: int, p: int|
                        #[trigger] is_planned(*batch, peers@, c2, i, p) && (exists|x: int|
                            0 <= x < a && cv[x] == c2) ==> queue_has(
                            queue@,
                            planned_request(*batch, peers@, c2, i, p),
                        ),
                    forall|i: int, p: int|
                        0 <= i < b && 0 <= p < peers@.len() ==> queue_has(
                            queue@,
                            #[trigger] planned_request(*batch, peers@, c, i, p),
                        ),
                decreases chunks@.len() - b,
            {
                proof {
                    assert(chunks@[b as int]@ == page_chunks(*batch, c)[b as int]);
                }
                let mut p: usize = 0;
                while p < peers.len()
                    invariant
                        a < cids@.len(),
                        b < chunks@.len(),
                        p <= peers@.len(),
                        batch == &self.attachments_batch,
                        peers == &self.peers,
                        urls_unique(peers@),
                        cv == crate::batch::contract_views(cids@),
                        cv.no_duplicates(),
                        c == cv[a as int],
                        c == cid@,
                        contract_is_tracked(batch@, c),
                        strictly_increasing(missing_pages_in_order(batch@, c)),
                        chunks@.map_values(|v: Vec<u32>| v@) == page_chunks(*batch, c),
                        chunks@[b as int]@ == page_chunks(*batch, c)[b as int],
                        forall|k: int|
                            0 <= k < queue@.len() ==> placed_before(
                                *batch,
                                peers@,
                                cv,
                                inventory_request_view(#[trigger] queue@[k]),
                                a as int,
                                b as int,
                                p as int,
                            ),
                        views_distinct(queue@),
                        forall|c2: (Seq<char>, Seq<char>), i: int, q: int|
                            #[trigger] is_planned(*batch, peers@, c2, i, q) && (exists|x: int|
                                0 <= x < a && cv[x] == c2) ==> queue_has(
                                queue@,
                                planned_request(*batch, peers@, c2, i, q),
                            ),
                        forall|i: int, q: int|
                            (0 <= i < b && 0 <= q < peers@.len()) || (i == b && 0 <= q < p) ==> queue_has(
                                queue@,
                                #[trigger] planned_request(*batch, peers@, c, i, q),
                            ),
                    decreases peers@.len() - p,
                {
                    let req = AttachmentsInventoryRequest {
                        url: peers[p].0.clone(),
                        block_height: batch.block_height,
                        pages: vstd::slice::slice_to_vec(chunks[b].as_slice()),
                        contract_id: cid.duplicate(),
                        reliability_report: peers[p].1,
                    };
                    let ghost q0 = queue@;
                    let ghost nv = planned_request(*batch, peers@, c, b as int, p as int);
                    proof {
                        assert(inventory_request_view(req) == nv);
                        assert(is_planned(*batch, peers@, c, b as int, p as int));
                        assert forall|k: int| 0 <= k < q0.len() implies inventory_request_view(
                            #[trigger] q0[k],
                        ) != nv by {
                            let v = inventory_request_view(q0[k]);
                            assert(placed_before(*batch, peers@, cv, v, a as int, b as int, p as int));
                            let (a2, i2, p2) = choose|a2: int, i2: int, p2: int|
                                #[trigger] lex_before(a2, i2, p2, a as int, b as int, p as int) && 0 <= a2
                                    < cv.len() && is_planned(*batch, peers@, cv[a2], i2, p2) && v
                                    == planned_request(*batch, peers@, cv[a2], i2, p2);
                            lemma_planned_distinct(
                                *batch,
                                peers@,
                                cv,
                                a2,
                                i2,
                                p2,
                                a as int,
                                b as int,
                                p as int,
                            );
                        }
                    }
                    queue.push(req);
                    proof {
                        assert forall|v: InventoryRequestView| queue_has(q0, v) implies queue_has(queue@, v) by {
                            lemma_queue_has_push(q0, req, v);
                        }
                        lemma_queue_has_push(q0, req, inventory_request_view(req));
                        assert forall|k: int|
                            0 <= k < queue@.len() implies placed_before(
                                *batch,
                                peers@,
                                cv,
                                inventory_request_view(#[trigger] queue@[k]),
                                a as int,
                                b as int,
                                p + 1,
                            ) by {
                            if k < q0.len() {
                                assert(queue@[k] == q0[k]);
                                lemma_placed_later(
                                    *batch,
                                    peers@,
                                    cv,
                                    inventory_request_view(q0[k]),
                                    a as int,
                                    b as int,
                                    p as int,
                                    a as int,
                                    b as int,
                                    p + 1,
                                );
                            } else {
                                assert(lex_before(a as int, b as int, p as int, a as int, b as int, p + 1));
                            }
                        }
                        assert forall|k1: int, k2: int| 0 <= k1 < k2 < queue@.len() implies inventory_request_view(
                            #[trigger] queue@[k1],
                        ) != inventory_request_view(#[trigger] queue@[k2]) by {
                            assert(queue@[k1] == q0[k1]);
                            if k2 < q0.len() {
                                assert(queue@[k2] == q0[k2]);
                            }
                        }
                    }
                    p = p + 1;
                }
                proof {
                    assert forall|k: int|
                        0 <= k < queue@.len() implies placed_before(
                            *batch,
                            peers@,
                            cv,
                            inventory_request_view(#[trigger] queue@[k]),
                            a as int,
                            b + 1,
                            0,
                        ) by {
                        lemma_placed_later(
                            *batch,
                            peers@,
                            cv,
                            inventory_request_view(queue@[k]),
                            a as int,
                            b as int,
                            p as int,
                            a as int,
                            b + 1,
                            0,
                        );
                    }
                }
                b = b + 1;
            }
            proof {
                assert forall|k: int|
                    0 <= k < queue@.len() implies placed_before(
                        *batch,
                        peers@,
                        cv,
                        inventory_request_view(#[trigger] queue@[k]),
                        a + 1,
                        0,
                        0,
                    ) by {
                    lemma_placed_later(
                        *batch,
                        peers@,
                        cv,
                        inventory_request_view(queue@[k]),
                        a as int,
                        b as int,
                        0,
                        a + 1,
                        0,
                        0,
                    );
                }
                assert forall|c2: (Seq<char>, Seq<char>), i: int, q: int|
                    #[trigger] is_planned(*batch, peers@, c2, i, q) && (exists|x: int|
                        0 <= x < a + 1 && cv[x] == c2) implies queue_has(
                        queue@,
                        planned_request(*batch, peers@, c2, i, q),
                    ) by {
                    if c2 == c {
                    } else {
                        let x = choose|x: int| 0 <= x < a + 1 && cv[x] == c2;
                        assert(x < a);
                    }
                }
            }
            a = a + 1;
        }
        proof {
            assert forall|c: (Seq<char>, Seq<char>), i: int, p: int|
                #[trigger] is_planned(*batch, peers@, c, i, p) implies queue_has(
                    queue@,
                    planned_request(*batch, peers@, c, i, p),
                ) by {
                assert(cv.contains(c));
                let x = choose|x: int| 0 <= x < cv.len() && cv[x] == c;
            }
            assert forall|k: int| 0 <= k < queue@.len() implies is_planned_view(
                *batch,
                peers@,
                inventory_request_view(#[trigger] queue@[k]),
            ) by {
                let v = inventory_request_view(queue@[k]);
                assert(placed_before(*batch, peers@, cv, v, a as int, 0, 0));
                let (a2, i2, p2) = choose|a2: int, i2: int, p2: int|
                    #[trigger] lex_before(a2, i2, p2, a as int, 0, 0) && 0 <= a2 < cv.len() && is_planned(
                        *batch,
                        peers@,
                        cv[a2],
                        i2,
                        p2,
                    ) && v == planned_request(*batch, peers@, cv[a2], i2, p2);
                assert(is_planned(*batch, peers@, cv[a2], i2, p2));
            }
        }
        queue
    }

    /// Whether some record says that the peer at `url` holds `position` of page `page` of
    /// contract `contract_id`.
    pub fn peer_holds(&self, contract_id: &ContractId, url: &String, page: u32, position: u32) -> (r:
        bool)
        ensures
            r == peer_holds(
                availability_views(self.inventories@),
                contract_id@,
                url@,
                page,
                position,
            ),
    {
        let ghost av = availability_views(self.inventories@);
        let mut j: usize = 0;
        while j < self.inventories.len()
            invariant
                j <= av.len(),
                av == availability_views(self.inventories@),
                forall|h: int|
                    0 <= h < j ==> !((#[trigger] av[h]).contract == contract_id@ && av[h].url == url@
                        && av[h].page_index == page && position < av[h].inventory.len()
                        && av[h].inventory[position as int] != 0),
            decreases av.len() - j,
        {
            let a = &self.inventories[j];
            proof {
                assert(av[j as int] == a@);
            }
            if a.page_index == page && (position as usize) < a.inventory.len() && a.inventory[position
                as usize] != 0 && a.url == *url && a.contract_id.same_as(contract_id) {
                return true;
            }
            j = j + 1;
        }
        false
    }

    /// The peers of the table that are known to hold position `position` of page `page` of
    /// contract `contract_id`, in table order.
    fn sources_for(&self, contract_id: &ContractId, page: u32, position: u32) -> (r: Vec<
        (String, ReliabilityReport),
    >)
        requires
            self.wf(),
        ensures
            urls_unique(r@),
            source_views(r@) == source_views(self.peers@).filter(
                |p: (Seq<char>, ReliabilityReport)|
                    peer_holds(
                        availability_views(self.inventories@),
                        contract_id@,
                        p.0,
                        page,
                        position,
                    ),
            ),
    {
        let ghost pv = source_views(self.peers@);
        let ghost pred = |p: (Seq<char>, ReliabilityReport)|
            peer_holds(availability_views(self.inventories@), contract_id@, p.0, page, position);
        let mut out: Vec<(String, ReliabilityReport)> = Vec::new();
        let mut i: usize = 0;
        proof {
            reveal(Seq::filter);
            assert(source_views(out@) =~= pv.subrange(0, 0).filter(pred));
        }
        while i < self.peers.len()
            invariant
                i <= pv.len(),
                pv == source_views(self.peers@),
                pred == (|p: (Seq<char>, ReliabilityReport)|
                    peer_holds(
                        availability_views(self.inventories@),
                        contract_id@,
                        p.0,
                        page,
                        position,
                    )),
                source_views(out@) == pv.subrange(0, i as int).filter(pred),
                urls_unique(self.peers@),
                urls_unique(out@),
                forall|x: int|
                    0 <= x < out@.len() ==> exists|h: int|
                        0 <= h < i && (#[trigger] out@[x]).0@ == self.peers@[h].0@,
            decreases pv.len() - i,
        {
            proof {
                reveal(Seq::filter);
                assert(pv.subrange(0, i + 1).drop_last() =~= pv.subrange(0, i as int));
                assert(pv[i as int] == (self.peers@[i as int].0@, self.peers@[i as int].1));
            }
            let ghost before = source_views(out@);
            let ghost o0 = out@;
            if self.peer_holds(contract_id, &self.peers[i].0, page, position) {
                out.push((self.peers[i].0.clone(), self.peers[i].1));
                proof {
                    assert(source_views(out@) =~= before.push(pv[i as int]));
                    assert forall|x: int|
                        0 <= x < out@.len() implies exists|h: int|
                            0 <= h < i + 1 && (#[trigger] out@[x]).0@ == self.peers@[h].0@ by {
                        if x < o0.len() {
                            assert(out@[x] == o0[x]);
                        } else {
                            assert(out@[x].0@ == self.peers@[i as int].0@);
                        }
                    }
                    assert forall|x: int, y: int|
                        0 <= x < out@.len() && 0 <= y < out@.len() && x != y implies (#[trigger] out@[x]).0@
                            != (#[trigger] out@[y]).0@ by {
                        if x < o0.len() && y < o0.len() {
                            assert(out@[x] == o0[x] && out@[y] == o0[y]);
                        } else if x < o0.len() {
                            assert(out@[x] == o0[x]);
                            let h = choose|h: int| 0 <= h < i && (#[trigger] o0[x]).0@ == self.peers@[h].0@;
                        } else {
                            assert(out@[y] == o0[y]);
                            let h = choose|h: int| 0 <= h < i && (#[trigger] o0[y]).0@ == self.peers@[h].0@;
                        }
                    }
                }
            }
            i = i + 1;
        }
        proof {
            assert(pv.subrange(0, pv.len() as int) =~= pv);
        }
        out
    }

    /// One request per unresolved instance of the batch, for its content hash, from the
    /// peers known to hold it (possibly none), ranked rarest first.
    pub fn get_prioritized_attachments_requests(&self) -> (r: PriorityQueue<AttachmentRequest>)
        requires
            self.wf(),
        ensures
            r@.len() == self.attachments_batch@.len(),
            forall|k: int| 0 <= k < r@.len() ==> urls_unique((#[trigger] r@[k]).sources@),
            forall|k: int|
                0 <= k < r@.len() ==> {
                    let e = self.attachments_batch@[k];
                    &&& (#[trigger] r@[k]).content_hash == e.content_hash
                    &&& source_views(r@[k].sources@) == source_views(self.peers@).filter(
                        |p: (Seq<char>, ReliabilityReport)|
                            peer_holds(
                                availability_views(self.inventories@),
                                e.contract,
                                p.0,
                                e.page_index,
                                e.position_in_page,
                            ),
                    )
                },
    {
        let mut queue: PriorityQueue<AttachmentRequest> = PriorityQueue::new();
        let batch = &self.attachments_batch;
        let mut k: usize = 0;
        while k < batch.instances.len()
            invariant
                k <= batch@.len(),
                batch == &self.attachments_batch,
                queue@.len() == k,
                self.wf(),
                forall|h: int| 0 <= h < k ==> urls_unique((#[trigger] queue@[h]).sources@),
                forall|h: int|
                    0 <= h < k ==> {
                        let e = batch@[h];
                        &&& (#[trigger] queue@[h]).content_hash == e.content_hash
                        &&& source_views(queue@[h].sources@) == source_views(self.peers@).filter(
                            |p: (Seq<char>, ReliabilityReport)|
                                peer_holds(
                                    availability_views(self.inventories@),
                                    e.contract,
                                    p.0,
                                    e.page_index,
                                    e.position_in_page,
                                ),
                        )
                    },
            decreases batch@.len() - k,
        {
            let e = &batch.instances[k];
            proof {
                assert(batch@[k as int] == e@);
            }
            let sources = self.sources_for(&e.contract_id, e.page_index, e.position_in_page);
            queue.push(AttachmentRequest { sources, content_hash: e.content_hash });
            k = k + 1;
        }
        queue
    }

    /// Adds what the inventory responses of a round report; everything else is kept.
    pub fn extend_with_inventories(self, results: &BatchedRequestsResult) -> (r:
        AttachmentsBatchStateContext)
        ensures
            r.attachments_batch == self.attachments_batch,
            r.peers == self.peers,
            r.connection_options == self.connection_options,
            forall|v: AvailabilityView|
                #[trigger] availability_views(r.inventories@).contains(v) <==> (availability_views(
                    self.inventories@,
                ).contains(v) || results_report(*results, v)),
    {
        let mut ctx = self;
        let ghost start = availability_views(ctx.inventories@);
        let mut k: usize = 0;
        while k < results.succeeded.len()
            invariant
                k <= results.succeeded@.len(),
                ctx.attachments_batch == self.attachments_batch,
                ctx.peers == self.peers,
                ctx.connection_options == self.connection_options,
                start == availability_views(self.inventories@),
                forall|v: AvailabilityView|
                    #[trigger] availability_views(ctx.inventories@).contains(v) <==> (start.contains(v)
                        || exists|h: int|
                        0 <= h < k && request_reports(
                            (#[trigger] results.succeeded@[h]).0,
                            results.succeeded@[h].1@,
                            v,
                        )),
            decreases results.succeeded@.len() - k,
        {
            let ghost mid = availability_views(ctx.inventories@);
            merge_request(&mut ctx.inventories, &results.succeeded[k].0, &results.succeeded[k].1);
            proof {
                assert forall|v: AvailabilityView|
                    #[trigger] availability_views(ctx.inventories@).contains(v) <==> (start.contains(v)
                        || exists|h: int|
                        0 <= h < k + 1 && request_reports(
                            (#[trigger] results.succeeded@[h]).0,
                            results.succeeded@[h].1@,
                            v,
                        )) by {
                    if mid.contains(v) && !start.contains(v) {
                        let h = choose|h: int|
                            0 <= h < k && request_reports(
                                (#[trigger] results.succeeded@[h]).0,
                                results.succeeded@[h].1@,
                                v,
                            );
                    }
                }
            }
            k = k + 1;
        }
        ctx
    }
}

} // verus!
