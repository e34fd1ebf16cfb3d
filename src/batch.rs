//! A cohort of attachment instances that are fetched, retried and resolved together.
use vstd::prelude::*;
use crate::attachment::{AttachmentInstance, ContractId};
use crate::hash::Hash160;
use crate::queue::Prioritized;

verus! {

/// Largest number of pages that one inventory request asks about.
pub const MAX_ATTACHMENT_INV_PAGES_PER_REQUEST: usize = 8;

/// What the batch knows of one unresolved instance.
#[derive(Clone, Debug, PartialEq, Eq)]
pub struct TrackedAttachment {
    pub contract_id: ContractId,
    pub page_index: u32,
    pub position_in_page: u32,
    pub content_hash: Hash160,
}

/// The mathematical value of a [`TrackedAttachment`].
pub struct TrackedView {
    pub contract: (Seq<char>, Seq<char>),
    pub page_index: u32,
    pub position_in_page: u32,
    pub content_hash: Hash160,
}

impl View for TrackedAttachment {
    type V = TrackedView;

    open spec fn view(&self) -> TrackedView {
        TrackedView {
            contract: self.contract_id@,
            page_index: self.page_index,
            position_in_page: self.position_in_page,
            content_hash: self.content_hash,
        }
    }
}

impl TrackedAttachment {
    fn duplicate(&self) -> (r: TrackedAttachment)
        ensures
            r@ == self@,
    {
        TrackedAttachment {
            contract_id: self.contract_id.duplicate(),
            page_index: self.page_index,
            position_in_page: self.position_in_page,
            content_hash: self.content_hash,
        }
    }
}

/// The tracked view of an instance.
pub open spec fn tracked_view_of(i: AttachmentInstance) -> TrackedView {
    TrackedView {
        contract: i.contract_id@,
        page_index: i.page_index,
        position_in_page: i.position_in_page,
        content_hash: i.content_hash,
    }
}

/// `a` and `b` track the same content hash for the same contract.
pub open spec fn same_key(a: TrackedView, b: TrackedView) -> bool {
    a.contract == b.contract && a.content_hash == b.content_hash
}

/// No content hash is tracked twice for one contract.
pub open spec fn keys_unique(s: Seq<TrackedView>) -> bool {
    forall|i: int, j: int|
        0 <= i < s.len() && 0 <= j < s.len() && i != j ==> !same_key(#[trigger] s[i], #[trigger] s[j])
}

/// `s` after tracking `t`: unchanged where `t`'s content hash is already tracked for
/// its contract, else with `t` appended.
pub open spec fn tracked_after(s: Seq<TrackedView>, t: TrackedView) -> Seq<TrackedView> {
    if exists|j: int| 0 <= j < s.len() && same_key(#[trigger] s[j], t) {
        s
    } else {
        s.push(t)
    }
}

/// `s` after resolving the content hash `h`: every entry with that hash is gone.
pub open spec fn resolved_after(s: Seq<TrackedView>, h: Hash160) -> Seq<TrackedView> {
    s.filter(|e: TrackedView| e.content_hash != h)
}

/// `p` is a page of contract `c` holding at least one entry of `s`.
pub open spec fn is_missing_page(s: Seq<TrackedView>, c: (Seq<char>, Seq<char>), p: u32) -> bool {
    exists|j: int| 0 <= j < s.len() && (#[trigger] s[j]).contract == c && s[j].page_index == p
}

pub open spec fn strictly_increasing(s: Seq<u32>) -> bool {
    forall|i: int, j: int| 0 <= i < j < s.len() ==> s[i] < s[j]
}

/// The missing pages of contract `c` in `s`, in ascending order.
pub open spec fn missing_pages_in_order(s: Seq<TrackedView>, c: (Seq<char>, Seq<char>)) -> Seq<u32> {
    choose|m: Seq<u32>|
        strictly_increasing(m) && forall|p: u32| m.contains(p) <==> is_missing_page(s, c, p)
}

/// `m` cut into consecutive chunks of `k` items, the last one possibly shorter.
pub open spec fn paginate(m: Seq<u32>, k: nat) -> Seq<Seq<u32>>
    recommends
        k > 0,
{
    Seq::new(
        ((m.len() + k - 1) / k as int) as nat,
        |i: int|
            m.subrange(
                i * k,
                if (i + 1) * k <= m.len() {
                    (i + 1) * k
                } else {
                    m.len() as int
                },
            ),
    )
}

/// Two ascending sequences with the same items are equal.
pub proof fn lemma_ascending_unique(a: Seq<u32>, b: Seq<u32>)
    requires
        strictly_increasing(a),
        strictly_increasing(b),
        forall|p: u32| a.contains(p) <==> b.contains(p),
    ensures
        a == b,
    decreases a.len(),
{
    if a.len() == 0 {
        if b.len() > 0 {
            assert(b.contains(b[0]));
        }
        assert(a =~= b);
    } else {
        assert(a.contains(a[0]));
        assert(b.len() > 0);
        assert(b.contains(b[0]));
        let ia = choose|i: int| 0 <= i < a.len() && a[i] == b[0];
        let ib = choose|i: int| 0 <= i < b.len() && b[i] == a[0];
        assert(a[0] <= a[ia]);
        assert(b[0] <= b[ib]);
        assert(a[0] == b[0]);
        let ra = a.drop_first();
        let rb = b.drop_first();
        assert forall|p: u32| ra.contains(p) <==> rb.contains(p) by {
            if ra.contains(p) {
                let i = choose|i: int| 0 <= i < ra.len() && ra[i] == p;
                assert(a[i + 1] == p);
                assert(b.contains(p));
                let j = choose|j: int| 0 <= j < b.len() && b[j] == p;
                assert(j != 0);
                assert(rb[j - 1] == p);
            }
            if rb.contains(p) {
                let i = choose|i: int| 0 <= i < rb.len() && rb[i] == p;
                assert(b[i + 1] == p);
                assert(a.contains(p));
                let j = choose|j: int| 0 <= j < a.len() && a[j] == p;
                assert(j != 0);
                assert(ra[j - 1] == p);
            }
        }
        lemma_ascending_unique(ra, rb);
        assert(a =~= seq![a[0]] + ra);
        assert(b =~= seq![b[0]] + rb);
    }
}

/// Cuts `m` into consecutive chunks of [`MAX_ATTACHMENT_INV_PAGES_PER_REQUEST`] pages.
fn paginate_pages(m: &Vec<u32>) -> (r: Vec<Vec<u32>>)
    ensures
        r@.map_values(|c: Vec<u32>| c@) == paginate(m@, MAX_ATTACHMENT_INV_PAGES_PER_REQUEST as nat),
{
    let k = MAX_ATTACHMENT_INV_PAGES_PER_REQUEST;
    let n = m.len();
    let ghost target = paginate(m@, 8);
    let mut chunks: Vec<Vec<u32>> = Vec::new();
    let mut start: usize = 0;
    while start < n
        invariant
            k == 8,
            n == m@.len(),
            start <= n,
            start == chunks@.len() * 8 || start == n,
            start < n ==> start == chunks@.len() * 8,
            chunks@.len() <= target.len(),
            start == n ==> chunks@.len() == target.len(),
            target == paginate(m@, 8),
            forall|i: int| 0 <= i < chunks@.len() ==> (#[trigger] chunks@[i])@ == target[i],
        decreases n - start,
    {
        let end = if n - start > k {
            start + k
        } else {
            n
        };
        let mut chunk: Vec<u32> = Vec::new();
        let mut j: usize = start;
        while j < end
            invariant
                start <= j <= end,
                end <= n,
                n == m@.len(),
                chunk@ == m@.subrange(start as int, j as int),
            decreases end - j,
        {
            chunk.push(m[j]);
            j = j + 1;
            proof {
                assert(chunk@ =~= m@.subrange(start as int, j as int));
            }
        }
        proof {
            assert(chunk@ == target[chunks@.len() as int]);
        }
        chunks.push(chunk);
        start = end;
    }
    proof {
        assert(chunks@.map_values(|c: Vec<u32>| c@) =~= target);
    }
    chunks
}

/// Adds `p` to the ascending sequence `v`, unless it is there already.
fn insert_ascending(v: &mut Vec<u32>, p: u32)
    requires
        strictly_increasing(old(v)@),
    ensures
        strictly_increasing(final(v)@),
        forall|q: u32| final(v)@.contains(q) <==> (old(v)@.contains(q) || q == p),
{
    let mut k: usize = 0;
    while k < v.len() && v[k] < p
        invariant
            k <= v@.len(),
            forall|j: int| 0 <= j < k ==> v@[j] < p,
        decreases v@.len() - k,
    {
        k = k + 1;
    }
    if k < v.len() && v[k] == p {
        return;
    }
    let ghost s0 = v@;
    v.insert(k, p);
    proof {
        let s1 = v@;
        assert(s1 =~= s0.insert(k as int, p));
        assert forall|i: int, j: int| 0 <= i < j < s1.len() implies s1[i] < s1[j] by {
            if j < k {
            } else if j == k {
            } else if i < k {
                assert(s0[k as int] > p);
                assert(s0[k as int] <= s0[j - 1]);
            } else if i == k {
                assert(s0[k as int] > p);
                assert(s0[k as int] <= s0[j - 1]);
            } else {
            }
        }
        assert forall|q: u32| s1.contains(q) <==> (s0.contains(q) || q == p) by {
            if s0.contains(q) {
                let j = choose|j: int| 0 <= j < s0.len() && s0[j] == q;
                if j < k {
                    assert(s1[j] == q);
                } else {
                    assert(s1[j + 1] == q);
                }
            }
            if q == p {
                assert(s1[k as int] == q);
            }
            if s1.contains(q) {
                let j = choose|j: int| 0 <= j < s1.len() && s1[j] == q;
                if j < k {
                    assert(s0[j] == q);
                } else if j > k {
                    assert(s0[j - 1] == q);
                }
            }
        }
    }
}

/// The views of the identifiers in `v`.
pub open spec fn contract_views(v: Seq<ContractId>) -> Seq<(Seq<char>, Seq<char>)> {
    v.map_values(|c: ContractId| c@)
}

/// Some entry of `s` belongs to contract `c`.
pub open spec fn contract_is_tracked(s: Seq<TrackedView>, c: (Seq<char>, Seq<char>)) -> bool {
    exists|j: int| 0 <= j < s.len() && (#[trigger] s[j]).contract == c
}

/// `s` after tracking each instance of `insts` in turn.
pub open spec fn tracked_all(s: Seq<TrackedView>, insts: Seq<AttachmentInstance>) -> Seq<TrackedView>
    decreases insts.len(),
{
    if insts.len() == 0 {
        s
    } else {
        tracked_after(tracked_all(s, insts.drop_last()), tracked_view_of(insts.last()))
    }
}

/// The lowest block height among `insts`, and `u64::MAX` when there is none.
pub open spec fn min_height(insts: Seq<AttachmentInstance>) -> u64
    decreases insts.len(),
{
    if insts.len() == 0 {
        u64::MAX
    } else {
        let rest = min_height(insts.drop_last());
        if insts.last().block_height < rest {
            insts.last().block_height
        } else {
            rest
        }
    }
}

/// A cohort of attachment instances, with the unresolved ones it still tracks.
#[derive(Clone, Debug, PartialEq, Eq)]
pub struct AttachmentsBatch {
    /// Lowest block height among the instances tracked so far; `u64::MAX` before any.
    pub block_height: u64,
    /// Number of rounds that ended without new resolutions.
    pub retry_count: u32,
    pub instances: Vec<TrackedAttachment>,
}

impl View for AttachmentsBatch {
    type V = Seq<TrackedView>;

    open spec fn view(&self) -> Seq<TrackedView> {
        self.instances@.map_values(|t: TrackedAttachment| t@)
    }
}

impl AttachmentsBatch {
    /// Each content hash is tracked at most once per contract.
    pub open spec fn wf(&self) -> bool {
        keys_unique(self@)
    }

    pub fn new() -> (r: AttachmentsBatch)
        ensures
            r@ == Seq::<TrackedView>::empty(),
            r.wf(),
            r.retry_count == 0,
            r.block_height == u64::MAX,
    {
        let r = AttachmentsBatch { block_height: u64::MAX, retry_count: 0, instances: Vec::new() };
        assert(r@ =~= Seq::<TrackedView>::empty());
        r
    }

    /// Registers the content hash of `instance`, at its page and position, under its
    /// contract; nothing changes but the block height where that hash is already tracked
    /// for that contract.
    pub fn track_attachment(&mut self, instance: &AttachmentInstance)
        requires
            old(self).wf(),
        ensures
            final(self).wf(),
            final(self)@ == tracked_after(old(self)@, tracked_view_of(*instance)),
            final(self).retry_count == old(self).retry_count,
            final(self).block_height == if instance.block_height < old(self).block_height {
                instance.block_height
            } else {
                old(self).block_height
            },
    {
        let ghost s0 = self@;
        let ghost t = tracked_view_of(*instance);
        let mut found = false;
        let mut i: usize = 0;
        while i < self.instances.len() && !found
            invariant
                i <= self@.len(),
                self@ == s0,
                keys_unique(s0),
                found == exists|j: int| 0 <= j < i && same_key(#[trigger] s0[j], t),
                t == tracked_view_of(*instance),
                self.retry_count == old(self).retry_count,
                self.block_height == old(self).block_height,
            decreases s0.len() - i,
        {
            let e = &self.instances[i];
            proof {
                assert(self@[i as int] == self.instances@[i as int]@);
            }
            if e.content_hash == instance.content_hash && e.contract_id.same_as(&instance.contract_id) {
                found = true;
            }
            i = i + 1;
        }
        if !found {
            let fresh = TrackedAttachment {
                contract_id: instance.contract_id.duplicate(),
                page_index: instance.page_index,
                position_in_page: instance.position_in_page,
                content_hash: instance.content_hash,
            };
            self.instances.push(fresh);
            proof {
                assert(self@ =~= s0.push(t));
                assert(self@ =~= tracked_after(s0, t));
            }
        }
        if instance.block_height < self.block_height {
            self.block_height = instance.block_height;
        }
    }

    /// Counts one more round that ended without new resolutions.
    pub fn bump_retry_count(&mut self)
        requires
            old(self).retry_count < u32::MAX,
        ensures
            final(self).retry_count == old(self).retry_count + 1,
            final(self)@ == old(self)@,
            final(self).block_height == old(self).block_height,
            final(self).wf() == old(self).wf(),
    {
        self.retry_count = self.retry_count + 1;
    }

    /// Marks every tracked instance with content hash `h` as resolved.
    pub fn resolve_attachment(&mut self, h: &Hash160)
        requires
            old(self).wf(),
        ensures
            final(self).wf(),
            final(self)@ == resolved_after(old(self)@, *h),
            final(self).retry_count == old(self).retry_count,
            final(self).block_height == old(self).block_height,
    {
        let ghost s0 = self@;
        let ghost pred = |e: TrackedView| e.content_hash != *h;
        let mut kept: Vec<TrackedAttachment> = Vec::new();
        let mut i: usize = 0;
        proof {
            reveal(Seq::filter);
            assert(kept@.map_values(|t: TrackedAttachment| t@) =~= s0.subrange(0, 0).filter(pred));
        }
        while i < self.instances.len()
            invariant
                i <= s0.len(),
                self@ == s0,
                keys_unique(s0),
                pred == (|e: TrackedView| e.content_hash != *h),
                kept@.map_values(|t: TrackedAttachment| t@) == s0.subrange(0, i as int).filter(pred),
                keys_unique(kept@.map_values(|t: TrackedAttachment| t@)),
                forall|a: int|
                    0 <= a < kept@.len() ==> exists|j: int|
                        0 <= j < i && (#[trigger] kept@[a])@ == #[trigger] s0[j],
            decreases s0.len() - i,
        {
            let ghost kv = kept@.map_values(|t: TrackedAttachment| t@);
            let ghost k0 = kept@;
            proof {
                reveal(Seq::filter);
                assert(s0.subrange(0, i + 1).drop_last() =~= s0.subrange(0, i as int));
                assert(self.instances@[i as int]@ == s0[i as int]);
            }
            if self.instances[i].content_hash != *h {
                let d = self.instances[i].duplicate();
                kept.push(d);
                proof {
                    let kv2 = kept@.map_values(|t: TrackedAttachment| t@);
                    assert(kv2 =~= kv.push(s0[i as int]));
                    assert forall|a: int, b: int|
                        0 <= a < kv2.len() && 0 <= b < kv2.len() && a != b implies !same_key(
                        #[trigger] kv2[a],
                        #[trigger] kv2[b],
                    ) by {
                        if a == kv.len() {
                            let j = choose|j: int| 0 <= j < i && (#[trigger] kept@[b])@ == s0[j];
                            assert(kv2[b] == kept@[b]@);
                        } else if b == kv.len() {
                            let j = choose|j: int| 0 <= j < i && (#[trigger] kept@[a])@ == s0[j];
                            assert(kv2[a] == kept@[a]@);
                        } else {
                            assert(kv2[a] == kv[a] && kv2[b] == kv[b]);
                        }
                    }
                    assert forall|a: int| 0 <= a < kept@.len() implies exists|j: int|
                        0 <= j < i + 1 && (#[trigger] kept@[a])@ == #[trigger] s0[j] by {
                        if a == kv.len() {
                            assert(kept@[a]@ == s0[i as int]);
                        } else {
                            assert(kept@[a] == k0[a]);
                        }
                    }
                }
            }
            i = i + 1;
        }
        proof {
            assert(s0.subrange(0, s0.len() as int) =~= s0);
        }
        self.instances = kept;
    }

    /// The pages of contract `contract_id` that hold an unresolved instance, ascending.
    pub fn get_missing_pages_for_contract_id(&self, contract_id: &ContractId) -> (r: Vec<u32>)
        ensures
            strictly_increasing(r@),
            forall|p: u32| r@.contains(p) <==> is_missing_page(self@, contract_id@, p),
            r@ == missing_pages_in_order(self@, contract_id@),
    {
        let mut pages: Vec<u32> = Vec::new();
        let mut i: usize = 0;
        while i < self.instances.len()
            invariant
                i <= self@.len(),
                strictly_increasing(pages@),
                forall|p: u32|
                    pages@.contains(p) <==> exists|j: int|
                        0 <= j < i && (#[trigger] self@[j]).contract == contract_id@
                            && self@[j].page_index == p,
            decreases self@.len() - i,
        {
            proof {
                assert(self@[i as int] == self.instances@[i as int]@);
            }
            if self.instances[i].contract_id.same_as(contract_id) {
                insert_ascending(&mut pages, self.instances[i].page_index);
            }
            proof {
                assert forall|p: u32|
                    pages@.contains(p) <==> exists|j: int|
                        0 <= j < i + 1 && (#[trigger] self@[j]).contract == contract_id@
                            && self@[j].page_index == p by {
                    if pages@.contains(p) && !(self@[i as int].contract == contract_id@
                        && self@[i as int].page_index == p) {
                        let j = choose|j: int|
                            0 <= j < i && (#[trigger] self@[j]).contract == contract_id@
                                && self@[j].page_index == p;
                    }
                }
            }
            i = i + 1;
        }
        proof {
            let m = missing_pages_in_order(self@, contract_id@);
            assert forall|p: u32| pages@.contains(p) <==> is_missing_page(self@, contract_id@, p) by {
                if is_missing_page(self@, contract_id@, p) {
                    let j = choose|j: int|
                        0 <= j < self@.len() && (#[trigger] self@[j]).contract == contract_id@
                            && self@[j].page_index == p;
                }
            }
            assert(strictly_increasing(m) && forall|p: u32|
                m.contains(p) <==> is_missing_page(self@, contract_id@, p));
            lemma_ascending_unique(pages@, m);
        }
        pages
    }

    /// The missing pages of contract `contract_id`, ascending, cut into requests of at most
    /// [`MAX_ATTACHMENT_INV_PAGES_PER_REQUEST`] pages.
    pub fn get_paginated_missing_pages_for_contract_id(&self, contract_id: &ContractId) -> (r: Vec<
        Vec<u32>,
    >)
        ensures
            r@.map_values(|c: Vec<u32>| c@) == paginate(
                missing_pages_in_order(self@, contract_id@),
                MAX_ATTACHMENT_INV_PAGES_PER_REQUEST as nat,
            ),
            strictly_increasing(missing_pages_in_order(self@, contract_id@)),
    {
        let pages = self.get_missing_pages_for_contract_id(contract_id);
        paginate_pages(&pages)
    }

    /// The contracts that still have unresolved instances, each once.
    pub fn contract_ids(&self) -> (r: Vec<ContractId>)
        ensures
            contract_views(r@).no_duplicates(),
            forall|c: (Seq<char>, Seq<char>)|
                #[trigger] contract_views(r@).contains(c) <==> contract_is_tracked(self@, c),
    {
        let mut ids: Vec<ContractId> = Vec::new();
        let mut i: usize = 0;
        while i < self.instances.len()
            invariant
                i <= self@.len(),
                contract_views(ids@).no_duplicates(),
                forall|c: (Seq<char>, Seq<char>)|
                    #[trigger] contract_views(ids@).contains(c) <==> exists|j: int|
                        0 <= j < i && (#[trigger] self@[j]).contract == c,
            decreases self@.len() - i,
        {
            let ghost iv = contract_views(ids@);
            let ghost cur = self@[i as int].contract;
            proof {
                assert(self@[i as int] == self.instances@[i as int]@);
            }
            let mut seen = false;
            let mut k: usize = 0;
            while k < ids.len()
                invariant
                    k <= ids@.len(),
                    iv == contract_views(ids@),
                    cur == self.instances@[i as int].contract_id@,
                    i < self.instances@.len(),
                    seen == exists|a: int| 0 <= a < k && iv[a] == cur,
                decreases ids@.len() - k,
            {
                if ids[k].same_as(&self.instances[i].contract_id) {
                    seen = true;
                }
                proof {
                    assert(iv[k as int] == ids@[k as int]@);
                }
                k = k + 1;
            }
            if !seen {
                let c = self.instances[i].contract_id.duplicate();
                ids.push(c);
                proof {
                    let iv2 = contract_views(ids@);
                    assert(iv2 =~= iv.push(cur));
                    assert(!iv.contains(cur));
                }
            }
            proof {
                let iv2 = contract_views(ids@);
                assert forall|c: (Seq<char>, Seq<char>)|
                    #[trigger] iv2.contains(c) <==> exists|j: int|
                        0 <= j < i + 1 && (#[trigger] self@[j]).contract == c by {
                    if c == cur {
                        if !seen {
                            assert(iv2[iv.len() as int] == c);
                        } else {
                            let a = choose|a: int| 0 <= a < k && iv[a] == cur;
                            assert(iv2[a] == c);
                        }
                    } else {
                        if iv2.contains(c) {
                            let a = choose|a: int| 0 <= a < iv2.len() && iv2[a] == c;
                            if a < iv.len() {
                                assert(iv.contains(c));
                            }
                        }
                        if iv.contains(c) {
                            let a = choose|a: int| 0 <= a < iv.len() && iv[a] == c;
                            assert(iv2[a] == c);
                        }
                    }
                }
            }
            i = i + 1;
        }
        ids
    }

    /// Number of unresolved content hashes, counted once per contract that tracks them.
    pub fn attachments_instances_count(&self) -> (r: usize)
        ensures
            r == self@.len(),
    {
        self.instances.len()
    }

    /// Whether every tracked content hash is resolved.
    pub fn has_fully_succeed(&self) -> (r: bool)
        ensures
            r == (self@.len() == 0),
    {
        self.instances.len() == 0
    }
}

} // verus!

verus! {

/// `a` ranks at least as high as `b`: fewer retries; then more unresolved instances;
/// then an older block height.
pub open spec fn batch_ranks_before(a: AttachmentsBatch, b: AttachmentsBatch) -> bool {
    a.retry_count < b.retry_count || (a.retry_count == b.retry_count && (a@.len() > b@.len() || (
    a@.len() == b@.len() && a.block_height <= b.block_height)))
}

impl Prioritized for AttachmentsBatch {
    open spec fn ranks_before_spec(&self, other: &Self) -> bool {
        batch_ranks_before(*self, *other)
    }

    fn ranks_before(&self, other: &Self) -> (r: bool) {
        let (a, b) = (self.attachments_instances_count(), other.attachments_instances_count());
        self.retry_count < other.retry_count || (self.retry_count == other.retry_count && (a > b
            || (a == b && self.block_height <= other.block_height)))
    }

    proof fn lemma_total(a: &Self, b: &Self) {
    }

    proof fn lemma_transitive(a: &Self, b: &Self, c: &Self) {
    }
}

/// Among batches with the same retry count and the same number of unresolved
/// instances, one ranks strictly before another exactly when its block height is lower.
pub proof fn lemma_batch_order_by_height(a: AttachmentsBatch, b: AttachmentsBatch)
    requires
        a.retry_count == b.retry_count,
        a@.len() == b@.len(),
    ensures
        (batch_ranks_before(a, b) && !batch_ranks_before(b, a)) <==> a.block_height < b.block_height,
{
}

/// The (contract, content hash) keys of the entries of `s`.
pub open spec fn tracked_keys(s: Seq<TrackedView>) -> Set<((Seq<char>, Seq<char>), Hash160)> {
    s.map_values(|e: TrackedView| (e.contract, e.content_hash)).to_set()
}

/// In a well-formed batch the number of unresolved instances is the number of distinct
/// unresolved content hashes, counted once per contract that tracks them.
pub proof fn lemma_count_is_key_count(b: AttachmentsBatch)
    requires
        b.wf(),
    ensures
        b@.len() == tracked_keys(b@).len(),
{
    let keys = b@.map_values(|e: TrackedView| (e.contract, e.content_hash));
    assert forall|i: int, j: int| 0 <= i < keys.len() && 0 <= j < keys.len() && i != j implies keys[i]
        != keys[j] by {
        assert(!same_key(b@[i], b@[j]));
    }
    keys.unique_seq_to_set();
}

/// Resolving the same content hash a second time changes nothing.
pub proof fn lemma_resolve_idempotent(s: Seq<TrackedView>, h: Hash160)
    ensures
        resolved_after(resolved_after(s, h), h) == resolved_after(s, h),
    decreases s.len(),
{
    reveal(Seq::filter);
    let pred = |e: TrackedView| e.content_hash != h;
    if s.len() > 0 {
        lemma_resolve_idempotent(s.drop_last(), h);
        let f = s.drop_last().filter(pred);
        if pred(s.last()) {
            assert(f.push(s.last()).drop_last() =~= f);
        }
    }
}

/// Pagination of `m` with [`MAX_ATTACHMENT_INV_PAGES_PER_REQUEST`] pages per chunk gives
/// `ceil(N / K)` chunks of 1 to K pages, which hold every page of `m` exactly once and in
/// the order of `m`; ascending when `m` is.
pub proof fn lemma_pagination(m: Seq<u32>)
    ensures
        ({
            let k = MAX_ATTACHMENT_INV_PAGES_PER_REQUEST as int;
            let chunks = paginate(m, k as nat);
            &&& chunks.len() == (m.len() + k - 1) / k
            &&& forall|i: int| 0 <= i < chunks.len() ==> 0 < (#[trigger] chunks[i]).len() <= k
            &&& forall|i: int, j: int|
                0 <= i < chunks.len() && 0 <= j < chunks[i].len() ==> (#[trigger] chunks[i][j]) == m[i * k + j]
            &&& forall|t: int| 0 <= t < m.len() ==> chunks[t / k][t % k] == #[trigger] m[t]
            &&& strictly_increasing(m) ==> forall|i1: int, j1: int, i2: int, j2: int|
                0 <= i1 < chunks.len() && 0 <= j1 < chunks[i1].len() && 0 <= i2 < chunks.len() && 0
                    <= j2 < chunks[i2].len() && (i1 < i2 || (i1 == i2 && j1 < j2)) ==> #[trigger] chunks[i1][j1]
                    < #[trigger] chunks[i2][j2]
        }),
{
    let k = 8int;
    let chunks = paginate(m, 8);
    assert forall|t: int| 0 <= t < m.len() implies chunks[t / k][t % k] == #[trigger] m[t] by {
        assert(t / k < chunks.len());
        assert((t / k) * k + t % k == t);
    }
    if strictly_increasing(m) {
        assert forall|i1: int, j1: int, i2: int, j2: int|
            0 <= i1 < chunks.len() && 0 <= j1 < chunks[i1].len() && 0 <= i2 < chunks.len() && 0 <= j2
                < chunks[i2].len() && (i1 < i2 || (i1 == i2 && j1 < j2)) implies #[trigger] chunks[i1][j1]
            < #[trigger] chunks[i2][j2] by {
            assert(chunks[i1][j1] == m[i1 * k + j1]);
            assert(chunks[i2][j2] == m[i2 * k + j2]);
            if i1 < i2 {
                assert(i1 * k + k <= i2 * k) by (nonlinear_arith)
                    requires i1 < i2, k == 8;
            }
        }
    }
}

/// A batch holding `instances`, tracked in order, whose retry count was bumped
/// `retry_count` times.
pub fn new_attachments_batch_from(instances: Vec<AttachmentInstance>, retry_count: u32) -> (r:
    AttachmentsBatch)
    ensures
        r.wf(),
        r@ == tracked_all(Seq::empty(), instances@),
        r.retry_count == retry_count,
        r.block_height == min_height(instances@),
{
    let mut batch = AttachmentsBatch::new();
    let mut i: usize = 0;
    while i < instances.len()
        invariant
            i <= instances@.len(),
            batch.wf(),
            batch@ == tracked_all(Seq::empty(), instances@.subrange(0, i as int)),
            batch.block_height == min_height(instances@.subrange(0, i as int)),
            batch.retry_count == 0,
        decreases instances@.len() - i,
    {
        proof {
            assert(instances@.subrange(0, i + 1).drop_last() =~= instances@.subrange(0, i as int));
        }
        batch.track_attachment(&instances[i]);
        i = i + 1;
    }
    proof {
        assert(instances@.subrange(0, instances@.len() as int) =~= instances@);
    }
    let mut n: u32 = 0;
    while n < retry_count
        invariant
            n <= retry_count,
            batch.retry_count == n,
            batch.wf(),
            batch@ == tracked_all(Seq::empty(), instances@),
            batch.block_height == min_height(instances@),
        decreases retry_count - n,
    {
        batch.bump_retry_count();
        n = n + 1;
    }
    batch
}

} // verus!
