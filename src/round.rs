//! The decisions of the download loop: which phase follows which, which peers stay in a
//! round, and what becomes of a batch when its round ends.
use vstd::prelude::*;
use crate::batch::AttachmentsBatch;
use crate::context::ConnectionOptions;
use crate::reliability::ReliabilityReport;

verus! {

/// Phases of one round of work on a batch.
#[derive(Clone, Copy, Debug, PartialEq, Eq, Structural)]
pub enum RoundPhase {
    ResolvingPeerAddresses,
    AwaitingInventoryResponses,
    AwaitingAttachmentResponses,
    RoundComplete,
}

/// What the outside work of a phase reports when it is done.
#[derive(Clone, Copy, Debug, PartialEq, Eq, Structural)]
pub enum RoundEvent {
    PeerAddressesResolved,
    InventoryResponsesCollected,
    AttachmentResponsesCollected,
}

/// The phase that `event` leads to from `phase`; `None` when `event` does not end `phase`.
pub open spec fn phase_after(phase: RoundPhase, event: RoundEvent) -> Option<RoundPhase> {
    match (phase, event) {
        (RoundPhase::ResolvingPeerAddresses, RoundEvent::PeerAddressesResolved) => Some(
            RoundPhase::AwaitingInventoryResponses,
        ),
        (RoundPhase::AwaitingInventoryResponses, RoundEvent::InventoryResponsesCollected) => Some(
            RoundPhase::AwaitingAttachmentResponses,
        ),
        (RoundPhase::AwaitingAttachmentResponses, RoundEvent::AttachmentResponsesCollected) => Some(
            RoundPhase::RoundComplete,
        ),
        _ => None,
    }
}

pub fn next_phase(phase: RoundPhase, event: RoundEvent) -> (r: Option<RoundPhase>)
    ensures
        r == phase_after(phase, event),
{
    match (phase, event) {
        (RoundPhase::ResolvingPeerAddresses, RoundEvent::PeerAddressesResolved) => Some(
            RoundPhase::AwaitingInventoryResponses,
        ),
        (RoundPhase::AwaitingInventoryResponses, RoundEvent::InventoryResponsesCollected) => Some(
            RoundPhase::AwaitingAttachmentResponses,
        ),
        (RoundPhase::AwaitingAttachmentResponses, RoundEvent::AttachmentResponsesCollected) => Some(
            RoundPhase::RoundComplete,
        ),
        _ => None,
    }
}

/// The entries of `peers` whose flag in `resolved` is set, in order.
pub open spec fn resolved_peers(
    peers: Seq<(String, ReliabilityReport)>,
    resolved: Seq<bool>,
) -> Seq<(String, ReliabilityReport)>
    decreases peers.len(),
{
    if peers.len() == 0 {
        peers
    } else {
        let rest = resolved_peers(peers.drop_last(), resolved.drop_last());
        if resolved[peers.len() - 1] {
            rest.push(peers.last())
        } else {
            rest
        }
    }
}

/// The peers whose address was resolved, in order; `resolved[i]` tells of `peers[i]`.
pub fn retain_resolved_peers(peers: Vec<(String, ReliabilityReport)>, resolved: &Vec<bool>) -> (r: Vec<
    (String, ReliabilityReport),
>)
    requires
        resolved@.len() == peers@.len(),
    ensures
        r@ == resolved_peers(peers@, resolved@),
{
    let mut kept: Vec<(String, ReliabilityReport)> = Vec::new();
    let mut i: usize = 0;
    proof {
        assert(peers@.subrange(0, 0) =~= Seq::<(String, ReliabilityReport)>::empty());
        assert(kept@ =~= resolved_peers(peers@.subrange(0, 0), resolved@.subrange(0, 0)));
    }
    while i < peers.len()
        invariant
            i <= peers@.len(),
            resolved@.len() == peers@.len(),
            kept@ == resolved_peers(peers@.subrange(0, i as int), resolved@.subrange(0, i as int)),
        decreases peers@.len() - i,
    {
        proof {
            assert(peers@.subrange(0, i + 1).drop_last() =~= peers@.subrange(0, i as int));
            assert(resolved@.subrange(0, i + 1).drop_last() =~= resolved@.subrange(0, i as int));
        }
        if resolved[i] {
            kept.push((peers[i].0.clone(), peers[i].1));
        }
        i = i + 1;
    }
    proof {
        assert(peers@.subrange(0, peers@.len() as int) =~= peers@);
        assert(resolved@.subrange(0, peers@.len() as int) =~= resolved@);
    }
    kept
}

/// What becomes of a batch when a round ends.
#[derive(Clone, Copy, Debug, PartialEq, Eq, Structural)]
pub enum RoundOutcome {
    /// Every instance is resolved.
    Completed,
    /// The batch goes back to the queue of batches in flight.
    Requeued,
    /// The batch has gone without progress for too many rounds and is reported as failed.
    Abandoned,
}

/// Ends a round of `batch`, which had `unresolved_before` unresolved instances when the
/// round began. A round without new resolutions counts as a retry; one beyond the
/// configured maximum abandons the batch.
pub fn conclude_round(
    batch: &mut AttachmentsBatch,
    unresolved_before: usize,
    options: &ConnectionOptions,
) -> (r: RoundOutcome)
    ensures
        final(batch)@ == old(batch)@,
        final(batch).block_height == old(batch).block_height,
        old(batch)@.len() == 0 ==> r == RoundOutcome::Completed,
        old(batch)@.len() > 0 && old(batch)@.len() < unresolved_before ==> r == RoundOutcome::Requeued
            && final(batch).retry_count == old(batch).retry_count,
        old(batch)@.len() > 0 && old(batch)@.len() >= unresolved_before && old(batch).retry_count
            >= options.max_attachment_retry_count ==> r == RoundOutcome::Abandoned
            && final(batch).retry_count == old(batch).retry_count,
        old(batch)@.len() > 0 && old(batch)@.len() >= unresolved_before && old(batch).retry_count
            < options.max_attachment_retry_count ==> r == RoundOutcome::Requeued
            && final(batch).retry_count == old(batch).retry_count + 1,
        r == RoundOutcome::Completed ==> final(batch).retry_count == old(batch).retry_count,
{
    if batch.has_fully_succeed() {
        return RoundOutcome::Completed;
    }
    if batch.attachments_instances_count() < unresolved_before {
        return RoundOutcome::Requeued;
    }
    if batch.retry_count >= options.max_attachment_retry_count {
        return RoundOutcome::Abandoned;
    }
    batch.bump_retry_count();
    RoundOutcome::Requeued
}

} // verus!
