//! The two ends of a handoff: the requester's steps from request to receipt,
//! and the donor's from request to terminator. Sending, receiving, staging
//! and installing are the caller's; what to do next is decided here.

use crate::frontier::Frontier;
use crate::group::{EntryWrite, GroupView, Leadership};
use crate::hosted::handoff::types::{Failure, HandoffError, HandoffReceipt, RefusalCode};
use crate::hosted::handoff::verdicts::{
    Coverage, DoneCheck, DoneCounts, HandoffCore, HandoffPhase, HandoffStep, Staleness, Stamp,
};
use crate::hosted::handoff::wire::{Frame, FrameView};
use crate::hosted::ledger::{CommitLedger, LedgerState};
use crate::idmap::{IdMap, IdSet};
use crate::ids::{GroupId, NodeId};
use crate::token::WriteToken;
use crate::watermarks::Watermarks;
use bytes::Bytes;
use vstd::prelude::*;

verus! {

/// What a donor served, for its own logs.
#[derive(Debug, Clone, PartialEq, Eq)]
pub struct Offered {
    /// The watermarks the snapshot claimed to cover.
    pub covers: Watermarks,
    /// Chunks sent.
    pub chunks: u64,
    /// Payload bytes across those chunks, framing excluded.
    pub bytes: u64,
}

/// One write path's snapshot handoff, for either end.
#[derive(Debug)]
pub struct Handoff {
    group: GroupId,
    me: NodeId,
    name: String,
}

/// A handoff as plain values: the group, this node, and the write path.
pub struct HandoffView {
    pub group: Seq<char>,
    pub me: Seq<char>,
    pub name: Seq<char>,
}

impl View for Handoff {
    type V = HandoffView;

    closed spec fn view(&self) -> HandoffView {
        HandoffView { group: self.group@, me: self.me@, name: self.name@ }
    }
}

/// The fence stamp a leadership amounts to.
pub open spec fn stamp_of(lead: Leadership) -> Stamp {
    (lead.epoch, crate::hosted::handoff::wire::host_name(lead.host))
}

/// What an arriving payload amounts to. Silence and a partial frame are the
/// same failure: silence is never success here.
pub open spec fn arrival(payload: Option<Seq<u8>>) -> Result<FrameView, Failure> {
    match payload {
        None => Err(Failure::Truncated),
        Some(b) => match crate::hosted::handoff::wire::parse(b) {
            Err(what) => Err(Failure::Protocol { what }),
            Ok(None) => Err(Failure::Truncated),
            Ok(Some(frame)) => Ok(frame),
        },
    }
}

/// The bytes of a payload that may be missing.
pub open spec fn payload_bytes(payload: Option<Bytes>) -> Option<Seq<u8>> {
    match payload {
        None => None,
        Some(b) => Some(crate::blob::contents(b)),
    }
}

fn read_frame(payload: &Option<Bytes>) -> (r: Result<Frame, HandoffError>)
    ensures
        match r {
            Ok(frame) => arrival(payload_bytes(*payload)) == Ok::<FrameView, Failure>(frame@),
            Err(e) => arrival(payload_bytes(*payload)) == Err::<FrameView, Failure>(e@),
        },
{
    match payload {
        None => Err(HandoffError::Truncated),
        Some(b) => match crate::hosted::handoff::wire::decode(b) {
            Err(e) => Err(e),
            Ok(None) => Err(HandoffError::Truncated),
            Ok(Some(frame)) => Ok(frame),
        },
    }
}

/// The sum of two counts, saturated at the largest.
pub open spec fn sat_add(a: u64, b: nat) -> u64 {
    if a + b <= u64::MAX {
        (a + b) as u64
    } else {
        u64::MAX
    }
}

/// The counts once one more chunk of `len` bytes has gone by.
pub open spec fn counted(sofar: DoneCounts, len: nat) -> DoneCounts {
    DoneCounts { chunks: sat_add(sofar.chunks, 1), bytes: sat_add(sofar.bytes, len) }
}

fn count_chunk(sofar: DoneCounts, data: &Bytes) -> (r: DoneCounts)
    ensures
        r == counted(sofar, crate::blob::contents(*data).len()),
{
    let len: u64 = crate::blob::as_slice(data).len() as u64;
    DoneCounts { chunks: sofar.chunks.saturating_add(1), bytes: sofar.bytes.saturating_add(len) }
}

/// What a refusal means, on either side of the stream.
pub open spec fn refusal(code: RefusalCode, have: Map<Seq<char>, WriteToken>) -> Failure {
    if code == RefusalCode::NotCovered {
        Failure::NotCovered { have }
    } else {
        Failure::Refused { code }
    }
}

/// What a refusal means, on either side of the stream.
pub fn refused(code: RefusalCode, have: Watermarks) -> (r: HandoffError)
    ensures
        r@ == refusal(code, have@),
{
    if code == RefusalCode::NotCovered {
        HandoffError::NotCovered { have }
    } else {
        HandoffError::Refused { code }
    }
}

/// The failure of a step that is not legal where it was taken.
pub open spec fn out_of_order() -> Failure {
    Failure::Protocol { what: "handoff frame out of order"@ }
}

/// The phase after `step`, with an illegal one turned into the protocol error
/// it means.
pub fn stepped(phase: HandoffPhase, step: HandoffStep) -> (r: Result<HandoffPhase, HandoffError>)
    ensures
        match r {
            Ok(next) => phase.after(step) == Some(next),
            Err(e) => phase.after(step) is None && e@ == out_of_order(),
        },
{
    match phase.advance(step) {
        Some(next) => Ok(next),
        None => Err(HandoffError::Protocol("handoff frame out of order")),
    }
}

/// What the requester is told.
#[derive(Debug)]
pub enum FetchEvent {
    /// The request was written to the stream.
    Sent,
    /// The next frame, or the end of the stream.
    Received(Option<Bytes>),
    /// The chunk was staged.
    Applied,
    /// The sink was finished.
    Finished,
}

/// What the requester does next.
#[derive(Debug, PartialEq, Eq)]
pub enum FetchAction {
    /// Read the next frame.
    Read,
    /// Stage this chunk.
    Apply(Bytes),
    /// Finish the sink: everything has been verified.
    Finish,
    /// The snapshot is installed; this is its receipt.
    Complete(HandoffReceipt),
}

/// An event as plain values.
pub enum EventView {
    Sent,
    Received { frame: Result<FrameView, Failure> },
    Applied,
    Finished,
}

/// An action as plain values.
pub enum ActionView {
    Read,
    Apply { data: Seq<u8> },
    Finish,
    Complete { receipt: ReceiptView },
}

/// A receipt as plain values.
pub struct ReceiptView {
    pub fence: Stamp,
    pub covers: Map<Seq<char>, WriteToken>,
}

impl View for HandoffReceipt {
    type V = ReceiptView;

    open spec fn view(&self) -> ReceiptView {
        ReceiptView {
            fence: (self.fence_epoch, crate::hosted::handoff::wire::host_name(self.fence_host)),
            covers: self.covers@,
        }
    }
}

impl View for FetchEvent {
    type V = EventView;

    open spec fn view(&self) -> EventView {
        match *self {
            FetchEvent::Sent => EventView::Sent,
            FetchEvent::Received(payload) => EventView::Received {
                frame: arrival(payload_bytes(payload)),
            },
            FetchEvent::Applied => EventView::Applied,
            FetchEvent::Finished => EventView::Finished,
        }
    }
}

impl View for FetchAction {
    type V = ActionView;

    open spec fn view(&self) -> ActionView {
        match *self {
            FetchAction::Read => ActionView::Read,
            FetchAction::Apply(data) => ActionView::Apply { data: crate::blob::contents(data) },
            FetchAction::Finish => ActionView::Finish,
            FetchAction::Complete(receipt) => ActionView::Complete { receipt: receipt@ },
        }
    }
}

/// The requester's side of one transfer: how far it has got, the offer it
/// accepted, and what it has staged.
#[derive(Debug)]
pub struct Fetch {
    need: Watermarks,
    phase: HandoffPhase,
    offer: Option<HandoffReceipt>,
    staged: DoneCounts,
}

/// The requester's side as plain values.
pub struct FetchState {
    pub need: Map<Seq<char>, WriteToken>,
    pub phase: HandoffPhase,
    pub offer: Option<ReceiptView>,
    pub staged: DoneCounts,
}

impl View for Fetch {
    type V = FetchState;

    closed spec fn view(&self) -> FetchState {
        FetchState {
            need: self.need@,
            phase: self.phase,
            offer: match self.offer {
                None => None,
                Some(receipt) => Some(receipt@),
            },
            staged: self.staged,
        }
    }
}

impl FetchState {
    /// A transfer that has sent nothing yet.
    pub open spec fn start(need: Map<Seq<char>, WriteToken>) -> FetchState {
        FetchState {
            need,
            phase: HandoffPhase::Request,
            offer: None,
            staged: DoneCounts { chunks: 0, bytes: 0 },
        }
    }

    /// What the answer to the request leads to, judged against the adopted
    /// leadership: staleness first, then coverage.
    pub open spec fn answered(self, frame: FrameView, adopted: Stamp) -> Result<
        (FetchState, ActionView),
        Failure,
    > {
        match frame {
            FrameView::Offer { fence_epoch, host, covers } => {
                let fence = (fence_epoch, host);
                if crate::hosted::handoff::verdicts::superseded(fence, adopted) {
                    Err(Failure::StaleDonor { donor: fence, adopted })
                } else if !crate::watermarks::at_least(covers, self.need) {
                    Err(Failure::NotCovered { have: covers })
                } else {
                    Ok(
                        (
                            FetchState {
                                phase: HandoffPhase::Stage,
                                offer: Some(ReceiptView { fence, covers }),
                                ..self
                            },
                            ActionView::Read,
                        ),
                    )
                }
            },
            FrameView::Refuse { code, have } => Err(refusal(code, have)),
            _ => Err(Failure::Protocol { what: "a request is answered by an offer"@ }),
        }
    }

    /// What a frame leads to while staging: a chunk is counted and staged; a
    /// terminator is judged by its counts, and then by its stamp against the
    /// leadership adopted by now.
    pub open spec fn staging(self, frame: FrameView, adopted: Stamp) -> Result<
        (FetchState, ActionView),
        Failure,
    > {
        match frame {
            FrameView::Chunk { data } => Ok(
                (
                    FetchState { staged: counted(self.staged, data.len()), ..self },
                    ActionView::Apply { data },
                ),
            ),
            FrameView::Done { chunks, bytes, final_epoch, final_host } => {
                let fence = (final_epoch, final_host);
                if self.staged != (DoneCounts { chunks, bytes }) {
                    Err(Failure::Truncated)
                } else if crate::hosted::handoff::verdicts::superseded(fence, adopted) {
                    Err(Failure::StaleDonor { donor: fence, adopted })
                } else {
                    Ok((FetchState { phase: HandoffPhase::Finish, ..self }, ActionView::Finish))
                }
            },
            _ => Err(Failure::Protocol { what: "a stage ends at a done frame"@ }),
        }
    }

    /// What an event leads to. Every failure ends the transfer.
    pub open spec fn next(self, event: EventView, adopted: Stamp) -> Result<
        (FetchState, ActionView),
        Failure,
    > {
        match (self.phase, event) {
            (HandoffPhase::Request, EventView::Sent) => Ok(
                (FetchState { phase: HandoffPhase::OfferVerify, ..self }, ActionView::Read),
            ),
            (HandoffPhase::OfferVerify, EventView::Received { frame }) => match frame {
                Err(failure) => Err(failure),
                Ok(frame) => self.answered(frame, adopted),
            },
            (HandoffPhase::Stage, EventView::Received { frame }) => match frame {
                Err(failure) => Err(failure),
                Ok(frame) => self.staging(frame, adopted),
            },
            (HandoffPhase::Stage, EventView::Applied) => Ok((self, ActionView::Read)),
            (HandoffPhase::Finish, EventView::Finished) => match self.offer {
                Some(receipt) => Ok(
                    (
                        FetchState { phase: HandoffPhase::Complete, ..self },
                        ActionView::Complete { receipt },
                    ),
                ),
                None => Err(out_of_order()),
            },
            _ => Err(out_of_order()),
        }
    }
}

/// What a step of the requester came to, as plain values.
pub open spec fn outcome(r: Result<(Fetch, FetchAction), HandoffError>) -> Result<
    (FetchState, ActionView),
    Failure,
> {
    match r {
        Ok((fetch, action)) => Ok((fetch@, action@)),
        Err(e) => Err(e@),
    }
}

/// The failure a provably stale donor is, judged against the leadership
/// adopted by now.
fn stale_donor(donor_epoch: u64, donor_host: &Option<NodeId>, lead: &Leadership) -> (r: Option<
    HandoffError,
>)
    ensures
        match r {
            Some(e) => {
                &&& crate::hosted::handoff::verdicts::superseded(
                    (donor_epoch, crate::hosted::handoff::wire::host_name(*donor_host)),
                    stamp_of(*lead),
                )
                &&& e@ == (Failure::StaleDonor {
                    donor: (donor_epoch, crate::hosted::handoff::wire::host_name(*donor_host)),
                    adopted: stamp_of(*lead),
                })
            },
            None => !crate::hosted::handoff::verdicts::superseded(
                (donor_epoch, crate::hosted::handoff::wire::host_name(*donor_host)),
                stamp_of(*lead),
            ),
        },
{
    match HandoffCore::staleness(
        (donor_epoch, donor_host.as_ref()),
        (lead.epoch, lead.host.as_ref()),
    ) {
        Staleness::Passed => None,
        Staleness::Stale => Some(
            HandoffError::StaleDonor {
                donor_epoch,
                donor_host: crate::group::copied_host(donor_host),
                adopted_epoch: lead.epoch,
                adopted_host: crate::group::copied_host(&lead.host),
            },
        ),
    }
}

impl Fetch {
    /// Takes one event and says what to do next, judging the donor against
    /// the leadership as it is read now. A failure consumes the transfer:
    /// there is nothing left to go on with, and the sink is to be dropped
    /// unfinished.
    pub fn step(self, event: FetchEvent, lead: &Leadership) -> (r: Result<
        (Fetch, FetchAction),
        HandoffError,
    >)
        ensures
            outcome(r) == self@.next(event@, stamp_of(*lead)),
    {
        match event {
            FetchEvent::Sent => match stepped(self.phase, HandoffStep::Requested) {
                Err(e) => Err(e),
                Ok(phase) => Ok((Fetch { phase, ..self }, FetchAction::Read)),
            },
            FetchEvent::Received(payload) => match self.phase {
                HandoffPhase::OfferVerify => match read_frame(&payload) {
                    Err(e) => Err(e),
                    Ok(frame) => self.take_answer(frame, lead),
                },
                HandoffPhase::Stage => match read_frame(&payload) {
                    Err(e) => Err(e),
                    Ok(frame) => self.take_staged(frame, lead),
                },
                _ => Err(HandoffError::Protocol("handoff frame out of order")),
            },
            FetchEvent::Applied => match stepped(self.phase, HandoffStep::Chunk) {
                Err(e) => Err(e),
                Ok(phase) => Ok((Fetch { phase, ..self }, FetchAction::Read)),
            },
            FetchEvent::Finished => match stepped(self.phase, HandoffStep::Finished) {
                Err(e) => Err(e),
                Ok(phase) => match &self.offer {
                    None => Err(HandoffError::Protocol("handoff frame out of order")),
                    Some(offer) => {
                        let receipt = HandoffReceipt {
                            fence_epoch: offer.fence_epoch,
                            fence_host: crate::group::copied_host(&offer.fence_host),
                            covers: offer.covers.clone(),
                        };
                        Ok((Fetch { phase, ..self }, FetchAction::Complete(receipt)))
                    },
                },
            },
        }
    }

    fn take_answer(self, frame: Frame, lead: &Leadership) -> (r: Result<
        (Fetch, FetchAction),
        HandoffError,
    >)
        requires
            self@.phase == HandoffPhase::OfferVerify,
        ensures
            outcome(r) == self@.answered(frame@, stamp_of(*lead)),
    {
        match frame {
            Frame::Offer { fence_epoch, host, covers } => {
                if let Some(stale) = stale_donor(fence_epoch, &host, lead) {
                    return Err(stale);
                }
                if let Coverage::Short { .. } = HandoffCore::coverage(&self.need, &covers) {
                    return Err(HandoffError::NotCovered { have: covers });
                }
                match stepped(self.phase, HandoffStep::OfferAccepted) {
                    Err(e) => Err(e),
                    Ok(phase) => {
                        let offer = HandoffReceipt { fence_epoch, fence_host: host, covers };
                        Ok((Fetch { phase, offer: Some(offer), ..self }, FetchAction::Read))
                    },
                }
            },
            Frame::Refuse { code, have } => Err(refused(code, have)),
            _ => Err(HandoffError::Protocol("a request is answered by an offer")),
        }
    }

    fn take_staged(self, frame: Frame, lead: &Leadership) -> (r: Result<
        (Fetch, FetchAction),
        HandoffError,
    >)
        requires
            self@.phase == HandoffPhase::Stage,
        ensures
            outcome(r) == self@.staging(frame@, stamp_of(*lead)),
    {
        match frame {
            Frame::Chunk(data) => {
                let staged: DoneCounts = count_chunk(self.staged, &data);
                Ok((Fetch { staged, ..self }, FetchAction::Apply(data)))
            },
            Frame::Done { chunks, bytes, final_epoch, final_host } => {
                let seen: HandoffPhase = match stepped(self.phase, HandoffStep::DoneSeen) {
                    Err(e) => return Err(e),
                    Ok(phase) => phase,
                };
                let claimed = DoneCounts { chunks, bytes };
                if HandoffCore::done_consistent(self.staged, claimed) == DoneCheck::Truncated {
                    return Err(HandoffError::Truncated);
                }
                if let Some(stale) = stale_donor(final_epoch, &final_host, lead) {
                    return Err(stale);
                }
                match stepped(seen, HandoffStep::CountsOk) {
                    Err(e) => Err(e),
                    Ok(phase) => Ok((Fetch { phase, ..self }, FetchAction::Finish)),
                }
            },
            _ => Err(HandoffError::Protocol("a stage ends at a done frame")),
        }
    }
}

/// The donor's answer to an opener.
#[derive(Debug)]
pub enum Opening {
    /// Open a snapshot, and offer it if it covers `need`.
    Serve {
        /// The watermarks asked for.
        need: Watermarks,
    },
    /// Write the refusal and give up with the error it means.
    Refuse {
        /// The refusal on the wire.
        frame: Bytes,
        /// What the requester will see too.
        error: HandoffError,
    },
}

/// The donor's answer once it has tried to open a snapshot.
#[derive(Debug)]
pub enum Offering {
    /// Write the offer, and stream the snapshot.
    Send {
        /// The offer on the wire.
        frame: Bytes,
        /// The transfer to go on with.
        donation: Donation,
    },
    /// Write the refusal and give up with the error it means.
    Refuse {
        /// The refusal on the wire.
        frame: Bytes,
        /// What the requester will see too.
        error: HandoffError,
    },
}

/// The donor's side of one accepted transfer: what the snapshot covers, and
/// what has been sent of it.
#[derive(Debug)]
pub struct Donation {
    covers: Watermarks,
    sent: DoneCounts,
}

/// The donor's side as plain values.
pub struct DonationView {
    pub covers: Map<Seq<char>, WriteToken>,
    pub sent: DoneCounts,
}

impl View for Donation {
    type V = DonationView;

    closed spec fn view(&self) -> DonationView {
        DonationView { covers: self.covers@, sent: self.sent }
    }
}

/// Whether `frame` is a refusal with `code` carrying the watermarks `have`,
/// and `error` is what it means to both sides.
pub open spec fn refuses(
    frame: Bytes,
    error: HandoffError,
    code: RefusalCode,
    have: Seq<(Seq<char>, WriteToken)>,
) -> bool {
    &&& crate::blob::contents(frame) == crate::hosted::handoff::wire::prefix(
        crate::hosted::handoff::wire::KIND_REFUSE,
    ) + crate::hosted::handoff::wire::refusal_body(code, have)
    &&& error@ == refusal(code, crate::idmap::map_of(have))
}

fn refuse(code: RefusalCode, have: Watermarks) -> (r: (Bytes, HandoffError))
    ensures
        refuses(r.0, r.1, code, have.records()),
{
    let frame = Frame::Refuse { code, have: have.clone() };
    (crate::hosted::handoff::wire::encode(&frame), refused(code, have))
}

impl Donation {
    /// The next chunk on the wire, counted.
    pub fn chunk(&mut self, data: Bytes) -> (r: Bytes)
        requires
            6 + crate::blob::contents(data).len() <= isize::MAX,
        ensures
            final(self)@ == (DonationView {
                covers: old(self)@.covers,
                sent: counted(old(self)@.sent, crate::blob::contents(data).len()),
            }),
            crate::blob::contents(r) == crate::hosted::handoff::wire::prefix(
                crate::hosted::handoff::wire::KIND_CHUNK,
            ) + crate::blob::contents(data),
    {
        self.sent = count_chunk(self.sent, &data);
        crate::hosted::handoff::wire::encode(&Frame::Chunk(data))
    }

    /// The terminator on the wire, and what was served. It carries the
    /// leadership as it is read now, not as it was at the offer: a donor
    /// deposed in between says so itself.
    pub fn done(self, lead: &Leadership) -> (r: (Bytes, Offered))
        ensures
            crate::blob::contents(r.0) == crate::hosted::handoff::wire::prefix(
                crate::hosted::handoff::wire::KIND_DONE,
            ) + crate::hosted::handoff::wire::done_body(
                self@.sent.chunks,
                self@.sent.bytes,
                lead.epoch,
                crate::hosted::handoff::wire::host_name(lead.host),
            ),
            r.1.covers@ == self@.covers,
            r.1.chunks == self@.sent.chunks,
            r.1.bytes == self@.sent.bytes,
    {
        let frame = Frame::Done {
            chunks: self.sent.chunks,
            bytes: self.sent.bytes,
            final_epoch: lead.epoch,
            final_host: crate::group::copied_host(&lead.host),
        };
        (
            crate::hosted::handoff::wire::encode(&frame),
            Offered { covers: self.covers, chunks: self.sent.chunks, bytes: self.sent.bytes },
        )
    }
}

/// Whether `member`'s published ledger covers `need`, as gossip currently
/// shows it.
pub open spec fn covering(
    group: GroupView,
    path: Seq<char>,
    need: Map<Seq<char>, WriteToken>,
    member: Seq<char>,
) -> bool {
    crate::hosted::ledger::reading_of(
        group,
        member,
        crate::wire::scoped_key(crate::hosted::ledger::LEDGER_KEY@, path),
    ) matches Some(state) && crate::watermarks::at_least(state.applied, need)
}

/// The members whose published ledgers cover `need`.
pub open spec fn coverers(
    group: GroupView,
    path: Seq<char>,
    need: Map<Seq<char>, WriteToken>,
) -> Set<Seq<char>> {
    Set::new(|m: Seq<char>| covering(group, path, need, m))
}

/// Every name but one.
pub open spec fn other_than(name: Seq<char>) -> spec_fn(Seq<char>) -> bool {
    |m: Seq<char>| m != name
}

/// Every covering member but one.
pub open spec fn worth_asking(me: Seq<char>, covers: Set<Seq<char>>) -> spec_fn(Seq<char>) -> bool {
    |m: Seq<char>| m != me && covers.contains(m)
}

/// A ranking with the host, when it is ranked, moved to the front.
pub open spec fn host_first(ranked: Seq<Seq<char>>, host: Option<Seq<char>>) -> Seq<Seq<char>> {
    match host {
        None => ranked,
        Some(h) => (if ranked.contains(h) {
            seq![h]
        } else {
            Seq::empty()
        }) + ranked.filter(other_than(h)),
    }
}

/// The donors in the order to ask them: the host first, then the ranking,
/// leaving out `me` and every member that does not cover.
pub open spec fn donor_order(
    ranked: Seq<Seq<char>>,
    me: Seq<char>,
    host: Option<Seq<char>>,
    covers: Set<Seq<char>>,
) -> Seq<Seq<char>> {
    host_first(ranked, host).filter(worth_asking(me, covers))
}

fn without(ids: &[NodeId], id: &NodeId) -> (r: Vec<NodeId>)
    ensures
        crate::ids::names(r@) == crate::ids::names(ids@).filter(other_than(id@)),
{
    let mut out: Vec<NodeId> = Vec::new();
    let ghost all = crate::ids::names(ids@);
    let ghost keep = other_than(id@);
    proof {
        reveal(Seq::filter);
        assert(crate::ids::names(out@) =~= all.subrange(0, 0).filter(keep));
    }
    let mut i: usize = 0;
    while i < ids.len()
        invariant
            i <= ids@.len(),
            all == crate::ids::names(ids@),
            keep == other_than(id@),
            crate::ids::names(out@) == all.subrange(0, i as int).filter(keep),
        decreases ids@.len() - i,
    {
        let ghost was = crate::ids::names(out@);
        proof {
            reveal(Seq::filter);
            let part = all.subrange(0, i + 1);
            assert(part.drop_last() =~= all.subrange(0, i as int));
            assert(part.last() == ids@[i as int]@);
        }
        if ids[i] != *id {
            out.push(ids[i].clone());
            proof {
                assert(crate::ids::names(out@) =~= was.push(ids@[i as int]@));
            }
        }
        i = i + 1;
    }
    proof {
        assert(all.subrange(0, i as int) =~= all);
    }
    out
}

/// The donor order over a ranking of the members, with the members that
/// cover what is needed.
pub fn rank_donors(ranked: &[NodeId], me: &NodeId, host: Option<&NodeId>, covers: &IdSet) -> (r:
    Vec<NodeId>)
    ensures
        crate::ids::names(r@) == donor_order(
            crate::ids::names(ranked@),
            me@,
            crate::hosted::handoff::verdicts::host_of(host),
            covers@,
        ),
{
    let mut ordered: Vec<NodeId> = Vec::new();
    match host {
        Some(h) => {
            if crate::ids::contains_id(ranked, h) {
                ordered.push(h.clone());
            }
            let mut rest: Vec<NodeId> = without(ranked, h);
            let ghost front = ordered@;
            let ghost back = rest@;
            ordered.append(&mut rest);
            proof {
                assert(crate::ids::names(ordered@) =~= crate::ids::names(front)
                    + crate::ids::names(back));
                assert(crate::ids::names(front) =~= (if crate::ids::names(ranked@).contains(h@) {
                    seq![h@]
                } else {
                    Seq::empty()
                }));
            }
        },
        None => {
            let mut i: usize = 0;
            while i < ranked.len()
                invariant
                    i <= ranked@.len(),
                    crate::ids::names(ordered@) == crate::ids::names(ranked@).subrange(0, i as int),
                decreases ranked@.len() - i,
            {
                let ghost was = crate::ids::names(ordered@);
                ordered.push(ranked[i].clone());
                proof {
                    assert(crate::ids::names(ordered@) =~= was.push(ranked@[i as int]@));
                    assert(crate::ids::names(ranked@).subrange(0, i + 1) =~= crate::ids::names(
                        ranked@,
                    ).subrange(0, i as int).push(ranked@[i as int]@));
                }
                i = i + 1;
            }
            proof {
                assert(crate::ids::names(ranked@).subrange(0, i as int) =~= crate::ids::names(
                    ranked@,
                ));
            }
        },
    }
    let ghost all = crate::ids::names(ordered@);
    let ghost keep = worth_asking(me@, covers@);
    let mut out: Vec<NodeId> = Vec::new();
    proof {
        reveal(Seq::filter);
        assert(crate::ids::names(out@) =~= all.subrange(0, 0).filter(keep));
    }
    let mut i: usize = 0;
    while i < ordered.len()
        invariant
            i <= ordered@.len(),
            all == crate::ids::names(ordered@),
            keep == worth_asking(me@, covers@),
            crate::ids::names(out@) == all.subrange(0, i as int).filter(keep),
        decreases ordered@.len() - i,
    {
        let ghost was = crate::ids::names(out@);
        proof {
            reveal(Seq::filter);
            let part = all.subrange(0, i + 1);
            assert(part.drop_last() =~= all.subrange(0, i as int));
            assert(part.last() == ordered@[i as int]@);
        }
        if ordered[i] != *me && covers.contains(&ordered[i]) {
            out.push(ordered[i].clone());
            proof {
                assert(crate::ids::names(out@) =~= was.push(ordered@[i as int]@));
            }
        }
        i = i + 1;
    }
    proof {
        assert(all.subrange(0, i as int) =~= all);
    }
    out
}

impl Handoff {
    /// A handoff over the group's default write path, as `me`.
    pub fn new(group: GroupId, me: NodeId) -> (r: Handoff)
        ensures
            r@ == (HandoffView { group: group@, me: me@, name: Seq::empty() }),
    {
        proof {
            reveal_strlit("");
            assert(""@ =~= Seq::<char>::empty());
        }
        Handoff::named("", group, me)
    }

    /// A handoff over a named write path. The name travels on the wire, and a
    /// donor refuses a request that names a path it does not serve.
    pub fn named(name: &str, group: GroupId, me: NodeId) -> (r: Handoff)
        ensures
            r@ == (HandoffView { group: group@, me: me@, name: name@ }),
    {
        Handoff { group, me, name: name.to_owned() }
    }

    /// Begins to pull a snapshot that covers `need`: the transfer, and the
    /// request to write.
    pub fn fetch(&self, need: &Watermarks) -> (r: (Fetch, Bytes))
        ensures
            r.0@ == FetchState::start(need@),
            crate::blob::contents(r.1) == crate::hosted::handoff::wire::prefix(
                crate::hosted::handoff::wire::KIND_REQUEST,
            ) + crate::hosted::handoff::wire::request_body(
                self@.group,
                self@.name,
                need.records(),
            ),
    {
        let frame = Frame::Request {
            group: self.group.clone(),
            name: self.name.clone(),
            need: need.clone(),
        };
        let fetch = Fetch {
            need: need.clone(),
            phase: HandoffPhase::Request,
            offer: None,
            staged: DoneCounts::default(),
        };
        (fetch, crate::hosted::handoff::wire::encode(&frame))
    }

    /// Begins to serve an accepted stream, given its opener. Only a request
    /// for this group and write path is served; another group or path is
    /// refused; anything else is not a handoff.
    pub fn offer(&self, opener: &Option<Bytes>) -> (r: Result<Opening, HandoffError>)
        ensures
            match (r, arrival(payload_bytes(*opener))) {
                (Err(e), Err(failure)) => e@ == failure,
                (Ok(opening), Ok(FrameView::Request { group, name, need })) => if group
                    == self@.group && name == self@.name {
                    opening matches Opening::Serve { need: asked } && asked@ == need
                } else {
                    opening matches Opening::Refuse { frame, error } && refuses(
                        frame,
                        error,
                        RefusalCode::BadRequest,
                        Seq::empty(),
                    )
                },
                (Err(e), Ok(frame)) => !(frame is Request) && e@ == (Failure::Protocol {
                    what: "a handoff opens with a request"@,
                }),
                _ => false,
            },
    {
        match read_frame(opener) {
            Err(e) => Err(e),
            Ok(Frame::Request { group, name, need }) => {
                if group == self.group && crate::group::same_text(
                    name.as_str(),
                    self.name.as_str(),
                ) {
                    Ok(Opening::Serve { need })
                } else {
                    let none: Watermarks = IdMap::new();
                    let (frame, error) = refuse(RefusalCode::BadRequest, none);
                    Ok(Opening::Refuse { frame, error })
                }
            },
            Ok(_) => Err(HandoffError::Protocol("a handoff opens with a request")),
        }
    }

    /// Goes on serving once a snapshot has been opened, or could not be. A
    /// snapshot that does not cover `need` is refused before any of it is
    /// sent, and the refusal says what it does cover.
    pub fn opened(need: &Watermarks, covers: Option<Watermarks>, lead: &Leadership) -> (r: Offering)
        ensures
            match covers {
                None => r matches Offering::Refuse { frame, error } && refuses(
                    frame,
                    error,
                    RefusalCode::Unavailable,
                    Seq::empty(),
                ),
                Some(covers) => if crate::watermarks::at_least(covers@, need@) {
                    r matches Offering::Send { frame, donation } && {
                        &&& crate::blob::contents(frame) == crate::hosted::handoff::wire::prefix(
                            crate::hosted::handoff::wire::KIND_OFFER,
                        ) + crate::hosted::handoff::wire::offer_body(
                            lead.epoch,
                            crate::hosted::handoff::wire::host_name(lead.host),
                            covers.records(),
                        )
                        &&& donation@ == (DonationView {
                            covers: covers@,
                            sent: DoneCounts { chunks: 0, bytes: 0 },
                        })
                    }
                } else {
                    r matches Offering::Refuse { frame, error } && refuses(
                        frame,
                        error,
                        RefusalCode::NotCovered,
                        covers.records(),
                    )
                },
            },
    {
        match covers {
            None => {
                let none: Watermarks = IdMap::new();
                let (frame, error) = refuse(RefusalCode::Unavailable, none);
                Offering::Refuse { frame, error }
            },
            Some(covers) => {
                if let Coverage::Short { .. } = HandoffCore::coverage(need, &covers) {
                    let (frame, error) = refuse(RefusalCode::NotCovered, covers);
                    return Offering::Refuse { frame, error };
                }
                let offer = Frame::Offer {
                    fence_epoch: lead.epoch,
                    host: crate::group::copied_host(&lead.host),
                    covers: covers.clone(),
                };
                let frame = crate::hosted::handoff::wire::encode(&offer);
                Offering::Send {
                    frame,
                    donation: Donation { covers, sent: DoneCounts::default() },
                }
            },
        }
    }

    /// The members whose published ledgers already cover `need`, best donor
    /// first: the serving host, whose state is the one that survives, then
    /// everyone else as `ranked`. This node is never its own donor.
    pub fn donors(&self, group: &GroupView, ranked: &[NodeId], need: &Watermarks) -> (r: Vec<
        NodeId,
    >)
        ensures
            crate::ids::names(r@) == donor_order(
                crate::ids::names(ranked@),
                self@.me,
                crate::hosted::handoff::wire::host_name(group.leadership.host),
                coverers(*group, self@.name, need@),
            ),
    {
        let mut covers: IdSet = IdSet::new();
        let mut i: usize = 0;
        while i < ranked.len()
            invariant
                i <= ranked@.len(),
                forall|m: Seq<char>| #[trigger]
                    covers@.contains(m) <==> covering(*group, self@.name, need@, m)
                        && named_before(ranked@, i as int, m),
            decreases ranked@.len() - i,
        {
            let covered: bool = match crate::hosted::ledger::commit_reading_named(
                self.name.as_str(),
                group,
                &ranked[i],
            ) {
                None => false,
                Some(reading) => match HandoffCore::coverage(need, &reading.applied) {
                    Coverage::Passed => true,
                    Coverage::Short { .. } => false,
                },
            };
            proof {
                assert forall|m: Seq<char>| #[trigger]
                    named_before(ranked@, i + 1, m) == (named_before(ranked@, i as int, m) || m
                        == ranked@[i as int]@) by {
                    if m == ranked@[i as int]@ {
                        assert(ranked@[i as int]@ == m);
                    }
                }
            }
            if covered {
                covers.insert(ranked[i].clone());
            }
            i = i + 1;
        }
        let r: Vec<NodeId> = rank_donors(ranked, &self.me, group.leadership.host.as_ref(), &covers);
        proof {
            let all = crate::ids::names(ranked@);
            let host = crate::hosted::handoff::wire::host_name(group.leadership.host);
            let order = host_first(all, host);
            let p = worth_asking(self@.me, covers@);
            let q = worth_asking(self@.me, coverers(*group, self@.name, need@));
            assert forall|k: int| 0 <= k < order.len() implies p(#[trigger] order[k]) == q(
                order[k],
            ) by {
                lemma_host_first(all, host);
                assert(all.contains(order[k]));
                let j = choose|j: int| 0 <= j < all.len() && all[j] == order[k];
                assert(ranked@[j]@ == order[k]);
                assert(named_before(ranked@, i as int, order[k]));
            }
            lemma_filters_agree(order, p, q);
        }
        r
    }

    /// Folds an installed snapshot into this node's own evidence: the ledger
    /// its peers read and the frontier its readers barrier on, and hands back
    /// the re-stamped ledger to publish. Nothing is lowered.
    pub fn seed(
        receipt: &HandoffReceipt,
        ledger: &mut CommitLedger,
        frontier: &mut Frontier,
        lead_epoch: u64,
    ) -> (r: EntryWrite)
        ensures
            final(ledger).key() == old(ledger).key(),
            final(ledger)@ == (LedgerState {
                stamp: old(ledger)@.stamp,
                applied: crate::watermarks::merged(old(ledger)@.applied, receipt@.covers),
            }).restamped(lead_epoch),
            final(frontier)@ == crate::watermarks::merged(old(frontier)@, receipt@.covers),
            final(ledger).advertises(r),
    {
        ledger.absorb(&receipt.covers);
        frontier.absorb(&receipt.covers);
        ledger.refresh(lead_epoch)
    }
}

spec fn named_before(ids: Seq<NodeId>, k: int, name: Seq<char>) -> bool {
    exists|j: int| 0 <= j < k && (#[trigger] ids[j])@ == name
}

proof fn lemma_host_first(ranked: Seq<Seq<char>>, host: Option<Seq<char>>)
    ensures
        forall|k: int|
            0 <= k < host_first(ranked, host).len() ==> ranked.contains(
                #[trigger] host_first(ranked, host)[k],
            ),
{
    let order = host_first(ranked, host);
    assert forall|k: int| 0 <= k < order.len() implies ranked.contains(#[trigger] order[k]) by {
        match host {
            None => {},
            Some(h) => {
                let p = other_than(h);
                let rest = ranked.filter(p);
                let front: Seq<Seq<char>> = if ranked.contains(h) {
                    seq![h]
                } else {
                    Seq::empty()
                };
                if k >= front.len() {
                    assert(rest.contains(rest[k - front.len()]));
                    ranked.lemma_filter_contains_rev(p, order[k]);
                }
            },
        }
    }
}

proof fn lemma_filters_agree(
    s: Seq<Seq<char>>,
    p: spec_fn(Seq<char>) -> bool,
    q: spec_fn(Seq<char>) -> bool,
)
    requires
        forall|k: int| 0 <= k < s.len() ==> p(#[trigger] s[k]) == q(s[k]),
    ensures
        s.filter(p) == s.filter(q),
    decreases s.len(),
{
    reveal(Seq::filter);
    if s.len() > 0 {
        let init = s.drop_last();
        assert forall|k: int| 0 <= k < init.len() implies p(#[trigger] init[k]) == q(init[k]) by {
            assert(init[k] == s[k]);
        }
        lemma_filters_agree(init, p, q);
        assert(p(s[s.len() - 1]) == q(s[s.len() - 1]));
    }
}

/// One event, with the leadership adopted when it came.
pub type Turn = (EventView, Stamp);

/// Where a run of events leads the requester, unless one of them fails.
pub open spec fn run(s: FetchState, turns: Seq<Turn>) -> Result<FetchState, Failure>
    decreases turns.len(),
{
    if turns.len() == 0 {
        Ok(s)
    } else {
        match run(s, turns.drop_last()) {
            Err(failure) => Err(failure),
            Ok(t) => match t.next(turns.last().0, turns.last().1) {
                Err(failure) => Err(failure),
                Ok((u, _)) => Ok(u),
            },
        }
    }
}

/// The chunk an event delivers, if it delivers one.
pub open spec fn chunk_in(event: EventView) -> Option<Seq<u8>> {
    match event {
        EventView::Received { frame: Ok(FrameView::Chunk { data }) } => Some(data),
        _ => None,
    }
}

/// The counts of the chunks that a run delivers.
pub open spec fn delivered(turns: Seq<Turn>) -> DoneCounts
    decreases turns.len(),
{
    if turns.len() == 0 {
        DoneCounts { chunks: 0, bytes: 0 }
    } else {
        match chunk_in(turns.last().0) {
            None => delivered(turns.drop_last()),
            Some(data) => counted(delivered(turns.drop_last()), data.len()),
        }
    }
}

/// Whether an offer that passes both verdicts came at `i`.
pub open spec fn offer_passed(
    need: Map<Seq<char>, WriteToken>,
    turns: Seq<Turn>,
    i: int,
    receipt: ReceiptView,
) -> bool {
    &&& 0 <= i < turns.len()
    &&& turns[i].0 == (EventView::Received {
        frame: Ok(
            FrameView::Offer {
                fence_epoch: receipt.fence.0,
                host: receipt.fence.1,
                covers: receipt.covers,
            },
        ),
    })
    &&& !crate::hosted::handoff::verdicts::superseded(receipt.fence, turns[i].1)
    &&& crate::watermarks::at_least(receipt.covers, need)
}

/// Whether a terminator that passes both verdicts came at `j`.
pub open spec fn end_passed(turns: Seq<Turn>, j: int) -> bool {
    &&& 0 <= j < turns.len()
    &&& turns[j].0 matches EventView::Received {
        frame: Ok(FrameView::Done { chunks, bytes, final_epoch, final_host }),
    } && {
        &&& delivered(turns.subrange(0, j)) == (DoneCounts { chunks, bytes })
        &&& !crate::hosted::handoff::verdicts::superseded((final_epoch, final_host), turns[j].1)
    }
}

/// Nothing is installed unverified. Whatever arrives and however the
/// leadership moves meanwhile, a transfer that gets as far as finishing its
/// sink has accepted an offer that was not provably stale when it came and
/// that covers the request, and after it a terminator whose counts are those
/// of the chunks delivered and whose stamp was not provably stale by then.
/// The receipt is that offer's.
pub proof fn nothing_is_installed_unverified(
    need: Map<Seq<char>, WriteToken>,
    turns: Seq<Turn>,
) -> (at: (int, int))
    ensures
        run(FetchState::start(need), turns) matches Ok(s) ==> {
            &&& s.need == need
            &&& s.staged == delivered(turns)
            &&& s.phase is Stage || s.phase is Finish || s.phase is Complete ==> s.offer is Some
                && offer_passed(need, turns, at.0, s.offer->0)
            &&& s.phase is Finish || s.phase is Complete ==> at.0 < at.1 && end_passed(turns, at.1)
            &&& !(s.phase is DoneVerify)
        },
    decreases turns.len(),
{
    let start = FetchState::start(need);
    if turns.len() == 0 {
        (0, 0)
    } else {
        let before = turns.drop_last();
        let n = turns.len() - 1;
        let at = nothing_is_installed_unverified(need, before);
        match run(start, before) {
            Err(_) => at,
            Ok(t) => match t.next(turns.last().0, turns.last().1) {
                Err(_) => at,
                Ok((u, _)) => {
                    assert(turns[n] == turns.last());
                    if t.phase is OfferVerify {
                        (n, 0)
                    } else if t.phase is Stage {
                        assert(turns[at.0] == before[at.0]);
                        if u.phase is Finish {
                            assert(turns.subrange(0, n) =~= before);
                            (at.0, n)
                        } else {
                            at
                        }
                    } else if t.phase is Finish {
                        assert(turns[at.0] == before[at.0]);
                        assert(turns[at.1] == before[at.1]);
                        assert(turns.subrange(0, at.1) =~= before.subrange(0, at.1));
                        at
                    } else {
                        at
                    }
                },
            },
        }
    }
}

/// What a donor has sent once it has sent these chunks.
pub open spec fn sent_counts(chunks: Seq<Seq<u8>>) -> DoneCounts
    decreases chunks.len(),
{
    if chunks.len() == 0 {
        DoneCounts { chunks: 0, bytes: 0 }
    } else {
        counted(sent_counts(chunks.drop_last()), chunks.last().len())
    }
}

/// The events of staging these chunks one by one.
pub open spec fn staging_turns(chunks: Seq<Seq<u8>>, adopted: Stamp) -> Seq<Turn>
    decreases chunks.len(),
{
    if chunks.len() == 0 {
        Seq::empty()
    } else {
        staging_turns(chunks.drop_last(), adopted).push(
            (
                EventView::Received { frame: Ok(FrameView::Chunk { data: chunks.last() }) },
                adopted,
            ),
        ).push((EventView::Applied, adopted))
    }
}

/// The events of a transfer as an honest donor serves it.
pub open spec fn honest_turns(
    receipt: ReceiptView,
    chunks: Seq<Seq<u8>>,
    last: Stamp,
    adopted: Stamp,
    adopted_by_then: Stamp,
) -> Seq<Turn> {
    let opened = seq![
        (EventView::Sent, adopted),
        (
            EventView::Received {
                frame: Ok(
                    FrameView::Offer {
                        fence_epoch: receipt.fence.0,
                        host: receipt.fence.1,
                        covers: receipt.covers,
                    },
                ),
            },
            adopted,
        ),
    ];
    (opened + staging_turns(chunks, adopted)).push(
        (
            EventView::Received {
                frame: Ok(
                    FrameView::Done {
                        chunks: sent_counts(chunks).chunks,
                        bytes: sent_counts(chunks).bytes,
                        final_epoch: last.0,
                        final_host: last.1,
                    },
                ),
            },
            adopted_by_then,
        ),
    ).push((EventView::Finished, adopted_by_then))
}

/// An honest transfer completes: a donor that covers the request, is not
/// provably stale at either end and ends with the counts of what it sent is
/// installed, however many chunks there are, and the receipt is its offer.
pub proof fn an_honest_transfer_completes(
    need: Map<Seq<char>, WriteToken>,
    receipt: ReceiptView,
    chunks: Seq<Seq<u8>>,
    last: Stamp,
    adopted: Stamp,
    adopted_by_then: Stamp,
)
    requires
        crate::watermarks::at_least(receipt.covers, need),
        !crate::hosted::handoff::verdicts::superseded(receipt.fence, adopted),
        !crate::hosted::handoff::verdicts::superseded(last, adopted_by_then),
    ensures
        run(
            FetchState::start(need),
            honest_turns(receipt, chunks, last, adopted, adopted_by_then),
        ) == Ok::<FetchState, Failure>(
            FetchState {
                need,
                phase: HandoffPhase::Complete,
                offer: Some(receipt),
                staged: sent_counts(chunks),
            },
        ),
{
    let turns = honest_turns(receipt, chunks, last, adopted, adopted_by_then);
    let opened = turns.subrange(0, 2);
    let staged = opened + staging_turns(chunks, adopted);
    lemma_staging_run(need, receipt, opened, chunks, adopted);
    assert(turns.drop_last().drop_last() =~= staged);
    reveal_with_fuel(run, 3);
}

proof fn lemma_staging_run(
    need: Map<Seq<char>, WriteToken>,
    receipt: ReceiptView,
    opened: Seq<Turn>,
    chunks: Seq<Seq<u8>>,
    adopted: Stamp,
)
    requires
        crate::watermarks::at_least(receipt.covers, need),
        !crate::hosted::handoff::verdicts::superseded(receipt.fence, adopted),
        opened.len() == 2,
        opened[0] == (EventView::Sent, adopted),
        opened[1] == (
            EventView::Received {
                frame: Ok::<FrameView, Failure>(
                    FrameView::Offer {
                        fence_epoch: receipt.fence.0,
                        host: receipt.fence.1,
                        covers: receipt.covers,
                    },
                ),
            },
            adopted,
        ),
    ensures
        run(FetchState::start(need), opened + staging_turns(chunks, adopted)) == Ok::<
            FetchState,
            Failure,
        >(
            FetchState {
                need,
                phase: HandoffPhase::Stage,
                offer: Some(receipt),
                staged: sent_counts(chunks),
            },
        ),
    decreases chunks.len(),
{
    reveal_with_fuel(run, 3);
    let turns = opened + staging_turns(chunks, adopted);
    if chunks.len() == 0 {
        assert(turns =~= opened);
        assert(opened.drop_last().drop_last() =~= Seq::<Turn>::empty());
        assert(opened.drop_last().last() == opened[0]);
    } else {
        lemma_staging_run(need, receipt, opened, chunks.drop_last(), adopted);
        assert(turns.drop_last().drop_last() =~= opened + staging_turns(
            chunks.drop_last(),
            adopted,
        ));
        assert(turns.drop_last().last() == (
            EventView::Received {
                frame: Ok::<FrameView, Failure>(FrameView::Chunk { data: chunks.last() }),
            },
            adopted,
        ));
        assert(turns.last() == (EventView::Applied, adopted));
    }
}

/// A stamp is the epoch, and the host's name when there is one; what arrives is
/// a frame only when all of it reads as one, and a stream that ends or stops
/// in the middle of a frame is truncated.
pub proof fn what_arrives_is_whole_or_truncated(lead: Leadership, payload: Seq<u8>)
    ensures
        stamp_of(lead).0 == lead.epoch,
        stamp_of(lead).1 is Some <==> lead.host is Some,
        lead.host matches Some(host) ==> stamp_of(lead).1 == Some(host@),
        arrival(None) == Err::<FrameView, Failure>(Failure::Truncated),
        match crate::hosted::handoff::wire::parse(payload) {
            Ok(Some(frame)) => arrival(Some(payload)) == Ok::<FrameView, Failure>(frame),
            Ok(None) => arrival(Some(payload)) == Err::<FrameView, Failure>(Failure::Truncated),
            Err(what) => arrival(Some(payload)) == Err::<FrameView, Failure>(
                Failure::Protocol { what },
            ),
        },
{
}

/// Each chunk sent counts once, with every one of its bytes.
pub proof fn every_chunk_counts(chunks: Seq<Seq<u8>>, data: Seq<u8>)
    ensures
        sent_counts(Seq::empty()) == (DoneCounts { chunks: 0, bytes: 0 }),
        sent_counts(chunks).chunks < u64::MAX ==> sent_counts(chunks.push(data)).chunks
            == sent_counts(chunks).chunks + 1,
        sent_counts(chunks).bytes + data.len() <= u64::MAX ==> sent_counts(chunks.push(data)).bytes
            == sent_counts(chunks).bytes + data.len(),
        sent_counts(chunks).bytes + data.len() > u64::MAX ==> sent_counts(chunks.push(data)).bytes
            == u64::MAX,
{
    assert(chunks.push(data).drop_last() =~= chunks);
}

/// A chunk is handed on as it came and counted; a terminator whose count of
/// chunks or of bytes differs from what was staged is a truncation; and one
/// whose counts agree finishes the sink unless its stamp is provably stale.
pub proof fn staging_checks_both_counts(s: FetchState, frame: FrameView, adopted: Stamp)
    requires
        s.phase is Stage,
        s.staged.chunks < u64::MAX,
    ensures
        ({
            let r = s.next((EventView::Received { frame: Ok(frame) }), adopted);
            &&& frame matches FrameView::Chunk { data } ==> (r matches Ok((now, action)) && {
                &&& action == (ActionView::Apply { data })
                &&& now.staged.chunks == s.staged.chunks + 1
                &&& s.staged.bytes + data.len() <= u64::MAX ==> now.staged.bytes == s.staged.bytes
                    + data.len()
                &&& now.phase is Stage
                &&& now.offer == s.offer
                &&& now.need == s.need
            })
            &&& frame matches FrameView::Done { chunks, bytes, final_epoch, final_host } ==> {
                &&& chunks != s.staged.chunks || bytes != s.staged.bytes ==> r == Err::<
                    (FetchState, ActionView),
                    Failure,
                >(Failure::Truncated)
                &&& chunks == s.staged.chunks && bytes == s.staged.bytes && final_epoch < adopted.0
                    ==> r == Err::<(FetchState, ActionView), Failure>(
                    Failure::StaleDonor { donor: (final_epoch, final_host), adopted },
                )
                &&& chunks == s.staged.chunks && bytes == s.staged.bytes && final_epoch > adopted.0
                    ==> (r matches Ok((now, action)) && action is Finish && now.phase is Finish
                    && now.offer == s.offer)
            }
        }),
{
}

/// An offer is taken exactly when it is not provably stale and reaches every
/// watermark asked for; a stale one is refused as stale, and one that falls
/// short with what it has.
pub proof fn an_offer_is_weighed(
    s: FetchState,
    epoch: u64,
    host: Option<Seq<char>>,
    covers: Map<Seq<char>, WriteToken>,
    adopted: Stamp,
)
    requires
        s.phase is OfferVerify,
    ensures
        ({
            let r = s.next(
                (EventView::Received {
                    frame: Ok(FrameView::Offer { fence_epoch: epoch, host, covers }),
                }),
                adopted,
            );
            let stale = epoch < adopted.0 || (epoch == adopted.0 && host is Some && adopted.1 is Some
                && host->0 != adopted.1->0);
            let reaches = forall|w: Seq<char>| #[trigger]
                s.need.contains_key(w) ==> covers.contains_key(w) && (covers[w].epoch
                    > s.need[w].epoch || (covers[w].epoch == s.need[w].epoch && covers[w].seq
                    >= s.need[w].seq));
            &&& stale ==> r == Err::<(FetchState, ActionView), Failure>(
                Failure::StaleDonor { donor: (epoch, host), adopted },
            )
            &&& !stale && !reaches ==> r == Err::<(FetchState, ActionView), Failure>(
                Failure::NotCovered { have: covers },
            )
            &&& !stale && reaches ==> (r matches Ok((now, action)) && action is Read && now.phase
                is Stage && now.offer == Some(ReceiptView { fence: (epoch, host), covers })
                && now.staged == s.staged && now.need == s.need)
        }),
{
    crate::watermarks::at_least_means_every_writer(covers, s.need);
}

/// A member covers a need when it publishes a ledger that reaches every
/// watermark in it.
pub proof fn who_covers(
    group: GroupView,
    path: Seq<char>,
    need: Map<Seq<char>, WriteToken>,
    member: Seq<char>,
)
    ensures
        coverers(group, path, need).contains(member) <==> (crate::hosted::ledger::reading_of(
            group,
            member,
            crate::wire::scoped_key(crate::hosted::ledger::LEDGER_KEY@, path),
        ) matches Some(state) && forall|w: Seq<char>| #[trigger]
            need.contains_key(w) ==> state.applied.contains_key(w) && (state.applied[w].epoch
                > need[w].epoch || (state.applied[w].epoch == need[w].epoch && state.applied[w].seq
                >= need[w].seq))),
{
    if let Some(state) = crate::hosted::ledger::reading_of(
        group,
        member,
        crate::wire::scoped_key(crate::hosted::ledger::LEDGER_KEY@, path),
    ) {
        crate::watermarks::at_least_means_every_writer(state.applied, need);
    }
}

/// A refusal for want of coverage carries what the donor has; any other
/// carries its code.
pub proof fn a_refusal_says_why(code: RefusalCode, have: Map<Seq<char>, WriteToken>)
    ensures
        code == RefusalCode::NotCovered ==> refusal(code, have) == (Failure::NotCovered { have }),
        code != RefusalCode::NotCovered ==> refusal(code, have) == (Failure::Refused { code }),
{
}

/// Donors are asked in rank order, the host first: whoever ranks last is asked
/// last, when worth asking, and changes nothing for those before.
pub proof fn donors_keep_their_rank(
    ranked: Seq<Seq<char>>,
    me: Seq<char>,
    host: Option<Seq<char>>,
    covers: Set<Seq<char>>,
    last: Seq<char>,
)
    requires
        host != Some(last),
    ensures
        donor_order(Seq::empty(), me, host, covers).len() == 0,
        donor_order(ranked.push(last), me, host, covers) == (if last != me && covers.contains(
            last,
        ) {
            donor_order(ranked, me, host, covers).push(last)
        } else {
            donor_order(ranked, me, host, covers)
        }),
{
    reveal(Seq::filter);
    let p = worth_asking(me, covers);
    let longer = ranked.push(last);
    assert(longer.drop_last() =~= ranked);
    if let Some(h) = host {
        let rest = ranked.filter(other_than(h));
        let front: Seq<Seq<char>> = if ranked.contains(h) {
            seq![h]
        } else {
            Seq::empty()
        };
        assert(longer.contains(h) <==> ranked.contains(h)) by {
            if ranked.contains(h) {
                let k = choose|k: int| 0 <= k < ranked.len() && ranked[k] == h;
                assert(longer[k] == h);
            }
        }
        assert(longer.filter(other_than(h)) == rest.push(last));
        let order = host_first(longer, host);
        assert(order =~= (front + rest).push(last));
        assert(order.drop_last() =~= front + rest);
        assert(Seq::<Seq<char>>::empty().filter(other_than(h)) =~= Seq::<Seq<char>>::empty());
        assert(host_first(Seq::empty(), host) =~= Seq::<Seq<char>>::empty());
    } else {
        assert(host_first(longer, host).drop_last() =~= ranked);
    }
}

/// A refusal reads alike at both ends: the requester that receives the frame
/// fails with the very error the donor gave its own caller.
pub proof fn refusals_read_alike(
    s: FetchState,
    adopted: Stamp,
    frame: Bytes,
    error: HandoffError,
    code: RefusalCode,
    have: Watermarks,
)
    requires
        s.phase is OfferVerify,
        refuses(frame, error, code, have.records()),
        crate::hosted::handoff::wire::spellable((Frame::Refuse { code, have })),
    ensures
        s.next(
            EventView::Received { frame: arrival(Some(crate::blob::contents(frame))) },
            adopted,
        ) == Err::<(FetchState, ActionView), Failure>(error@),
{
    crate::hosted::handoff::wire::frames_read_back(Frame::Refuse { code, have });
}

/// The donor list names only ranked members that cover, never this node;
/// leaves none of them out; and has the host at its head whenever the host is
/// on it.
pub proof fn donors_cover_and_the_host_leads(
    ranked: Seq<Seq<char>>,
    me: Seq<char>,
    host: Option<Seq<char>>,
    covers: Set<Seq<char>>,
    member: Seq<char>,
)
    ensures
        donor_order(ranked, me, host, covers).contains(member) <==> ranked.contains(member)
            && member != me && covers.contains(member),
        host matches Some(h) ==> (donor_order(ranked, me, host, covers).contains(h)
            ==> donor_order(ranked, me, host, covers)[0] == h),
{
    let order = host_first(ranked, host);
    let p = worth_asking(me, covers);
    let list = order.filter(p);
    lemma_host_first(ranked, host);
    if list.contains(member) {
        let k = choose|k: int| 0 <= k < list.len() && list[k] == member;
        order.lemma_filter_pred(p, k);
        order.lemma_filter_contains_rev(p, member);
        let j = choose|j: int| 0 <= j < order.len() && order[j] == member;
        assert(ranked.contains(order[j]));
    }
    if ranked.contains(member) && member != me && covers.contains(member) {
        assert(order.contains(member)) by {
            if let Some(h) = host {
                if member != h {
                    let j = choose|j: int| 0 <= j < ranked.len() && ranked[j] == member;
                    ranked.lemma_filter_contains(other_than(h), j);
                    let rest = ranked.filter(other_than(h));
                    let k = choose|k: int| 0 <= k < rest.len() && rest[k] == member;
                    let front: Seq<Seq<char>> = if ranked.contains(h) {
                        seq![h]
                    } else {
                        Seq::empty()
                    };
                    assert(order[front.len() + k] == member);
                } else {
                    assert(order[0] == member);
                }
            }
        }
        let j = choose|j: int| 0 <= j < order.len() && order[j] == member;
        order.lemma_filter_contains(p, j);
    }
    if let Some(h) = host {
        if list.contains(h) {
            let k = choose|k: int| 0 <= k < list.len() && list[k] == h;
            order.lemma_filter_pred(p, k);
            order.lemma_filter_contains_rev(p, h);
            let j = choose|j: int| 0 <= j < order.len() && order[j] == h;
            assert(ranked.contains(order[j]));
            let rest = ranked.filter(other_than(h));
            Seq::filter_distributes_over_add(seq![h], rest, p);
            assert(order =~= seq![h] + rest);
            reveal(Seq::filter);
            assert(seq![h].drop_last() =~= Seq::<Seq<char>>::empty());
            assert(seq![h].filter(p) =~= seq![h]);
        }
    }
}

} // verus!
