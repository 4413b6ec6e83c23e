//! The channel of one vehicle: the command dispatcher's working part.
//!
//! A [`Channel`] neither sends nor waits. Each event is a call that moves the
//! state and returns the [`Action`]s to perform: fragments to write, requests
//! to resolve, updates to deliver. At most one request is in flight; the
//! others are queued and go out in the order in which they came.
//!
//! A reply answers a request by naming the counter of the message that the
//! command went out under. A reply that names any other counter, such as one
//! that comes after its request has timed out, resolves nothing.

use vstd::prelude::*;
use crate::channel_model::{
    earlier, fresh_channel_spec, inbound_spec, kept_spec, lemma_advance_reads,
    lemma_handshake_failed_reads, lemma_purge_keeps_wf, queue_earliest_spec, rejected,
    response_spec, timeouts_spec, ActionView, ChannelConfig, ChannelView, InboundView, Oracle,
    PendingRequest, QueuedView, OP_RESPONSE, REPLY_HEADER_LEN,
};
use crate::clock::deadline_after;
use crate::codec::{decode_payload, encode_payload, Domain, Envelope, MAX_PARAMETERS_LEN};
use crate::error::ChannelError;
use crate::framer::{fragment, link_usable, Reassembler};
use crate::negotiator::{destroys_session, Negotiator, State, VehicleIdentity};
use crate::session::{
    all_answered_by, bytes_result, envelope_result, lemma_answered_in_turn, CryptoPolicy,
    KeyPairView, Query,
};
use crate::wire::{copy_range, get_be64, put_be64, strings_view};

verus! {

/// A request that waits for its turn.
pub struct Queued {
    id: u64,
    domain: Domain,
    payload: Vec<u8>,
    deadline: u64,
}

impl View for Queued {
    type V = QueuedView;

    closed spec fn view(&self) -> QueuedView {
        QueuedView {
            id: self.id,
            domain: self.domain,
            payload: self.payload@,
            deadline: self.deadline,
        }
    }
}

/// What the caller of the dispatcher has to do.
#[derive(Debug, PartialEq, Eq)]
pub enum Action {
    /// Write these fragments to the link, in this order.
    Send { fragments: Vec<Vec<u8>> },
    /// Hand the outcome to whoever waits for the request: the result that the
    /// vehicle's reply carries, or the error.
    Resolve { request: u64, outcome: Result<Vec<u8>, ChannelError> },
    /// Hand an unsolicited status update upstream.
    Deliver { update: Envelope },
    /// Take note of an error that belongs to no request.
    Report { error: ChannelError },
}

impl View for Action {
    type V = ActionView;

    open spec fn view(&self) -> ActionView {
        match *self {
            Action::Send { fragments } => ActionView::Send { fragments: strings_view(fragments@) },
            Action::Resolve { request, outcome } => ActionView::Resolve {
                request,
                outcome: bytes_result(outcome),
            },
            Action::Deliver { update } => ActionView::Deliver { update: update@ },
            Action::Report { error } => ActionView::Report { error },
        }
    }
}

/// A list of actions, as values.
pub open spec fn actions_view(actions: Seq<Action>) -> Seq<ActionView> {
    actions.map_values(|a: Action| a@)
}

/// A list of queued requests, as values.
pub open spec fn queue_view(queue: Seq<Queued>) -> Seq<QueuedView> {
    queue.map_values(|q: Queued| q@)
}

/// What a verified envelope from the vehicle is.
#[derive(Debug, PartialEq, Eq)]
pub enum Inbound {
    /// A reply to the command that went out under `counter`.
    Reply { counter: u64, result: Vec<u8> },
    /// A reply that is too short to name a counter.
    BrokenReply,
    /// Anything else: an unsolicited update.
    Update,
}

impl View for Inbound {
    type V = InboundView;

    open spec fn view(&self) -> InboundView {
        match *self {
            Inbound::Reply { counter, result } => InboundView::Reply { counter, result: result@ },
            Inbound::BrokenReply => InboundView::BrokenReply,
            Inbound::Update => InboundView::Update,
        }
    }
}

/// What a verified envelope from the vehicle is: a reply where its payload
/// has the operation code of a reply, an update otherwise.
pub fn classify(envelope: &Envelope) -> (r: Inbound)
    ensures
        r@ == inbound_spec(envelope@),
{
    match decode_payload(envelope) {
        Err(_) => Inbound::Update,
        Ok(command) => {
            if command.operation != OP_RESPONSE {
                Inbound::Update
            } else if command.parameters.len() < REPLY_HEADER_LEN {
                Inbound::BrokenReply
            } else {
                let parameters = command.parameters.as_slice();
                Inbound::Reply {
                    counter: get_be64(parameters, 0),
                    result: copy_range(parameters, REPLY_HEADER_LEN, parameters.len()),
                }
            }
        },
    }
}

/// The payload of a reply to the command that went out under `counter`.
pub fn encode_response(counter: u64, result: &[u8]) -> (r: Result<Vec<u8>, ChannelError>)
    ensures
        result@.len() + REPLY_HEADER_LEN <= MAX_PARAMETERS_LEN ==> r is Ok && r.unwrap()@
            == response_spec(counter, result@),
        result@.len() + REPLY_HEADER_LEN > MAX_PARAMETERS_LEN ==> r == Err::<
            Vec<u8>,
            ChannelError,
        >(ChannelError::MalformedMessage),
{
    if result.len() > MAX_PARAMETERS_LEN - REPLY_HEADER_LEN {
        return Err(ChannelError::MalformedMessage);
    }
    let mut parameters: Vec<u8> = Vec::new();
    put_be64(&mut parameters, counter);
    parameters.extend_from_slice(result);
    encode_payload(OP_RESPONSE, parameters.as_slice())
}

/// Everything that belongs to one vehicle.
pub struct Channel {
    negotiator: Negotiator,
    reassembler: Reassembler,
    pending: Option<PendingRequest>,
    queue: Vec<Queued>,
    next_id: u64,
    attempts: u32,
    max_attempts: u32,
}

impl View for Channel {
    type V = ChannelView;

    closed spec fn view(&self) -> ChannelView {
        ChannelView {
            negotiator: self.negotiator@,
            buffer: self.reassembler@,
            pending: self.pending,
            queue: queue_view(self.queue@),
            next_id: self.next_id,
            attempts: self.attempts,
            max_attempts: self.max_attempts,
        }
    }
}

impl Channel {
    /// The invariant of a channel.
    pub closed spec fn wf(&self) -> bool {
        self@.wf() && self.reassembler.wf()
    }

    /// The invariant of a channel but for the state of the session that the
    /// request in flight went out on.
    spec fn sound(&self) -> bool {
        self@.sound() && self.reassembler.wf()
    }

    /// What is known of every well-formed channel.
    pub proof fn lemma_wf(&self)
        requires
            self.wf(),
        ensures
            self@.wf(),
    {
    }

    /// A channel for a vehicle, with nothing under way. Fails with `LinkError`
    /// where the link has no room for a chunk.
    pub fn new(identity: VehicleIdentity, config: ChannelConfig) -> (r: Result<
        Channel,
        ChannelError,
    >)
        ensures
            !link_usable(config.max_write as int) ==> (r matches Err(e) && e
                == ChannelError::LinkError),
            link_usable(config.max_write as int) ==> r is Ok && r.unwrap().wf() && r.unwrap()@
                == fresh_channel_spec(identity@, config),
    {
        let reassembler = match Reassembler::new(config.max_write, config.stale_after) {
            Ok(reassembler) => reassembler,
            Err(e) => {
                return Err(e);
            },
        };
        let channel = Channel {
            negotiator: Negotiator::new(identity, config.handshake_timeout, config.expiry),
            reassembler,
            pending: None,
            queue: Vec::new(),
            next_id: config.first_request,
            attempts: 0,
            max_attempts: config.max_attempts,
        };
        assert(channel@.queue =~= Seq::<QueuedView>::empty());
        Ok(channel)
    }

    /// The negotiator of the vehicle, with its session.
    pub fn negotiator(&self) -> (n: &Negotiator)
        ensures
            n@ == self@.negotiator,
    {
        &self.negotiator
    }

    /// The state of the handshake.
    pub fn state(&self) -> (s: State)
        ensures
            s == self@.negotiator.phase.state(),
    {
        self.negotiator.state()
    }

    /// The request in flight, if there is one.
    pub fn pending(&self) -> (p: Option<PendingRequest>)
        ensures
            p == self@.pending,
    {
        self.pending
    }

    /// The number of requests that wait.
    pub fn queued(&self) -> (n: usize)
        ensures
            n == self@.queue.len(),
    {
        self.queue.len()
    }

    /// The fragments of a message, or `None` where it is too long for the
    /// link.
    fn frame(&self, message: &[u8]) -> (r: Option<Vec<Vec<u8>>>)
        requires
            self.wf(),
        ensures
            match r {
                Some(fragments) => self@.framed(message@) == Some(strings_view(fragments@)),
                None => self@.framed(message@) is None,
            },
    {
        match fragment(message, self.reassembler.max_write()) {
            Ok(fragments) => Some(fragments),
            Err(_) => None,
        }
    }

    /// Times out every request whose deadline has passed.
    fn purge(&mut self, now: u64) -> (actions: Vec<Action>)
        requires
            old(self).wf(),
        ensures
            final(self).wf(),
            old(self)@.purge_spec(now) == (final(self)@, actions_view(actions@)),
    {
        let mut actions: Vec<Action> = Vec::new();
        let ghost first: Seq<ActionView> = Seq::empty();
        match self.pending {
            Some(p) => {
                if now > p.deadline {
                    actions.push(
                        Action::Resolve { request: p.id, outcome: Err(ChannelError::Timeout) },
                    );
                    self.pending = None;
                    proof {
                        first = seq![rejected(p.id, ChannelError::Timeout)];
                    }
                }
            },
            None => {},
        }
        assert(actions_view(actions@) =~= first);
        let ghost whole = queue_view(self.queue@);
        let ghost mut done: int = 0;
        let mut i: usize = 0;
        assert(whole.take(0) =~= Seq::<QueuedView>::empty());
        assert(queue_view(self.queue@) =~= kept_spec(whole.take(0), now) + whole.skip(0));
        while i < self.queue.len()
            invariant
                0 <= done <= whole.len(),
                i <= self.queue@.len(),
                queue_view(self.queue@) == kept_spec(whole.take(done), now) + whole.skip(done),
                i == kept_spec(whole.take(done), now).len(),
                actions_view(actions@) == first + timeouts_spec(whole.take(done), now),
                self.negotiator == old(self).negotiator,
                self.reassembler == old(self).reassembler,
                self.next_id == old(self).next_id,
                self.attempts == old(self).attempts,
                self.max_attempts == old(self).max_attempts,
                self.pending == if old(self)@.pending matches Some(p) && now > p.deadline {
                    None
                } else {
                    old(self)@.pending
                },
            decreases whole.len() - done,
        {
            let ghost before = queue_view(self.queue@);
            let ghost reported = actions_view(actions@);
            proof {
                assert(whole.take(done + 1).drop_last() =~= whole.take(done));
                assert(whole.take(done + 1).last() == whole[done]);
                assert(before[i as int] == whole.skip(done)[0]);
                assert(self.queue@[i as int]@ == whole[done]);
            }
            if now > self.queue[i].deadline {
                let late = self.queue.remove(i);
                actions.push(
                    Action::Resolve { request: late.id, outcome: Err(ChannelError::Timeout) },
                );
                proof {
                    assert(queue_view(self.queue@) =~= before.remove(i as int));
                    assert(before.remove(i as int) =~= kept_spec(whole.take(done + 1), now)
                        + whole.skip(done + 1));
                    assert(actions_view(actions@) =~= reported.push(
                        rejected(whole[done].id, ChannelError::Timeout),
                    ));
                }
            } else {
                i = i + 1;
                proof {
                    assert(before =~= kept_spec(whole.take(done + 1), now) + whole.skip(
                        done + 1,
                    ));
                }
            }
            proof {
                done = done + 1;
            }
        }
        proof {
            assert(whole.take(done) =~= whole);
            assert(queue_view(self.queue@) =~= kept_spec(whole, now));
            lemma_purge_keeps_wf(old(self)@, now);
        }
        actions
    }

    /// Gives the handshake up, as [`ChannelView::abandon_spec`] says.
    fn abandon(&mut self, reason: ChannelError) -> (actions: Vec<Action>)
        requires
            old(self).wf(),
            old(self)@.pending is None,
        ensures
            final(self).wf(),
            old(self)@.abandon_spec(reason) == (final(self)@, actions_view(actions@)),
    {
        let mut actions: Vec<Action> = Vec::new();
        self.negotiator.reset();
        self.attempts = 0;
        if self.queue.len() > 0 {
            let ghost before = queue_view(self.queue@);
            let head = self.queue.remove(0);
            actions.push(Action::Resolve { request: head.id, outcome: Err(reason) });
            assert(queue_view(self.queue@) =~= before.drop_first());
            assert(actions_view(actions@) =~= seq![rejected(before[0].id, reason)]);
            assert forall|i: int| 0 <= i < before.drop_first().len() implies (
            #[trigger] before.drop_first()[i]) == before[i + 1] by {}
        } else {
            assert(actions_view(actions@) =~= Seq::<ActionView>::empty());
        }
        actions
    }

    /// Begins a handshake, as [`ChannelView::begin_spec`] says.
    fn begin<P: CryptoPolicy>(&mut self, policy: &mut P, now: u64) -> (r: (
        Vec<Action>,
        Ghost<Oracle>,
    ))
        requires
            old(self).wf(),
            old(self)@.pending is None,
        ensures
            final(self).wf(),
            old(self)@.begin_spec(now, r.1@) == (final(self)@, actions_view(r.0@)),
            all_answered_by(&*old(policy), old(self)@.negotiator.begin_queries(r.1@.ephemeral)),
    {
        let ghost before = self.negotiator@;
        let started = self.negotiator.start(policy, now);
        let ghost ephemeral = choose|ephemeral: KeyPairView|
            {
                &&& #[trigger] before.begin_spec(ephemeral, now) == (
                    self.negotiator@,
                    bytes_result(started),
                )
                &&& all_answered_by(&*old(policy), before.begin_queries(ephemeral))
            };
        let ghost oracle = Oracle { ephemeral, ..arbitrary() };
        if self.attempts < u32::MAX {
            self.attempts = self.attempts + 1;
        }
        let actions = match started {
            Err(e) => self.abandon(e),
            Ok(message) => match self.frame(message.as_slice()) {
                None => self.abandon(ChannelError::MalformedMessage),
                Some(fragments) => {
                    let mut actions: Vec<Action> = Vec::new();
                    actions.push(Action::Send { fragments });
                    assert(actions_view(actions@) =~= seq![
                        ActionView::Send { fragments: strings_view(fragments@) },
                    ]);
                    actions
                },
            },
        };
        (actions, Ghost(oracle))
    }

    /// Sends the request at the head of the queue, as
    /// [`ChannelView::transmit_spec`] says.
    fn transmit<P: CryptoPolicy>(&mut self, policy: &mut P, now: u64) -> (r: (
        Vec<Action>,
        Ghost<Oracle>,
    ))
        requires
            old(self).wf(),
            old(self)@.pending is None,
            old(self)@.queue.len() > 0,
        ensures
            final(self).wf(),
            old(self)@.transmit_spec(now, r.1@) == (final(self)@, actions_view(r.0@)),
            old(self)@.negotiator.phase is Authorized ==> all_answered_by(
                &*old(policy),
                old(self)@.advance_queries(now, r.1@),
            ),
    {
        let ghost before = self.negotiator@;
        let ghost waiting = queue_view(self.queue@);
        let envelope = Envelope {
            domain: self.queue[0].domain,
            payload: copy_range(self.queue[0].payload.as_slice(), 0, self.queue[0].payload.len()),
        };
        assert(envelope.payload@ =~= waiting[0].payload);
        assert(envelope@ == waiting[0].envelope());
        let signed = self.negotiator.sign(&*policy, &envelope, now);
        let ghost tag = choose|tag: Seq<u8>|
            {
                &&& #[trigger] before.sign_spec(envelope@, tag, now) == (
                    self.negotiator@,
                    bytes_result(signed),
                )
                &&& all_answered_by(&*old(policy), before.sign_queries(envelope@, tag, now))
            };
        let ghost oracle = Oracle { tag, ..arbitrary() };
        assert forall|i: int| 0 <= i < waiting.drop_first().len() implies (
        #[trigger] waiting.drop_first()[i]) == waiting[i + 1] by {}
        match signed {
            Err(e) => {
                if self.negotiator.state() == State::Idle {
                    let ghost expired = self.negotiator@;
                    let (actions, Ghost(begun)) = self.begin(policy, now);
                    proof {
                        lemma_answered_in_turn(
                            &*old(policy),
                            before.sign_queries(envelope@, tag, now),
                            expired.begin_queries(begun.ephemeral),
                        );
                    }
                    (actions, Ghost(Oracle { tag, ..begun }))
                } else {
                    assert(before.sign_queries(envelope@, tag, now) + Seq::<Query>::empty()
                        =~= before.sign_queries(envelope@, tag, now));
                    let head = self.queue.remove(0);
                    let mut actions: Vec<Action> = Vec::new();
                    actions.push(Action::Resolve { request: head.id, outcome: Err(e) });
                    assert(queue_view(self.queue@) =~= waiting.drop_first());
                    assert(actions_view(actions@) =~= seq![rejected(waiting[0].id, e)]);
                    (actions, Ghost(oracle))
                }
            },
            Ok(message) => {
                assert(before.sign_queries(envelope@, tag, now) + Seq::<Query>::empty()
                    =~= before.sign_queries(envelope@, tag, now));
                let framed = self.frame(message.as_slice());
                let head = self.queue.remove(0);
                assert(queue_view(self.queue@) =~= waiting.drop_first());
                let mut actions: Vec<Action> = Vec::new();
                match framed {
                    None => {
                        actions.push(
                            Action::Resolve {
                                request: head.id,
                                outcome: Err(ChannelError::MalformedMessage),
                            },
                        );
                        assert(actions_view(actions@) =~= seq![
                            rejected(waiting[0].id, ChannelError::MalformedMessage),
                        ]);
                    },
                    Some(fragments) => {
                        let counter: u64 = match self.negotiator.session() {
                            Some(session) => session.sent(),
                            None => 0,
                        };
                        self.pending =
                        Some(
                            PendingRequest {
                                id: head.id,
                                domain: head.domain,
                                deadline: head.deadline,
                                counter,
                            },
                        );
                        self.attempts = 0;
                        actions.push(Action::Send { fragments });
                        assert(actions_view(actions@) =~= seq![
                            ActionView::Send { fragments: strings_view(fragments@) },
                        ]);
                    },
                }
                (actions, Ghost(oracle))
            },
        }
    }

    /// Moves the next request on, as [`ChannelView::advance_spec`] says.
    fn advance<P: CryptoPolicy>(&mut self, policy: &mut P, now: u64) -> (r: (
        Vec<Action>,
        Ghost<Oracle>,
    ))
        requires
            old(self).wf(),
        ensures
            final(self).wf(),
            old(self)@.advance_spec(now, r.1@) == (final(self)@, actions_view(r.0@)),
            all_answered_by(&*old(policy), old(self)@.advance_queries(now, r.1@)),
    {
        if self.pending.is_some() || self.queue.len() == 0 {
            let actions: Vec<Action> = Vec::new();
            assert(actions_view(actions@) =~= Seq::<ActionView>::empty());
            return (actions, Ghost(arbitrary()));
        }
        match self.negotiator.state() {
            State::Authorized => self.transmit(policy, now),
            State::Idle => self.begin(policy, now),
            State::Failed => {
                self.negotiator.reset();
                self.begin(policy, now)
            },
            _ => {
                let actions: Vec<Action> = Vec::new();
                assert(actions_view(actions@) =~= Seq::<ActionView>::empty());
                (actions, Ghost(arbitrary()))
            },
        }
    }

    /// Answers a failed handshake, as [`ChannelView::handshake_failed_spec`]
    /// says.
    fn handshake_failed<P: CryptoPolicy>(
        &mut self,
        policy: &mut P,
        reason: ChannelError,
        now: u64,
    ) -> (r: (Vec<Action>, Ghost<Oracle>))
        requires
            old(self).wf(),
            old(self)@.pending is None,
        ensures
            final(self).wf(),
            old(self)@.handshake_failed_spec(reason, now, r.1@) == (
                final(self)@,
                actions_view(r.0@),
            ),
            all_answered_by(
                &*old(policy),
                old(self)@.handshake_failed_queries(reason, now, r.1@),
            ),
    {
        let timeout = match reason {
            ChannelError::HandshakeTimeout => true,
            _ => false,
        };
        if timeout && self.attempts < self.max_attempts && self.queue.len() > 0 {
            self.negotiator.reset();
            self.begin(policy, now)
        } else {
            let mut actions = self.abandon(reason);
            let ghost given_up = actions_view(actions@);
            let (mut more, oracle) = self.advance(policy, now);
            let ghost moved = actions_view(more@);
            actions.append(&mut more);
            assert(actions_view(actions@) =~= given_up + moved);
            (actions, oracle)
        }
    }

    /// Sends a handshake message, as [`ChannelView::reply_spec`] says.
    fn reply(&mut self, message: &[u8]) -> (actions: Vec<Action>)
        requires
            old(self).wf(),
            old(self)@.pending is None,
        ensures
            final(self).wf(),
            old(self)@.reply_spec(message@) == (final(self)@, actions_view(actions@)),
    {
        match self.frame(message) {
            None => self.abandon(ChannelError::MalformedMessage),
            Some(fragments) => {
                let mut actions: Vec<Action> = Vec::new();
                actions.push(Action::Send { fragments });
                assert(actions_view(actions@) =~= seq![
                    ActionView::Send { fragments: strings_view(fragments@) },
                ]);
                actions
            },
        }
    }

    /// Hands a verified envelope on, as [`ChannelView::correlate_spec`] says.
    fn correlate<P: CryptoPolicy>(&mut self, policy: &mut P, envelope: Envelope, now: u64) -> (r: (
        Vec<Action>,
        Ghost<Oracle>,
    ))
        requires
            old(self).wf(),
        ensures
            final(self).wf(),
            old(self)@.correlate_spec(envelope@, now, r.1@) == (final(self)@, actions_view(r.0@)),
            old(self)@.answers(envelope@) ==> all_answered_by(
                &*old(policy),
                (ChannelView { pending: None, ..old(self)@ }).advance_queries(now, r.1@),
            ),
    {
        let mut actions: Vec<Action> = Vec::new();
        match classify(&envelope) {
            Inbound::Update => {
                actions.push(Action::Deliver { update: envelope });
                assert(actions_view(actions@) =~= seq![ActionView::Deliver { update: envelope@ }]);
                (actions, Ghost(arbitrary()))
            },
            Inbound::BrokenReply => {
                actions.push(Action::Report { error: ChannelError::MalformedMessage });
                assert(actions_view(actions@) =~= seq![
                    ActionView::Report { error: ChannelError::MalformedMessage },
                ]);
                (actions, Ghost(arbitrary()))
            },
            Inbound::Reply { counter, result } => {
                let answered = match self.pending {
                    Some(p) => p.counter == counter && p.domain == envelope.domain,
                    None => false,
                };
                if answered {
                    let request: u64 = self.pending.unwrap().id;
                    self.pending = None;
                    actions.push(Action::Resolve { request, outcome: Ok(result) });
                    let ghost first = actions_view(actions@);
                    let (mut more, oracle) = self.advance(policy, now);
                    let ghost moved = actions_view(more@);
                    actions.append(&mut more);
                    assert(actions_view(actions@) =~= first + moved);
                    assert(first =~= seq![ActionView::Resolve { request, outcome: Ok(result@) }]);
                    (actions, oracle)
                } else {
                    actions.push(Action::Report { error: ChannelError::UnmatchedReply });
                    assert(actions_view(actions@) =~= seq![
                        ActionView::Report { error: ChannelError::UnmatchedReply },
                    ]);
                    (actions, Ghost(arbitrary()))
                }
            },
        }
    }

    /// Answers a message that the authorized session rejected, as
    /// [`ChannelView::rejected_spec`] says.
    fn rejected<P: CryptoPolicy>(&mut self, policy: &mut P, e: ChannelError, now: u64) -> (r: (
        Vec<Action>,
        Ghost<Oracle>,
    ))
        requires
            old(self).sound(),
            destroys_session(e) || old(self).wf(),
        ensures
            final(self).wf(),
            old(self)@.rejected_spec(e, now, r.1@) == (final(self)@, actions_view(r.0@)),
            destroys_session(e) ==> all_answered_by(
                &*old(policy),
                (ChannelView { pending: None, ..old(self)@ }).advance_queries(now, r.1@),
            ),
    {
        let mut actions: Vec<Action> = Vec::new();
        let destroyed = e.invalidates_session() || e == ChannelError::SessionExpired;
        if destroyed {
            match self.pending {
                Some(p) => {
                    actions.push(Action::Resolve { request: p.id, outcome: Err(e) });
                },
                None => {
                    actions.push(Action::Report { error: e });
                },
            }
            self.pending = None;
            let ghost first = actions_view(actions@);
            let (mut more, oracle) = self.advance(policy, now);
            let ghost moved = actions_view(more@);
            actions.append(&mut more);
            assert(actions_view(actions@) =~= first + moved);
            assert(first =~= seq![
                match old(self)@.pending {
                    Some(p) => rejected(p.id, e),
                    None => ActionView::Report { error: e },
                },
            ]);
            (actions, oracle)
        } else {
            actions.push(Action::Report { error: e });
            assert(actions_view(actions@) =~= seq![ActionView::Report { error: e }]);
            (actions, Ghost(arbitrary()))
        }
    }

    /// Handles a whole inbound message, as [`ChannelView::message_spec`] says.
    fn message<P: CryptoPolicy>(&mut self, policy: &mut P, message: &[u8], now: u64) -> (r: (
        Vec<Action>,
        Ghost<Oracle>,
    ))
        requires
            old(self).wf(),
        ensures
            final(self).wf(),
            old(self)@.message_spec(message@, now, r.1@) == (final(self)@, actions_view(r.0@)),
            all_answered_by(&*old(policy), old(self)@.message_queries(message@, now, r.1@)),
    {
        let ghost before = self.negotiator@;
        match self.negotiator.state() {
            State::KeyExchangeSent => {
                let step = self.negotiator.receive_key(&*policy, message, now);
                let ghost found = choose|
                    secret: Option<Seq<u8>>,
                    send_key: Seq<u8>,
                    recv_key: Seq<u8>,
                    tag: Seq<u8>,
                |
                    {
                        &&& #[trigger] before.exchange_spec(
                            message@,
                            secret,
                            send_key,
                            recv_key,
                            tag,
                            now,
                        ) == (self.negotiator@, bytes_result(step))
                        &&& all_answered_by(
                            &*old(policy),
                            before.exchange_queries(message@, secret, send_key, recv_key, tag),
                        )
                    };
                match step {
                    Ok(confirmation) => {
                        let actions = self.reply(confirmation.as_slice());
                        let ghost oracle = Oracle {
                            secret: found.0,
                            send_key: found.1,
                            recv_key: found.2,
                            confirmation_tag: found.3,
                            ..arbitrary()
                        };
                        proof {
                            let asked = before.exchange_queries(
                                message@,
                                found.0,
                                found.1,
                                found.2,
                                found.3,
                            );
                            assert(asked + Seq::<Query>::empty() =~= asked);
                        }
                        (actions, Ghost(oracle))
                    },
                    Err(e) => {
                        let ghost next = self@;
                        let (actions, Ghost(answered)) = self.handshake_failed(policy, e, now);
                        let ghost oracle = Oracle {
                            secret: found.0,
                            send_key: found.1,
                            recv_key: found.2,
                            confirmation_tag: found.3,
                            ..answered
                        };
                        proof {
                            lemma_handshake_failed_reads(next, e, now, answered, oracle);
                            lemma_answered_in_turn(
                                &*old(policy),
                                before.exchange_queries(
                                    message@,
                                    found.0,
                                    found.1,
                                    found.2,
                                    found.3,
                                ),
                                next.handshake_failed_queries(e, now, oracle),
                            );
                        }
                        (actions, Ghost(oracle))
                    },
                }
            },
            State::KeyExchangeConfirmed => {
                let step = self.negotiator.receive_confirmation(&*policy, message, now);
                let ghost expected = choose|expected: Seq<u8>|
                    {
                        &&& #[trigger] before.confirm_spec(message@, expected, now) == (
                            self.negotiator@,
                            step,
                        )
                        &&& all_answered_by(
                            &*old(policy),
                            before.confirm_queries(message@, expected, now),
                        )
                    };
                let ghost next = self@;
                match step {
                    Ok(_) => {
                        let (actions, Ghost(moved)) = self.advance(policy, now);
                        let ghost oracle = Oracle { expected, ..moved };
                        proof {
                            lemma_advance_reads(next, now, moved, oracle);
                            lemma_answered_in_turn(
                                &*old(policy),
                                before.confirm_queries(message@, expected, now),
                                next.advance_queries(now, oracle),
                            );
                        }
                        (actions, Ghost(oracle))
                    },
                    Err(e) => {
                        let (actions, Ghost(answered)) = self.handshake_failed(policy, e, now);
                        let ghost oracle = Oracle { expected, ..answered };
                        proof {
                            lemma_handshake_failed_reads(next, e, now, answered, oracle);
                            lemma_answered_in_turn(
                                &*old(policy),
                                before.confirm_queries(message@, expected, now),
                                next.handshake_failed_queries(e, now, oracle),
                            );
                        }
                        (actions, Ghost(oracle))
                    },
                }
            },
            State::Authorized => {
                let step = self.negotiator.verify(&*policy, message, now);
                let ghost expected = choose|expected: Seq<u8>|
                    {
                        &&& #[trigger] before.verify_spec(message@, expected, now) == (
                            self.negotiator@,
                            envelope_result(step),
                        )
                        &&& all_answered_by(
                            &*old(policy),
                            before.verify_queries(message@, expected, now),
                        )
                    };
                let ghost next = self@;
                let ghost asked = before.verify_queries(message@, expected, now);
                let ghost idle = ChannelView { pending: None, ..next };
                match step {
                    Ok(envelope) => {
                        let ghost answered = next.answers(envelope@);
                        let (actions, Ghost(moved)) = self.correlate(policy, envelope, now);
                        let ghost oracle = Oracle { expected, ..moved };
                        proof {
                            lemma_advance_reads(idle, now, moved, oracle);
                            if answered {
                                lemma_answered_in_turn(
                                    &*old(policy),
                                    asked,
                                    idle.advance_queries(now, oracle),
                                );
                            } else {
                                assert(asked + Seq::<Query>::empty() =~= asked);
                            }
                        }
                        (actions, Ghost(oracle))
                    },
                    Err(e) => {
                        let (actions, Ghost(moved)) = self.rejected(policy, e, now);
                        let ghost oracle = Oracle { expected, ..moved };
                        proof {
                            lemma_advance_reads(idle, now, moved, oracle);
                            if destroys_session(e) {
                                lemma_answered_in_turn(
                                    &*old(policy),
                                    asked,
                                    idle.advance_queries(now, oracle),
                                );
                            } else {
                                assert(asked + Seq::<Query>::empty() =~= asked);
                            }
                        }
                        (actions, Ghost(oracle))
                    },
                }
            },
            _ => {
                let mut actions: Vec<Action> = Vec::new();
                actions.push(Action::Report { error: ChannelError::NotAuthorized });
                assert(actions_view(actions@) =~= seq![
                    ActionView::Report { error: ChannelError::NotAuthorized },
                ]);
                (actions, Ghost(arbitrary()))
            },
        }
    }

    /// Takes a command in at tick `now`, as [`ChannelView::execute_spec`]
    /// says, and returns the number that the request was given and the
    /// actions to perform. The caller learns the outcome from the `Resolve`
    /// action with that number.
    ///
    /// A parameter block too long for a message is refused with
    /// `MalformedMessage`, and a command for which no number is left with
    /// `Exhausted`; a refusal changes nothing.
    pub fn execute<P: CryptoPolicy>(
        &mut self,
        policy: &mut P,
        domain: Domain,
        operation: u16,
        parameters: &[u8],
        timeout: u64,
        now: u64,
    ) -> (r: Result<(u64, Vec<Action>), ChannelError>)
        requires
            old(self).wf(),
        ensures
            final(self).wf(),
            final(self)@.negotiator.identity == old(self)@.negotiator.identity,
            parameters@.len() > MAX_PARAMETERS_LEN ==> r == Err::<(u64, Vec<Action>), ChannelError>(
                ChannelError::MalformedMessage,
            ) && final(self)@ == old(self)@,
            parameters@.len() <= MAX_PARAMETERS_LEN && old(self)@.next_id == u64::MAX ==> r
                == Err::<(u64, Vec<Action>), ChannelError>(ChannelError::Exhausted) && final(self)@
                == old(self)@,
            old(self)@.admits(parameters@) ==> r is Ok && r.unwrap().0 == old(self)@.next_id
                && old(self)@.execute_by(
                &*old(policy),
                domain,
                operation,
                parameters@,
                timeout,
                now,
                (final(self)@, actions_view(r.unwrap().1@)),
            ),
    {
        let payload = match encode_payload(operation, parameters) {
            Ok(payload) => payload,
            Err(e) => {
                return Err(e);
            },
        };
        if self.next_id == u64::MAX {
            return Err(ChannelError::Exhausted);
        }
        let id: u64 = self.next_id;
        let mut actions = self.purge(now);
        let ghost purged = self@;
        let ghost timeouts = actions_view(actions@);
        let request = Queued { id, domain, payload, deadline: deadline_after(now, timeout) };
        self.queue.push(request);
        self.next_id = id + 1;
        proof {
            assert(self@.queue =~= purged.queue.push(
                old(self)@.request_spec(domain, operation, parameters@, timeout, now),
            ));
            lemma_purge_keeps_wf(old(self)@, now);
        }
        let (mut more, Ghost(oracle)) = self.advance(policy, now);
        let ghost moved = actions_view(more@);
        actions.append(&mut more);
        proof {
            assert(actions_view(actions@) =~= timeouts + moved);
            assert(old(self)@.execute_spec(domain, operation, parameters@, timeout, now, oracle)
                == (self@, actions_view(actions@)));
            assert(all_answered_by(
                &*old(policy),
                old(self)@.execute_queries(domain, operation, parameters@, timeout, now, oracle),
            ));
            reveal(ChannelView::execute_by);
        }
        Ok((id, actions))
    }

    /// Takes a fragment that arrived at tick `now`, as
    /// [`ChannelView::arrival_spec`] says, and returns the actions to perform.
    pub fn on_fragment<P: CryptoPolicy>(
        &mut self,
        policy: &mut P,
        fragment: &[u8],
        now: u64,
    ) -> (actions: Vec<Action>)
        requires
            old(self).wf(),
        ensures
            final(self).wf(),
            final(self)@.negotiator.identity == old(self)@.negotiator.identity,
            old(self)@.arrival_by(
                &*old(policy),
                fragment@,
                now,
                (final(self)@, actions_view(actions@)),
            ),
    {
        let mut actions = self.purge(now);
        let ghost purged = self@;
        let ghost timeouts = actions_view(actions@);
        proof {
            lemma_purge_keeps_wf(old(self)@, now);
        }
        let accepted = self.reassembler.accept(fragment, now);
        match accepted {
            Err(e) => {
                actions.push(Action::Report { error: e });
                proof {
                    assert(actions_view(actions@) =~= timeouts + seq![
                        ActionView::Report { error: e },
                    ]);
                    let oracle: Oracle = arbitrary();
                    assert(old(self)@.arrival_spec(fragment@, now, oracle) == (
                        self@,
                        actions_view(actions@),
                    ));
                    reveal(ChannelView::arrival_by);
                }
                actions
            },
            Ok(None) => {
                proof {
                    let oracle: Oracle = arbitrary();
                    assert(old(self)@.arrival_spec(fragment@, now, oracle) == (
                        self@,
                        actions_view(actions@),
                    ));
                    reveal(ChannelView::arrival_by);
                }
                actions
            },
            Ok(Some(message)) => {
                let (mut more, Ghost(oracle)) = self.message(policy, message.as_slice(), now);
                let ghost handled = actions_view(more@);
                actions.append(&mut more);
                proof {
                    assert(actions_view(actions@) =~= timeouts + handled);
                    assert(old(self)@.arrival_spec(fragment@, now, oracle) == (
                        self@,
                        actions_view(actions@),
                    ));
                    assert(all_answered_by(
                        &*old(policy),
                        old(self)@.arrival_queries(fragment@, now, oracle),
                    ));
                    reveal(ChannelView::arrival_by);
                }
                actions
            },
        }
    }

    /// Lets time pass up to tick `now`, as [`ChannelView::tick_spec`] says,
    /// and returns the actions to perform.
    pub fn on_tick<P: CryptoPolicy>(&mut self, policy: &mut P, now: u64) -> (actions: Vec<Action>)
        requires
            old(self).wf(),
        ensures
            final(self).wf(),
            final(self)@.negotiator.identity == old(self)@.negotiator.identity,
            old(self)@.tick_by(&*old(policy), now, (final(self)@, actions_view(actions@))),
    {
        let mut actions = self.purge(now);
        let ghost timeouts = actions_view(actions@);
        proof {
            lemma_purge_keeps_wf(old(self)@, now);
        }
        self.reassembler.expire(now);
        let timed_out = self.negotiator.tick(now);
        let (mut more, Ghost(oracle)) = if timed_out {
            self.handshake_failed(policy, ChannelError::HandshakeTimeout, now)
        } else {
            self.advance(policy, now)
        };
        let ghost moved = actions_view(more@);
        actions.append(&mut more);
        proof {
            assert(actions_view(actions@) =~= timeouts + moved);
            assert(old(self)@.tick_spec(now, oracle) == (self@, actions_view(actions@)));
            assert(all_answered_by(&*old(policy), old(self)@.tick_queries(now, oracle)));
            reveal(ChannelView::tick_by);
        }
        actions
    }

    /// The earliest deadline among those of the requests that wait.
    fn queue_deadline(&self) -> (r: Option<u64>)
        ensures
            r == queue_earliest_spec(self@.queue),
    {
        let mut best: Option<u64> = None;
        let mut i: usize = 0;
        assert(self@.queue.take(0) =~= Seq::<QueuedView>::empty());
        while i < self.queue.len()
            invariant
                i <= self.queue@.len(),
                best == queue_earliest_spec(self@.queue.take(i as int)),
            decreases self.queue@.len() - i,
        {
            proof {
                assert(self@.queue.take(i + 1).drop_last() =~= self@.queue.take(i as int));
                assert(self@.queue.take(i + 1).last() == self.queue@[i as int]@);
            }
            best = earlier(best, Some(self.queue[i].deadline));
            i = i + 1;
        }
        assert(self@.queue.take(i as int) =~= self@.queue);
        best
    }

    /// The earliest tick after which something of this channel times out: a
    /// request, the handshake or the reassembly buffer. Where there is none,
    /// the channel waits for nothing. A tick is due once this one has passed.
    pub fn next_deadline(&self) -> (r: Option<u64>)
        requires
            self.wf(),
        ensures
            r == self@.next_deadline_spec(),
    {
        let request: Option<u64> = match self.pending {
            Some(p) => Some(p.deadline),
            None => None,
        };
        earlier(
            earlier(request, self.negotiator.deadline()),
            earlier(self.reassembler.deadline(), self.queue_deadline()),
        )
    }

    /// Takes note that a write to the link has failed, as
    /// [`ChannelView::link_failed_spec`] says, and returns the actions to
    /// perform.
    pub fn on_link_error(&mut self) -> (actions: Vec<Action>)
        requires
            old(self).wf(),
        ensures
            final(self).wf(),
            old(self)@.link_failed_spec() == (final(self)@, actions_view(actions@)),
    {
        let mut actions: Vec<Action> = Vec::new();
        match self.pending {
            Some(p) => {
                actions.push(
                    Action::Resolve { request: p.id, outcome: Err(ChannelError::LinkError) },
                );
            },
            None => {},
        }
        let ghost first = actions_view(actions@);
        assert(first =~= match old(self)@.pending {
            Some(p) => seq![rejected(p.id, ChannelError::LinkError)],
            None => Seq::empty(),
        });
        self.pending = None;
        self.reassembler.clear();
        if self.negotiator.deadline().is_some() {
            let mut more = self.abandon(ChannelError::LinkError);
            let ghost given_up = actions_view(more@);
            actions.append(&mut more);
            assert(actions_view(actions@) =~= first + given_up);
        }
        actions
    }
}

} // verus!
