//! The model of a channel: what it is as a value, and what each event makes
//! of it.
//!
//! A channel is everything that belongs to one vehicle: its negotiator with
//! the session, its reassembly buffer, the request that is in flight and
//! those that wait behind it. Each event (a command to execute, a fragment
//! that arrived, a tick, a failed write) takes the channel to another value
//! and calls for actions. The functions here say which; the executable
//! channel follows them step by step.
//!
//! The cryptographic policy is asked in the course of an event. What it
//! returns is an argument of the model, the [`Oracle`]: the model says what
//! the channel does for every answer that the policy may give, and which
//! questions it puts to the policy to get them.

use vstd::prelude::*;
use crate::clock::deadline_spec;
use crate::codec::{
    command_spec, envelope_of, payload_spec, Domain, EnvelopeView, MAX_PARAMETERS_LEN,
};
use crate::error::ChannelError;
use crate::framer::{fragments_spec, link_usable, message_fits, Buffer};
use crate::negotiator::{destroys_session, NegotiatorView, Phase, State, VehicleIdentityView};
use crate::session::{all_answered_by, CryptoPolicy, ExpiryPolicy, KeyPairView, Query};
use crate::wire::{be64, be64_value};

verus! {

/// The request that is in flight.
#[derive(Clone, Copy, Debug, PartialEq, Eq, Structural)]
pub struct PendingRequest {
    /// The number that the request was given when it was taken in.
    pub id: u64,
    /// The domain that the response is expected from.
    pub domain: Domain,
    /// The tick after which the request has timed out.
    pub deadline: u64,
    /// The counter of the message that the command went out under. A reply
    /// answers the request by naming this counter.
    pub counter: u64,
}

/// Operation code of a reply. Its parameters begin with the counter of the
/// command that it answers, in eight bytes; the result follows.
pub const OP_RESPONSE: u16 = 3;

/// Bytes of the counter that opens the parameters of a reply.
pub const REPLY_HEADER_LEN: usize = 8;

/// What a verified envelope from the vehicle is.
pub ghost enum InboundView {
    /// A reply to the command that went out under `counter`.
    Reply { counter: u64, result: Seq<u8> },
    /// A reply that is too short to name a counter.
    BrokenReply,
    /// Anything else: an unsolicited update.
    Update,
}

/// What a verified envelope from the vehicle is: a reply where its payload
/// has the operation code of a reply, an update otherwise.
pub open spec fn inbound_spec(e: EnvelopeView) -> InboundView {
    match command_spec(e) {
        None => InboundView::Update,
        Some(c) => if c.operation != OP_RESPONSE {
            InboundView::Update
        } else if c.parameters.len() < REPLY_HEADER_LEN {
            InboundView::BrokenReply
        } else {
            InboundView::Reply {
                counter: be64_value(c.parameters.subrange(0, REPLY_HEADER_LEN as int)),
                result: c.parameters.subrange(
                    REPLY_HEADER_LEN as int,
                    c.parameters.len() as int,
                ),
            }
        },
    }
}

/// The payload of a reply to the command that went out under `counter`.
pub open spec fn response_spec(counter: u64, result: Seq<u8>) -> Seq<u8> {
    payload_spec(OP_RESPONSE, be64(counter) + result)
}

/// The counter of the last message that the authorized session has signed; 0
/// where no session is authorized.
pub open spec fn last_counter_spec(negotiator: NegotiatorView) -> u64 {
    match negotiator.phase {
        Phase::Authorized { session } => session.sent,
        _ => 0,
    }
}

/// How a channel is set up.
#[derive(Clone, Copy, Debug, PartialEq, Eq, Structural)]
pub struct ChannelConfig {
    /// The most bytes that the link takes in one write.
    pub max_write: usize,
    /// Ticks after which an incomplete inbound message is dropped.
    pub stale_after: u64,
    /// Ticks that a handshake may take.
    pub handshake_timeout: u64,
    /// The validity window of a session.
    pub expiry: ExpiryPolicy,
    /// Handshake attempts that are made before a timeout is passed on.
    pub max_attempts: u32,
    /// The number that the first request is given.
    pub first_request: u64,
}

/// The mathematical value of a request that waits for its turn.
pub ghost struct QueuedView {
    pub id: u64,
    pub domain: Domain,
    pub payload: Seq<u8>,
    pub deadline: u64,
}

impl QueuedView {
    /// The request as it is once it is in flight, gone out under `counter`.
    pub open spec fn in_flight(self, counter: u64) -> PendingRequest {
        PendingRequest { id: self.id, domain: self.domain, deadline: self.deadline, counter }
    }

    /// The envelope that carries the request.
    pub open spec fn envelope(self) -> EnvelopeView {
        envelope_of(self.domain, self.payload)
    }
}

/// The mathematical value of an [`Action`].
pub ghost enum ActionView {
    Send { fragments: Seq<Seq<u8>> },
    Resolve { request: u64, outcome: Result<Seq<u8>, ChannelError> },
    Deliver { update: EnvelopeView },
    Report { error: ChannelError },
}

/// The action that resolves a request with an error.
pub open spec fn rejected(request: u64, error: ChannelError) -> ActionView {
    ActionView::Resolve { request, outcome: Err(error) }
}

/// What the policy returns in the course of one event. Each field is the
/// result of the one call that may ask for it; a field that no call asks for
/// has no bearing.
pub ghost struct Oracle {
    /// The ephemeral material for a handshake that begins.
    pub ephemeral: KeyPairView,
    /// The secret agreed with the vehicle's key.
    pub secret: Option<Seq<u8>>,
    /// The key derived for the direction to the vehicle.
    pub send_key: Seq<u8>,
    /// The key derived for the direction from the vehicle.
    pub recv_key: Seq<u8>,
    /// The tag of the controller's confirmation.
    pub confirmation_tag: Seq<u8>,
    /// The tag expected of the message that arrived.
    pub expected: Seq<u8>,
    /// The tag of the command that goes out.
    pub tag: Seq<u8>,
}

/// The requests of a queue whose deadline has not passed, in order.
pub open spec fn kept_spec(queue: Seq<QueuedView>, now: u64) -> Seq<QueuedView>
    decreases queue.len(),
{
    if queue.len() == 0 {
        Seq::empty()
    } else if now > queue.last().deadline {
        kept_spec(queue.drop_last(), now)
    } else {
        kept_spec(queue.drop_last(), now).push(queue.last())
    }
}

/// The timeouts of the requests of a queue whose deadline has passed, in
/// order.
pub open spec fn timeouts_spec(queue: Seq<QueuedView>, now: u64) -> Seq<ActionView>
    decreases queue.len(),
{
    if queue.len() == 0 {
        Seq::empty()
    } else if now > queue.last().deadline {
        timeouts_spec(queue.drop_last(), now).push(rejected(queue.last().id, ChannelError::Timeout))
    } else {
        timeouts_spec(queue.drop_last(), now)
    }
}

/// The mathematical value of a [`Channel`].
pub ghost struct ChannelView {
    pub negotiator: NegotiatorView,
    pub buffer: Buffer,
    /// The request in flight, if there is one.
    pub pending: Option<PendingRequest>,
    /// The requests that wait, first come first.
    pub queue: Seq<QueuedView>,
    /// The number that the next request is given.
    pub next_id: u64,
    /// Handshake attempts made for the request at the head of the queue.
    pub attempts: u32,
    /// Handshake attempts that are made before a timeout is passed on.
    pub max_attempts: u32,
}

/// The channel of a vehicle with nothing under way.
pub open spec fn fresh_channel_spec(
    identity: VehicleIdentityView,
    config: ChannelConfig,
) -> ChannelView {
    ChannelView {
        negotiator: NegotiatorView {
            identity,
            phase: Phase::Idle,
            used_keys: Seq::empty(),
            timeout: config.handshake_timeout,
            expiry: config.expiry,
        },
        buffer: Buffer {
            max_write: config.max_write as int,
            stale_after: config.stale_after,
            chunks: Map::empty(),
            total: None,
            deadline: 0,
        },
        pending: None,
        queue: Seq::empty(),
        next_id: config.first_request,
        attempts: 0,
        max_attempts: config.max_attempts,
    }
}

/// A channel after an event, and the actions that the event calls for.
pub type Outcome = (ChannelView, Seq<ActionView>);

impl ChannelView {
    /// Requests are numbered in the order in which they came: the one in
    /// flight before those that wait, and all below the next number.
    pub open spec fn ordered(self) -> bool {
        &&& forall|i: int, j: int|
            0 <= i < j < self.queue.len() ==> (#[trigger] self.queue[i]).id < (
            #[trigger] self.queue[j]).id
        &&& forall|i: int|
            0 <= i < self.queue.len() ==> (#[trigger] self.queue[i]).id < self.next_id
        &&& match self.pending {
            Some(p) => p.id < self.next_id && forall|i: int|
                0 <= i < self.queue.len() ==> p.id < (#[trigger] self.queue[i]).id,
            None => true,
        }
    }

    /// The invariant of a channel: a request is in flight only on an
    /// authorized session and went out under the last counter that the
    /// session has used, the requests are numbered in order, and the link has
    /// room for a chunk.
    pub open spec fn wf(self) -> bool {
        &&& self.sound()
        &&& self.pending matches Some(p) ==> self.negotiator.phase is Authorized && p.counter
            == last_counter_spec(self.negotiator)
    }

    /// The invariant of a channel but for the state of the session that the
    /// request in flight went out on.
    pub open spec fn sound(self) -> bool {
        &&& self.negotiator.wf()
        &&& link_usable(self.buffer.max_write)
        &&& self.ordered()
    }

    /// The fragments of a message, or `None` where it is too long for the
    /// link.
    pub open spec fn framed(self, message: Seq<u8>) -> Option<Seq<Seq<u8>>> {
        if message_fits(message.len() as int, self.buffer.max_write) {
            Some(fragments_spec(message, self.buffer.max_write))
        } else {
            None
        }
    }

    /// Every request whose deadline has passed times out: the one in flight
    /// first, then those that wait, in order.
    pub open spec fn purge_spec(self, now: u64) -> Outcome {
        let late = self.pending matches Some(p) && now > p.deadline;
        (
            ChannelView {
                pending: if late {
                    None
                } else {
                    self.pending
                },
                queue: kept_spec(self.queue, now),
                ..self
            },
            (if late {
                seq![rejected(self.pending.unwrap().id, ChannelError::Timeout)]
            } else {
                Seq::empty()
            }) + timeouts_spec(self.queue, now),
        )
    }

    /// The handshake is given up: the negotiator goes back to `Idle`, and the
    /// request at the head of the queue, if there is one, fails for `reason`.
    pub open spec fn abandon_spec(self, reason: ChannelError) -> Outcome {
        let base = ChannelView { negotiator: self.negotiator.reset_spec(), attempts: 0, ..self };
        if self.queue.len() == 0 {
            (base, Seq::empty())
        } else {
            (
                ChannelView { queue: self.queue.drop_first(), ..base },
                seq![rejected(self.queue[0].id, reason)],
            )
        }
    }

    /// A handshake begins for the request at the head of the queue. Where the
    /// negotiator refuses, or the key-exchange message is too long for the
    /// link, the handshake is given up.
    pub open spec fn begin_spec(self, now: u64, oracle: Oracle) -> Outcome {
        let begun = self.negotiator.begin_spec(oracle.ephemeral, now);
        let next = ChannelView {
            negotiator: begun.0,
            attempts: if self.attempts < u32::MAX {
                (self.attempts + 1) as u32
            } else {
                self.attempts
            },
            ..self
        };
        match begun.1 {
            Err(e) => next.abandon_spec(e),
            Ok(message) => match self.framed(message) {
                None => next.abandon_spec(ChannelError::MalformedMessage),
                Some(fragments) => (next, seq![ActionView::Send { fragments }]),
            },
        }
    }

    /// The request at the head of the queue goes out on the authorized
    /// session. Where the session has expired, a handshake begins instead and
    /// the request stays where it is. Where the signed message is too long for
    /// the link, the request fails with `MalformedMessage`.
    pub open spec fn transmit_spec(self, now: u64, oracle: Oracle) -> Outcome {
        let head = self.queue[0];
        let signed = self.negotiator.sign_spec(head.envelope(), oracle.tag, now);
        let next = ChannelView { negotiator: signed.0, ..self };
        match signed.1 {
            Err(e) => if signed.0.phase is Idle {
                next.begin_spec(now, oracle)
            } else {
                (ChannelView { queue: self.queue.drop_first(), ..next }, seq![rejected(head.id, e)])
            },
            Ok(message) => match self.framed(message) {
                None => (
                    ChannelView { queue: self.queue.drop_first(), ..next },
                    seq![rejected(head.id, ChannelError::MalformedMessage)],
                ),
                Some(fragments) => (
                    ChannelView {
                        pending: Some(head.in_flight(last_counter_spec(signed.0))),
                        queue: self.queue.drop_first(),
                        attempts: 0,
                        ..next
                    },
                    seq![ActionView::Send { fragments }],
                ),
            },
        }
    }

    /// The next request, if one waits and none is in flight, is moved on: it
    /// goes out where the session is authorized, and has a handshake begun
    /// for it where none is under way.
    pub open spec fn advance_spec(self, now: u64, oracle: Oracle) -> Outcome {
        if self.pending is Some || self.queue.len() == 0 {
            (self, Seq::empty())
        } else {
            match self.negotiator.phase.state() {
                State::Authorized => self.transmit_spec(now, oracle),
                State::Idle => self.begin_spec(now, oracle),
                State::Failed => (ChannelView {
                    negotiator: self.negotiator.reset_spec(),
                    ..self
                }).begin_spec(now, oracle),
                _ => (self, Seq::empty()),
            }
        }
    }

    /// The handshake has failed for `reason`. A timeout is answered with
    /// another attempt while attempts are left and a request waits; any other
    /// failure, and the last timeout, is passed on to the request at the head
    /// of the queue, and the next request is moved on.
    pub open spec fn handshake_failed_spec(
        self,
        reason: ChannelError,
        now: u64,
        oracle: Oracle,
    ) -> Outcome {
        if reason == ChannelError::HandshakeTimeout && self.attempts < self.max_attempts
            && self.queue.len() > 0 {
            (ChannelView { negotiator: self.negotiator.reset_spec(), ..self }).begin_spec(
                now,
                oracle,
            )
        } else {
            let given_up = self.abandon_spec(reason);
            let moved = given_up.0.advance_spec(now, oracle);
            (moved.0, given_up.1 + moved.1)
        }
    }

    /// The fragments of a handshake message go out, or the handshake is given
    /// up where the message is too long for the link.
    pub open spec fn reply_spec(self, message: Seq<u8>) -> Outcome {
        match self.framed(message) {
            None => self.abandon_spec(ChannelError::MalformedMessage),
            Some(fragments) => (self, seq![ActionView::Send { fragments }]),
        }
    }

    /// Whether an envelope answers the request in flight: whether it is a
    /// reply that names the counter under which the request went out, from
    /// the domain that the request went to.
    pub open spec fn answers(self, envelope: EnvelopeView) -> bool {
        inbound_spec(envelope) matches InboundView::Reply { counter, .. }
            && self.pending matches Some(p) && p.counter == counter && p.domain
            == envelope.domain
    }

    /// A verified envelope is handed on. A reply resolves the request in
    /// flight where it answers it, and the next request is moved on; a reply
    /// that answers no request in flight resolves nothing and is reported as
    /// `UnmatchedReply`, one too short to name a counter as
    /// `MalformedMessage`. Anything else is an unsolicited update.
    pub open spec fn correlate_spec(
        self,
        envelope: EnvelopeView,
        now: u64,
        oracle: Oracle,
    ) -> Outcome {
        match inbound_spec(envelope) {
            InboundView::Update => (self, seq![ActionView::Deliver { update: envelope }]),
            InboundView::BrokenReply => (
                self,
                seq![ActionView::Report { error: ChannelError::MalformedMessage }],
            ),
            InboundView::Reply { result, .. } => if self.answers(envelope) {
                let moved = (ChannelView { pending: None, ..self }).advance_spec(now, oracle);
                (
                    moved.0,
                    seq![
                        ActionView::Resolve {
                            request: self.pending.unwrap().id,
                            outcome: Ok(result),
                        },
                    ] + moved.1,
                )
            } else {
                (self, seq![ActionView::Report { error: ChannelError::UnmatchedReply }])
            },
        }
    }

    /// An inbound message was rejected by the authorized session. Where the
    /// error destroys the session, the request in flight fails with it and
    /// the next request is moved on; a malformed message is reported and
    /// discarded.
    pub open spec fn rejected_spec(self, e: ChannelError, now: u64, oracle: Oracle) -> Outcome {
        if destroys_session(e) {
            let moved = (ChannelView { pending: None, ..self }).advance_spec(now, oracle);
            (
                moved.0,
                seq![
                    match self.pending {
                        Some(p) => rejected(p.id, e),
                        None => ActionView::Report { error: e },
                    },
                ] + moved.1,
            )
        } else {
            (self, seq![ActionView::Report { error: e }])
        }
    }

    /// A whole message has arrived. What becomes of it depends on the state
    /// of the handshake: the vehicle's key, the vehicle's confirmation, or a
    /// signed message on the authorized session. In `Idle` and `Failed`
    /// nothing is expected, and the message is reported as `NotAuthorized`.
    pub open spec fn message_spec(self, message: Seq<u8>, now: u64, oracle: Oracle) -> Outcome {
        match self.negotiator.phase.state() {
            State::KeyExchangeSent => {
                let step = self.negotiator.exchange_spec(
                    message,
                    oracle.secret,
                    oracle.send_key,
                    oracle.recv_key,
                    oracle.confirmation_tag,
                    now,
                );
                let next = ChannelView { negotiator: step.0, ..self };
                match step.1 {
                    Ok(confirmation) => next.reply_spec(confirmation),
                    Err(e) => next.handshake_failed_spec(e, now, oracle),
                }
            },
            State::KeyExchangeConfirmed => {
                let step = self.negotiator.confirm_spec(message, oracle.expected, now);
                let next = ChannelView { negotiator: step.0, ..self };
                match step.1 {
                    Ok(_) => next.advance_spec(now, oracle),
                    Err(e) => next.handshake_failed_spec(e, now, oracle),
                }
            },
            State::Authorized => {
                let step = self.negotiator.verify_spec(message, oracle.expected, now);
                let next = ChannelView { negotiator: step.0, ..self };
                match step.1 {
                    Ok(envelope) => next.correlate_spec(envelope, now, oracle),
                    Err(e) => next.rejected_spec(e, now, oracle),
                }
            },
            _ => (self, seq![ActionView::Report { error: ChannelError::NotAuthorized }]),
        }
    }

    /// A fragment has arrived at tick `now`. Requests past their deadline time
    /// out first, so a late response resolves nothing. The fragment goes into
    /// the buffer; a message that it completes is handled as
    /// [`ChannelView::message_spec`] says, and a fragment that the buffer
    /// rejects is reported.
    pub open spec fn arrival_spec(self, fragment: Seq<u8>, now: u64, oracle: Oracle) -> Outcome {
        let purged = self.purge_spec(now);
        let accepted = purged.0.buffer.accept_spec(fragment, now);
        let next = ChannelView { buffer: accepted.0, ..purged.0 };
        match accepted.1 {
            Err(e) => (next, purged.1 + seq![ActionView::Report { error: e }]),
            Ok(None) => (next, purged.1),
            Ok(Some(message)) => {
                let handled = next.message_spec(message, now, oracle);
                (handled.0, purged.1 + handled.1)
            },
        }
    }

    /// Time has passed. Requests past their deadline time out, a stale
    /// reassembly buffer is dropped, a handshake past its deadline fails, and
    /// the next request is moved on.
    pub open spec fn tick_spec(self, now: u64, oracle: Oracle) -> Outcome {
        let purged = self.purge_spec(now);
        let timed_out = purged.0.negotiator.phase.deadline() matches Some(deadline) && now
            > deadline;
        let next = ChannelView {
            buffer: purged.0.buffer.expired(now),
            negotiator: purged.0.negotiator.tick_spec(now),
            ..purged.0
        };
        let moved = if timed_out {
            next.handshake_failed_spec(ChannelError::HandshakeTimeout, now, oracle)
        } else {
            next.advance_spec(now, oracle)
        };
        (moved.0, purged.1 + moved.1)
    }

    /// Whether a command can be taken in.
    pub open spec fn admits(self, parameters: Seq<u8>) -> bool {
        parameters.len() <= MAX_PARAMETERS_LEN && self.next_id < u64::MAX
    }

    /// The request that a command becomes when it is taken in at tick `now`.
    pub open spec fn request_spec(
        self,
        domain: Domain,
        operation: u16,
        parameters: Seq<u8>,
        timeout: u64,
        now: u64,
    ) -> QueuedView {
        QueuedView {
            id: self.next_id,
            domain,
            payload: payload_spec(operation, parameters),
            deadline: deadline_spec(now, timeout),
        }
    }

    /// A command is taken in at tick `now`: requests past their deadline time
    /// out, the command joins the end of the queue under the next number, and
    /// the request at the head of the queue is moved on.
    pub open spec fn execute_spec(
        self,
        domain: Domain,
        operation: u16,
        parameters: Seq<u8>,
        timeout: u64,
        now: u64,
        oracle: Oracle,
    ) -> Outcome
        recommends
            self.admits(parameters),
    {
        let purged = self.purge_spec(now);
        let joined = ChannelView {
            queue: purged.0.queue.push(
                self.request_spec(domain, operation, parameters, timeout, now),
            ),
            next_id: (self.next_id + 1) as u64,
            ..purged.0
        };
        let moved = joined.advance_spec(now, oracle);
        (moved.0, purged.1 + moved.1)
    }

    /// A write to the link has failed. Whatever was under way is abandoned:
    /// the request in flight fails with `LinkError`, a handshake under way is
    /// given up with `LinkError` for the request that it was for, and the
    /// reassembly buffer is dropped. Nothing is sent in answer.
    pub open spec fn link_failed_spec(self) -> Outcome {
        let dropped = ChannelView { buffer: self.buffer.cleared(), pending: None, ..self };
        let first = match self.pending {
            Some(p) => seq![rejected(p.id, ChannelError::LinkError)],
            None => Seq::empty(),
        };
        if self.negotiator.phase.deadline() is Some {
            let given_up = dropped.abandon_spec(ChannelError::LinkError);
            (given_up.0, first + given_up.1)
        } else {
            (dropped, first)
        }
    }
}

impl ChannelView {
    /// What moving the next request on asks of the policy: on an authorized
    /// session the tag of the request at the head of the queue, and fresh
    /// ephemeral key material where a handshake begins.
    pub open spec fn advance_queries(self, now: u64, oracle: Oracle) -> Seq<Query> {
        if self.pending is Some || self.queue.len() == 0 {
            Seq::empty()
        } else {
            match self.negotiator.phase.state() {
                State::Authorized => {
                    let head = self.queue[0];
                    let signed = self.negotiator.sign_spec(head.envelope(), oracle.tag, now);
                    self.negotiator.sign_queries(head.envelope(), oracle.tag, now) + (
                    if signed.1 is Err && signed.0.phase is Idle {
                        signed.0.begin_queries(oracle.ephemeral)
                    } else {
                        Seq::empty()
                    })
                },
                State::Idle => self.negotiator.begin_queries(oracle.ephemeral),
                State::Failed => self.negotiator.reset_spec().begin_queries(oracle.ephemeral),
                _ => Seq::empty(),
            }
        }
    }

    /// What answering a failed handshake asks of the policy: fresh ephemeral
    /// key material for another attempt, or what moving the next request on
    /// asks once the handshake is given up.
    pub open spec fn handshake_failed_queries(
        self,
        reason: ChannelError,
        now: u64,
        oracle: Oracle,
    ) -> Seq<Query> {
        if reason == ChannelError::HandshakeTimeout && self.attempts < self.max_attempts
            && self.queue.len() > 0 {
            self.negotiator.reset_spec().begin_queries(oracle.ephemeral)
        } else {
            self.abandon_spec(reason).0.advance_queries(now, oracle)
        }
    }

    /// What handling a whole inbound message asks of the policy: what the
    /// negotiator asks for the message, and then what the step that follows
    /// asks.
    pub open spec fn message_queries(self, message: Seq<u8>, now: u64, oracle: Oracle) -> Seq<
        Query,
    > {
        match self.negotiator.phase.state() {
            State::KeyExchangeSent => {
                let step = self.negotiator.exchange_spec(
                    message,
                    oracle.secret,
                    oracle.send_key,
                    oracle.recv_key,
                    oracle.confirmation_tag,
                    now,
                );
                let next = ChannelView { negotiator: step.0, ..self };
                self.negotiator.exchange_queries(
                    message,
                    oracle.secret,
                    oracle.send_key,
                    oracle.recv_key,
                    oracle.confirmation_tag,
                ) + (match step.1 {
                    Ok(_) => Seq::empty(),
                    Err(e) => next.handshake_failed_queries(e, now, oracle),
                })
            },
            State::KeyExchangeConfirmed => {
                let step = self.negotiator.confirm_spec(message, oracle.expected, now);
                let next = ChannelView { negotiator: step.0, ..self };
                self.negotiator.confirm_queries(message, oracle.expected, now) + (match step.1 {
                    Ok(_) => next.advance_queries(now, oracle),
                    Err(e) => next.handshake_failed_queries(e, now, oracle),
                })
            },
            State::Authorized => {
                let step = self.negotiator.verify_spec(message, oracle.expected, now);
                let idle = ChannelView { negotiator: step.0, pending: None, ..self };
                self.negotiator.verify_queries(message, oracle.expected, now) + (match step.1 {
                    Ok(envelope) => if self.answers(envelope) {
                        idle.advance_queries(now, oracle)
                    } else {
                        Seq::empty()
                    },
                    Err(e) => if destroys_session(e) {
                        idle.advance_queries(now, oracle)
                    } else {
                        Seq::empty()
                    },
                })
            },
            _ => Seq::empty(),
        }
    }

    /// What the arrival of a fragment asks of the policy: what handling the
    /// message asks that the fragment completes, if it completes one.
    pub open spec fn arrival_queries(self, fragment: Seq<u8>, now: u64, oracle: Oracle) -> Seq<
        Query,
    > {
        let purged = self.purge_spec(now);
        let accepted = purged.0.buffer.accept_spec(fragment, now);
        let next = ChannelView { buffer: accepted.0, ..purged.0 };
        match accepted.1 {
            Ok(Some(message)) => next.message_queries(message, now, oracle),
            _ => Seq::empty(),
        }
    }

    /// What a tick asks of the policy: what answering a failed handshake
    /// asks where the handshake has just timed out, and what moving the next
    /// request on asks otherwise.
    pub open spec fn tick_queries(self, now: u64, oracle: Oracle) -> Seq<Query> {
        let purged = self.purge_spec(now);
        let timed_out = purged.0.negotiator.phase.deadline() matches Some(deadline) && now
            > deadline;
        let next = ChannelView {
            buffer: purged.0.buffer.expired(now),
            negotiator: purged.0.negotiator.tick_spec(now),
            ..purged.0
        };
        if timed_out {
            next.handshake_failed_queries(ChannelError::HandshakeTimeout, now, oracle)
        } else {
            next.advance_queries(now, oracle)
        }
    }

    /// What taking a command in asks of the policy: what moving the next
    /// request on asks, once the command has joined the queue.
    pub open spec fn execute_queries(
        self,
        domain: Domain,
        operation: u16,
        parameters: Seq<u8>,
        timeout: u64,
        now: u64,
        oracle: Oracle,
    ) -> Seq<Query> {
        let purged = self.purge_spec(now);
        (ChannelView {
            queue: purged.0.queue.push(
                self.request_spec(domain, operation, parameters, timeout, now),
            ),
            next_id: (self.next_id + 1) as u64,
            ..purged.0
        }).advance_queries(now, oracle)
    }
}

impl ChannelView {
    /// Whether a channel and a list of actions are what taking a command in
    /// makes of this channel, for answers that the policy may give.
    #[verifier::opaque]
    pub open spec fn execute_by<P: CryptoPolicy>(
        self,
        policy: &P,
        domain: Domain,
        operation: u16,
        parameters: Seq<u8>,
        timeout: u64,
        now: u64,
        outcome: Outcome,
    ) -> bool {
        exists|oracle: Oracle|
            {
                &&& #[trigger] self.execute_spec(
                    domain,
                    operation,
                    parameters,
                    timeout,
                    now,
                    oracle,
                ) == outcome
                &&& all_answered_by(
                    policy,
                    self.execute_queries(domain, operation, parameters, timeout, now, oracle),
                )
            }
    }

    /// Whether a channel and a list of actions are what the arrival of a
    /// fragment makes of this channel, for answers that the policy may give.
    #[verifier::opaque]
    pub open spec fn arrival_by<P: CryptoPolicy>(
        self,
        policy: &P,
        fragment: Seq<u8>,
        now: u64,
        outcome: Outcome,
    ) -> bool {
        exists|oracle: Oracle|
            {
                &&& #[trigger] self.arrival_spec(fragment, now, oracle) == outcome
                &&& all_answered_by(policy, self.arrival_queries(fragment, now, oracle))
            }
    }

    /// Whether a channel and a list of actions are what a tick makes of this
    /// channel, for answers that the policy may give.
    #[verifier::opaque]
    pub open spec fn tick_by<P: CryptoPolicy>(
        self,
        policy: &P,
        now: u64,
        outcome: Outcome,
    ) -> bool {
        exists|oracle: Oracle|
            {
                &&& #[trigger] self.tick_spec(now, oracle) == outcome
                &&& all_answered_by(policy, self.tick_queries(now, oracle))
            }
    }
}

/// The earlier of two deadlines, either of which may be missing.
pub open spec fn earlier_spec(a: Option<u64>, b: Option<u64>) -> Option<u64> {
    match (a, b) {
        (Some(x), Some(y)) => if x <= y {
            a
        } else {
            b
        },
        (Some(_), None) => a,
        _ => b,
    }
}

/// The earlier of two deadlines, either of which may be missing.
#[verifier::when_used_as_spec(earlier_spec)]
pub fn earlier(a: Option<u64>, b: Option<u64>) -> (r: Option<u64>)
    ensures
        r == earlier_spec(a, b),
{
    match (a, b) {
        (Some(x), Some(y)) => if x <= y {
            a
        } else {
            b
        },
        (Some(_), None) => a,
        _ => b,
    }
}

/// The earliest deadline among those of a queue.
pub open spec fn queue_earliest_spec(queue: Seq<QueuedView>) -> Option<u64>
    decreases queue.len(),
{
    if queue.len() == 0 {
        None
    } else {
        earlier_spec(queue_earliest_spec(queue.drop_last()), Some(queue.last().deadline))
    }
}

impl ChannelView {
    /// The earliest deadline of anything that the channel waits for.
    pub open spec fn next_deadline_spec(self) -> Option<u64> {
        earlier_spec(
            earlier_spec(
                match self.pending {
                    Some(p) => Some(p.deadline),
                    None => None,
                },
                self.negotiator.phase.deadline(),
            ),
            earlier_spec(
                if self.buffer.is_empty() {
                    None
                } else {
                    Some(self.buffer.deadline)
                },
                queue_earliest_spec(self.queue),
            ),
        )
    }
}

/// What stays of a queue is numbered as the queue was, and within the same
/// bounds.
proof fn lemma_kept_in_order(queue: Seq<QueuedView>, now: u64, low: int, high: int)
    requires
        forall|i: int, j: int|
            0 <= i < j < queue.len() ==> (#[trigger] queue[i]).id < (#[trigger] queue[j]).id,
        forall|i: int| 0 <= i < queue.len() ==> low < (#[trigger] queue[i]).id < high,
    ensures
        forall|i: int, j: int|
            0 <= i < j < kept_spec(queue, now).len() ==> (#[trigger] kept_spec(queue, now)[i]).id
                < (#[trigger] kept_spec(queue, now)[j]).id,
        forall|i: int|
            0 <= i < kept_spec(queue, now).len() ==> low < (#[trigger] kept_spec(queue, now)[i]).id
                < high,
    decreases queue.len(),
{
    if queue.len() > 0 {
        let rest = queue.drop_last();
        assert forall|i: int| 0 <= i < rest.len() implies low < (#[trigger] rest[i]).id
            < queue.last().id by {
            assert(rest[i] == queue[i]);
        }
        lemma_kept_in_order(rest, now, low, queue.last().id as int);
        lemma_kept_in_order(rest, now, low, high);
    }
}

/// Purging keeps a channel well formed.
pub proof fn lemma_purge_keeps_wf(v: ChannelView, now: u64)
    requires
        v.wf(),
    ensures
        v.purge_spec(now).0.wf(),
{
    let low: int = match v.pending {
        Some(p) => p.id as int,
        None => -1,
    };
    lemma_kept_in_order(v.queue, now, low, v.next_id as int);
    lemma_kept_in_order(v.queue, now, -1, v.next_id as int);
}

/// Moving the next request on depends on nothing that the policy returns but
/// the ephemeral material of a handshake and the tag of a command.
pub proof fn lemma_advance_reads(v: ChannelView, now: u64, a: Oracle, b: Oracle)
    requires
        a.ephemeral == b.ephemeral,
        a.tag == b.tag,
    ensures
        v.advance_spec(now, a) == v.advance_spec(now, b),
        v.advance_queries(now, a) == v.advance_queries(now, b),
{
}

/// Answering a failed handshake depends on nothing that the policy returns
/// but the ephemeral material of a handshake and the tag of a command.
pub proof fn lemma_handshake_failed_reads(
    v: ChannelView,
    reason: ChannelError,
    now: u64,
    a: Oracle,
    b: Oracle,
)
    requires
        a.ephemeral == b.ephemeral,
        a.tag == b.tag,
    ensures
        v.handshake_failed_spec(reason, now, a) == v.handshake_failed_spec(reason, now, b),
        v.handshake_failed_queries(reason, now, a) == v.handshake_failed_queries(reason, now, b),
{
    lemma_advance_reads(v.abandon_spec(reason).0, now, a, b);
}

} // verus!
