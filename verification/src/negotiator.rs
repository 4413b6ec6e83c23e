//! The session negotiator: the handshake as a state machine.
//!
//! ```text
//! Idle -> KeyExchangeSent -> KeyExchangeConfirmed -> Authorized
//!   ^            |                    |
//!   |            v                    v
//!   +--------- Failed <---------------+
//! ```
//!
//! The negotiator neither sends nor waits. Each step takes what arrived and
//! the present tick, moves the state, and returns the bytes to send, if any.
//! Handshake messages are commands to the access-control domain with an
//! operation code of their own: the key exchange carries an ephemeral public
//! key as its parameters, the confirmation carries none and is signed.

use vstd::prelude::*;
use crate::clock::{deadline_after, deadline_spec};
use crate::codec::{
    command_of, decode_command, decode_command_spec, encode, encode_spec, envelope_of,
    payload_spec, Domain, Envelope, EnvelopeView, MAX_PARAMETERS_LEN,
};
use crate::error::ChannelError;
use crate::session::{
    all_answered_by, bytes_equal, bytes_result, envelope_result, optional_bytes,
    signing_input_spec, CryptoPolicy, Direction, ExpiryPolicy, KeyPair, KeyPairView, Query,
    Session, SessionView,
};
use crate::wire::{copy_range, put_be16, put_be64, strings_view};

verus! {

/// Operation code of the key exchange, in both directions.
pub const OP_KEY_EXCHANGE: u16 = 1;

/// Operation code of the confirmation, in both directions.
pub const OP_CONFIRM: u16 = 2;

/// Who the vehicle is: its stable identifier and, where it is known, its
/// long-term public key.
#[derive(Debug, PartialEq, Eq)]
pub struct VehicleIdentity {
    pub id: Vec<u8>,
    pub long_term_key: Option<Vec<u8>>,
}

/// The mathematical value of a [`VehicleIdentity`].
pub ghost struct VehicleIdentityView {
    pub id: Seq<u8>,
    pub long_term_key: Option<Seq<u8>>,
}

impl View for VehicleIdentity {
    type V = VehicleIdentityView;

    open spec fn view(&self) -> VehicleIdentityView {
        VehicleIdentityView {
            id: self.id@,
            long_term_key: match self.long_term_key {
                Some(key) => Some(key@),
                None => None,
            },
        }
    }
}

/// The states of the handshake.
#[derive(Clone, Copy, Debug, PartialEq, Eq, Structural)]
pub enum State {
    /// No handshake is under way.
    Idle,
    /// The ephemeral key was sent; the vehicle's key is awaited.
    KeyExchangeSent,
    /// Keys are derived and the confirmation was sent; the vehicle's
    /// confirmation is awaited.
    KeyExchangeConfirmed,
    /// The session is established. Only now may commands be sent.
    Authorized,
    /// The handshake failed and has to be reset before it is tried again.
    Failed,
}

/// A state of the handshake with what belongs to it.
enum Handshake {
    Idle,
    KeyExchangeSent { ephemeral: KeyPair, deadline: u64 },
    KeyExchangeConfirmed { session: Session, deadline: u64 },
    Authorized { session: Session },
    Failed { reason: ChannelError },
}

/// The mathematical value of a state of the handshake.
pub ghost enum Phase {
    Idle,
    KeyExchangeSent { ephemeral: KeyPairView, deadline: u64 },
    KeyExchangeConfirmed { session: SessionView, deadline: u64 },
    Authorized { session: SessionView },
    Failed { reason: ChannelError },
}

impl Phase {
    /// The state without what belongs to it.
    pub open spec fn state(self) -> State {
        match self {
            Phase::Idle => State::Idle,
            Phase::KeyExchangeSent { .. } => State::KeyExchangeSent,
            Phase::KeyExchangeConfirmed { .. } => State::KeyExchangeConfirmed,
            Phase::Authorized { .. } => State::Authorized,
            Phase::Failed { .. } => State::Failed,
        }
    }

    /// The deadline of the handshake, while one is under way.
    pub open spec fn deadline(self) -> Option<u64> {
        match self {
            Phase::KeyExchangeSent { deadline, .. } => Some(deadline),
            Phase::KeyExchangeConfirmed { deadline, .. } => Some(deadline),
            _ => None,
        }
    }

    /// The ephemeral public key of the attempt that the state belongs to.
    pub open spec fn ephemeral_public(self) -> Option<Seq<u8>> {
        match self {
            Phase::KeyExchangeSent { ephemeral, .. } => Some(ephemeral.public),
            Phase::KeyExchangeConfirmed { session, .. } => Some(session.ephemeral.public),
            Phase::Authorized { session } => Some(session.ephemeral.public),
            _ => None,
        }
    }

    /// The session, once keys are derived.
    pub open spec fn session(self) -> Option<SessionView> {
        match self {
            Phase::KeyExchangeConfirmed { session, .. } => Some(session),
            Phase::Authorized { session } => Some(session),
            _ => None,
        }
    }
}

/// The mathematical value of a [`Negotiator`].
pub ghost struct NegotiatorView {
    pub identity: VehicleIdentityView,
    pub phase: Phase,
    /// The ephemeral public keys of all attempts so far, oldest first.
    pub used_keys: Seq<Seq<u8>>,
    /// Ticks that a handshake may take.
    pub timeout: u64,
    /// The validity window of the sessions that are negotiated.
    pub expiry: ExpiryPolicy,
}

/// The key-exchange message that carries `public`.
pub open spec fn key_exchange_spec(public: Seq<u8>) -> Seq<u8> {
    encode_spec(command_of(Domain::AccessControl, OP_KEY_EXCHANGE, public))
}

/// The envelope of a confirmation.
pub open spec fn confirmation_spec() -> EnvelopeView {
    envelope_of(Domain::AccessControl, payload_spec(OP_CONFIRM, Seq::empty()))
}

/// What the controller's confirmation is tagged over: it is the first message
/// of its session.
pub open spec fn confirmation_input_spec() -> Seq<u8> {
    signing_input_spec(confirmation_spec(), 1)
}

/// The public key in a key-exchange message, or `None` where the bytes are
/// none.
pub open spec fn peer_key_spec(response: Seq<u8>) -> Option<Seq<u8>> {
    match decode_command_spec(response) {
        None => None,
        Some(c) => if c.domain == Domain::AccessControl && c.operation == OP_KEY_EXCHANGE {
            Some(c.parameters)
        } else {
            None
        },
    }
}

/// The session that a handshake begun with `ephemeral` derives at tick `now`
/// from the secret agreed with the vehicle.
pub open spec fn derived_session_spec(
    ephemeral: KeyPairView,
    shared_secret: Seq<u8>,
    send_key: Seq<u8>,
    recv_key: Seq<u8>,
    now: u64,
    expiry: ExpiryPolicy,
) -> SessionView {
    SessionView {
        ephemeral,
        shared_secret,
        send_key,
        recv_key,
        sent: 0,
        accepted: 0,
        created_at: now,
        last_used: now,
        expiry,
    }
}

/// Whether an error on an authorized session destroys it.
pub open spec fn destroys_session(e: ChannelError) -> bool {
    e.invalidates_session_spec() || e == ChannelError::SessionExpired
}

impl NegotiatorView {
    /// No ephemeral key was used twice, and the key of the present attempt is
    /// the last one used; a derived session has its keys separated.
    pub open spec fn wf(self) -> bool {
        &&& self.used_keys.no_duplicates()
        &&& match self.phase.ephemeral_public() {
            Some(key) => self.used_keys.len() > 0 && self.used_keys.last() == key,
            None => true,
        }
        &&& match self.phase.session() {
            Some(session) => session.wf(),
            None => true,
        }
    }

    /// The negotiator in another phase.
    pub open spec fn moved(self, phase: Phase) -> NegotiatorView {
        NegotiatorView { phase, ..self }
    }

    /// The handshake fails for `reason`.
    pub open spec fn failed<T>(self, reason: ChannelError) -> (
        NegotiatorView,
        Result<T, ChannelError>,
    ) {
        (self.moved(Phase::Failed { reason }), Err(reason))
    }

    /// Begins an attempt with fresh ephemeral material: the negotiator
    /// afterwards, and the key-exchange message to send.
    ///
    /// Outside `Idle` the step is refused with `UnexpectedState`. A public key
    /// that an earlier attempt used is refused with `KeyReused`, one too long
    /// for a message with `MalformedMessage`. A refusal changes nothing.
    pub open spec fn begin_spec(self, ephemeral: KeyPairView, now: u64) -> (
        NegotiatorView,
        Result<Seq<u8>, ChannelError>,
    ) {
        if !(self.phase is Idle) {
            (self, Err(ChannelError::UnexpectedState))
        } else if self.used_keys.contains(ephemeral.public) {
            (self, Err(ChannelError::KeyReused))
        } else if ephemeral.public.len() > MAX_PARAMETERS_LEN {
            (self, Err(ChannelError::MalformedMessage))
        } else {
            (
                NegotiatorView {
                    phase: Phase::KeyExchangeSent {
                        ephemeral,
                        deadline: deadline_spec(now, self.timeout),
                    },
                    used_keys: self.used_keys.push(ephemeral.public),
                    ..self
                },
                Ok(key_exchange_spec(ephemeral.public)),
            )
        }
    }

    /// The vehicle's key arrives: the negotiator afterwards, and the signed
    /// confirmation to send.
    ///
    /// `secret` is what the policy's key agreement gives for the vehicle's
    /// key, `send_key` and `recv_key` what it derives from the secret for the
    /// two directions, `tag` what it computes under the send key over
    /// [`confirmation_input_spec`].
    ///
    /// Outside `KeyExchangeSent` the step is refused with `UnexpectedState`
    /// and changes nothing. After the deadline the handshake fails with
    /// `HandshakeTimeout`; on bytes that are no key-exchange message with
    /// `MalformedMessage`; where no secret is agreed, or both directions get
    /// the same key, with `AuthenticationFailed`.
    pub open spec fn exchange_spec(
        self,
        response: Seq<u8>,
        secret: Option<Seq<u8>>,
        send_key: Seq<u8>,
        recv_key: Seq<u8>,
        tag: Seq<u8>,
        now: u64,
    ) -> (NegotiatorView, Result<Seq<u8>, ChannelError>) {
        match self.phase {
            Phase::KeyExchangeSent { ephemeral, deadline } => {
                if now > deadline {
                    self.failed(ChannelError::HandshakeTimeout)
                } else if peer_key_spec(response) is None {
                    self.failed(ChannelError::MalformedMessage)
                } else if secret is None || send_key == recv_key {
                    self.failed(ChannelError::AuthenticationFailed)
                } else {
                    let fresh = derived_session_spec(
                        ephemeral,
                        secret.unwrap(),
                        send_key,
                        recv_key,
                        now,
                        self.expiry,
                    );
                    let signed = fresh.sign_spec(confirmation_spec(), tag, now);
                    (
                        self.moved(Phase::KeyExchangeConfirmed { session: signed.0, deadline }),
                        signed.1,
                    )
                }
            },
            _ => (self, Err(ChannelError::UnexpectedState)),
        }
    }

    /// The vehicle's confirmation arrives: the negotiator afterwards, and
    /// whether the session is authorized.
    ///
    /// `expected` is the tag that the policy computes for the message under
    /// the receive key.
    ///
    /// Outside `KeyExchangeConfirmed` the step is refused with
    /// `UnexpectedState` and changes nothing. After the deadline the handshake
    /// fails with `HandshakeTimeout`; where the session rejects the message,
    /// with the session's error; where the message is authentic but no
    /// confirmation, with `MalformedMessage`.
    pub open spec fn confirm_spec(self, signed: Seq<u8>, expected: Seq<u8>, now: u64) -> (
        NegotiatorView,
        Result<(), ChannelError>,
    ) {
        match self.phase {
            Phase::KeyExchangeConfirmed { session, deadline } => {
                if now > deadline {
                    self.failed(ChannelError::HandshakeTimeout)
                } else {
                    let verdict = session.verify_spec(signed, expected, now);
                    match verdict.1 {
                        Err(e) => self.failed(e),
                        Ok(envelope) => if envelope != confirmation_spec() {
                            self.failed(ChannelError::MalformedMessage)
                        } else {
                            (self.moved(Phase::Authorized { session: verdict.0 }), Ok(()))
                        },
                    }
                }
            },
            _ => (self, Err(ChannelError::UnexpectedState)),
        }
    }

    /// What beginning an attempt asks of the policy: fresh ephemeral key
    /// material, in `Idle`.
    pub open spec fn begin_queries(self, ephemeral: KeyPairView) -> Seq<Query> {
        if self.phase is Idle {
            seq![Query::Generate { pair: ephemeral }]
        } else {
            Seq::empty()
        }
    }

    /// What the arrival of the vehicle's key asks of the policy. While a key is
    /// awaited and the bytes are a key-exchange message: the secret agreed
    /// between the ephemeral private key and the vehicle's key and, where
    /// there is one, the key of each direction and the tag of the
    /// confirmation under the send key.
    pub open spec fn exchange_queries(
        self,
        response: Seq<u8>,
        secret: Option<Seq<u8>>,
        send_key: Seq<u8>,
        recv_key: Seq<u8>,
        tag: Seq<u8>,
    ) -> Seq<Query> {
        match (self.phase, peer_key_spec(response)) {
            (Phase::KeyExchangeSent { ephemeral, .. }, Some(peer_public)) => seq![
                Query::Agree { local_private: ephemeral.private, peer_public, agreed: secret },
            ] + (match secret {
                Some(agreed) => seq![
                    Query::Derive {
                        secret: agreed,
                        direction: Direction::ToVehicle,
                        key: send_key,
                    },
                    Query::Derive {
                        secret: agreed,
                        direction: Direction::FromVehicle,
                        key: recv_key,
                    },
                    Query::Tag { key: send_key, message: confirmation_input_spec(), tag },
                ],
                None => Seq::empty(),
            }),
            _ => Seq::empty(),
        }
    }

    /// What the arrival of the vehicle's confirmation asks of the policy:
    /// what verifying asks, while a confirmation is awaited and the deadline
    /// has not passed.
    pub open spec fn confirm_queries(self, signed: Seq<u8>, expected: Seq<u8>, now: u64) -> Seq<
        Query,
    > {
        match self.phase {
            Phase::KeyExchangeConfirmed { session, deadline } => if now > deadline {
                Seq::empty()
            } else {
                session.verify_queries(signed, expected, now)
            },
            _ => Seq::empty(),
        }
    }

    /// What signing asks of the policy: what the authorized session asks.
    pub open spec fn sign_queries(self, e: EnvelopeView, tag: Seq<u8>, now: u64) -> Seq<Query> {
        match self.phase {
            Phase::Authorized { session } => session.sign_queries(e, tag, now),
            _ => Seq::empty(),
        }
    }

    /// What verifying asks of the policy: what the authorized session asks.
    pub open spec fn verify_queries(self, signed: Seq<u8>, expected: Seq<u8>, now: u64) -> Seq<
        Query,
    > {
        match self.phase {
            Phase::Authorized { session } => session.verify_queries(signed, expected, now),
            _ => Seq::empty(),
        }
    }

    /// Time passes: a handshake past its deadline fails with
    /// `HandshakeTimeout`. Nothing else changes.
    pub open spec fn tick_spec(self, now: u64) -> NegotiatorView {
        match self.phase.deadline() {
            Some(deadline) => if now > deadline {
                self.moved(Phase::Failed { reason: ChannelError::HandshakeTimeout })
            } else {
                self
            },
            None => self,
        }
    }

    /// Back to `Idle`, from any state. A session, if there is one, is gone;
    /// the keys that were used stay on record.
    pub open spec fn reset_spec(self) -> NegotiatorView {
        self.moved(Phase::Idle)
    }

    /// The phase after the authorized session was used: `Idle` where the
    /// outcome destroys the session, `Authorized` with the session as it is
    /// now otherwise.
    pub open spec fn used<T>(self, session: SessionView, outcome: Result<T, ChannelError>) -> (
        NegotiatorView,
        Result<T, ChannelError>,
    ) {
        match outcome {
            Err(e) => if destroys_session(e) {
                (self.moved(Phase::Idle), outcome)
            } else {
                (self, outcome)
            },
            Ok(_) => (self.moved(Phase::Authorized { session }), outcome),
        }
    }

    /// Signs an envelope on the authorized session, where `tag` is what the
    /// policy computes for it. Outside `Authorized` the step is refused with
    /// `NotAuthorized` and changes nothing. An expired session is destroyed:
    /// the negotiator is `Idle` afterwards.
    pub open spec fn sign_spec(self, e: EnvelopeView, tag: Seq<u8>, now: u64) -> (
        NegotiatorView,
        Result<Seq<u8>, ChannelError>,
    ) {
        match self.phase {
            Phase::Authorized { session } => {
                let signed = session.sign_spec(e, tag, now);
                self.used(signed.0, signed.1)
            },
            _ => (self, Err(ChannelError::NotAuthorized)),
        }
    }

    /// Verifies a message on the authorized session, where `expected` is the
    /// tag that the policy computes for it. Outside `Authorized` the step is
    /// refused with `NotAuthorized` and changes nothing. A failed
    /// authentication, a replay and an expired session destroy the session:
    /// the negotiator is `Idle` afterwards. A malformed message is discarded
    /// and changes nothing.
    pub open spec fn verify_spec(self, signed: Seq<u8>, expected: Seq<u8>, now: u64) -> (
        NegotiatorView,
        Result<EnvelopeView, ChannelError>,
    ) {
        match self.phase {
            Phase::Authorized { session } => {
                let verdict = session.verify_spec(signed, expected, now);
                self.used(verdict.0, verdict.1)
            },
            _ => (self, Err(ChannelError::NotAuthorized)),
        }
    }
}

impl View for Handshake {
    type V = Phase;

    closed spec fn view(&self) -> Phase {
        match *self {
            Handshake::Idle => Phase::Idle,
            Handshake::KeyExchangeSent { ephemeral, deadline } => Phase::KeyExchangeSent {
                ephemeral: ephemeral@,
                deadline,
            },
            Handshake::KeyExchangeConfirmed { session, deadline } => Phase::KeyExchangeConfirmed {
                session: session@,
                deadline,
            },
            Handshake::Authorized { session } => Phase::Authorized { session: session@ },
            Handshake::Failed { reason } => Phase::Failed { reason },
        }
    }
}

/// The envelope of a confirmation.
pub fn confirmation() -> (e: Envelope)
    ensures
        e@ == confirmation_spec(),
{
    let mut payload: Vec<u8> = Vec::new();
    put_be16(&mut payload, OP_CONFIRM);
    assert(payload@ =~= payload_spec(OP_CONFIRM, Seq::empty()));
    Envelope { domain: Domain::AccessControl, payload }
}

/// What the controller's confirmation is tagged over.
pub fn confirmation_input() -> (input: Vec<u8>)
    ensures
        input@ == confirmation_input_spec(),
{
    let e = confirmation();
    let mut input: Vec<u8> = Vec::new();
    input.push(Domain::AccessControl.tag());
    put_be16(&mut input, e.payload.len() as u16);
    input.extend_from_slice(e.payload.as_slice());
    put_be64(&mut input, 1);
    assert(input@ =~= confirmation_input_spec());
    input
}

/// The public key in a key-exchange message.
pub fn peer_key(response: &[u8]) -> (key: Option<Vec<u8>>)
    ensures
        match key {
            Some(k) => peer_key_spec(response@) == Some(k@),
            None => peer_key_spec(response@) is None,
        },
{
    match decode_command(response) {
        Err(_) => None,
        Ok(command) => {
            if command.operation != OP_KEY_EXCHANGE {
                return None;
            }
            match command.domain {
                Domain::AccessControl => Some(command.parameters),
                Domain::Infotainment => None,
            }
        },
    }
}

/// The negotiator of one vehicle. It owns the vehicle's session.
pub struct Negotiator {
    identity: VehicleIdentity,
    state: Handshake,
    used_keys: Vec<Vec<u8>>,
    timeout: u64,
    expiry: ExpiryPolicy,
}

impl View for Negotiator {
    type V = NegotiatorView;

    closed spec fn view(&self) -> NegotiatorView {
        NegotiatorView {
            identity: self.identity@,
            phase: self.state@,
            used_keys: strings_view(self.used_keys@),
            timeout: self.timeout,
            expiry: self.expiry,
        }
    }
}

impl Negotiator {
    /// A negotiator in `Idle` that has used no key yet. A handshake may take
    /// `timeout` ticks; the sessions it makes expire as `expiry` says.
    pub fn new(identity: VehicleIdentity, timeout: u64, expiry: ExpiryPolicy) -> (n: Negotiator)
        ensures
            n@ == (NegotiatorView {
                identity: identity@,
                phase: Phase::Idle,
                used_keys: Seq::empty(),
                timeout,
                expiry,
            }),
            n@.wf(),
    {
        let n = Negotiator {
            identity,
            state: Handshake::Idle,
            used_keys: Vec::new(),
            timeout,
            expiry,
        };
        assert(n@.used_keys =~= Seq::<Seq<u8>>::empty());
        n
    }

    /// Who the vehicle is.
    pub fn identity(&self) -> (identity: &VehicleIdentity)
        ensures
            identity@ == self@.identity,
    {
        &self.identity
    }

    /// The state of the handshake.
    pub fn state(&self) -> (s: State)
        ensures
            s == self@.phase.state(),
    {
        match &self.state {
            Handshake::Idle => State::Idle,
            Handshake::KeyExchangeSent { .. } => State::KeyExchangeSent,
            Handshake::KeyExchangeConfirmed { .. } => State::KeyExchangeConfirmed,
            Handshake::Authorized { .. } => State::Authorized,
            Handshake::Failed { .. } => State::Failed,
        }
    }

    /// Whether commands may be sent.
    pub fn is_authorized(&self) -> (r: bool)
        ensures
            r == (self@.phase is Authorized),
    {
        match &self.state {
            Handshake::Authorized { .. } => true,
            _ => false,
        }
    }

    /// Why the handshake failed, if it did.
    pub fn failure(&self) -> (r: Option<ChannelError>)
        ensures
            r == match self@.phase {
                Phase::Failed { reason } => Some(reason),
                _ => None,
            },
    {
        match &self.state {
            Handshake::Failed { reason } => Some(*reason),
            _ => None,
        }
    }

    /// The deadline of the handshake, while one is under way.
    pub fn deadline(&self) -> (r: Option<u64>)
        ensures
            r == self@.phase.deadline(),
    {
        match &self.state {
            Handshake::KeyExchangeSent { deadline, .. } => Some(*deadline),
            Handshake::KeyExchangeConfirmed { deadline, .. } => Some(*deadline),
            _ => None,
        }
    }

    /// The authorized session, if there is one.
    pub fn session(&self) -> (r: Option<&Session>)
        ensures
            match r {
                Some(session) => self@.phase == (Phase::Authorized { session: session@ }),
                None => !(self@.phase is Authorized),
            },
    {
        match &self.state {
            Handshake::Authorized { session } => Some(session),
            _ => None,
        }
    }

    /// The ephemeral public key of the present attempt, if there is one.
    pub fn ephemeral_public(&self) -> (r: Option<&Vec<u8>>)
        ensures
            match r {
                Some(key) => self@.phase.ephemeral_public() == Some(key@),
                None => self@.phase.ephemeral_public() is None,
            },
    {
        match &self.state {
            Handshake::KeyExchangeSent { ephemeral, .. } => Some(&ephemeral.public),
            Handshake::KeyExchangeConfirmed { session, .. } => Some(session.ephemeral_public()),
            Handshake::Authorized { session } => Some(session.ephemeral_public()),
            _ => None,
        }
    }

    /// Whether an earlier attempt used the key.
    pub fn key_used(&self, key: &[u8]) -> (r: bool)
        ensures
            r == self@.used_keys.contains(key@),
    {
        let mut i: usize = 0;
        while i < self.used_keys.len()
            invariant
                i <= self.used_keys@.len(),
                forall|j: int| 0 <= j < i ==> strings_view(self.used_keys@)[j] != key@,
            decreases self.used_keys@.len() - i,
        {
            if bytes_equal(self.used_keys[i].as_slice(), key) {
                assert(strings_view(self.used_keys@)[i as int] == key@);
                return true;
            }
            i = i + 1;
        }
        false
    }

    /// Back to `Idle`, from any state. A session, if there is one, is
    /// destroyed; the keys that were used stay on record.
    pub fn reset(&mut self)
        ensures
            final(self)@ == old(self)@.reset_spec(),
            old(self)@.wf() ==> final(self)@.wf(),
    {
        self.state = Handshake::Idle;
    }

    /// Lets time pass: a handshake past its deadline fails with
    /// `HandshakeTimeout`. Says whether it did.
    pub fn tick(&mut self, now: u64) -> (timed_out: bool)
        ensures
            final(self)@ == old(self)@.tick_spec(now),
            timed_out == (old(self)@.phase.deadline() matches Some(deadline) && now > deadline),
            old(self)@.wf() ==> final(self)@.wf(),
    {
        match self.deadline() {
            Some(deadline) => {
                if now > deadline {
                    self.state = Handshake::Failed { reason: ChannelError::HandshakeTimeout };
                    true
                } else {
                    false
                }
            },
            None => false,
        }
    }

    /// Begins an attempt with the given ephemeral material, as
    /// [`NegotiatorView::begin_spec`] says, and returns the key-exchange
    /// message to send.
    pub fn begin(&mut self, ephemeral: KeyPair, now: u64) -> (r: Result<Vec<u8>, ChannelError>)
        ensures
            old(self)@.begin_spec(ephemeral@, now) == (final(self)@, bytes_result(r)),
            old(self)@.wf() ==> final(self)@.wf(),
    {
        if !matches!(self.state, Handshake::Idle) {
            return Err(ChannelError::UnexpectedState);
        }
        if self.key_used(ephemeral.public.as_slice()) {
            return Err(ChannelError::KeyReused);
        }
        let message = match encode(
            Domain::AccessControl,
            OP_KEY_EXCHANGE,
            ephemeral.public.as_slice(),
        ) {
            Ok(message) => message,
            Err(e) => {
                return Err(e);
            },
        };
        let public = copy_range(ephemeral.public.as_slice(), 0, ephemeral.public.len());
        assert(public@ =~= ephemeral@.public);
        self.used_keys.push(public);
        self.state =
        Handshake::KeyExchangeSent { ephemeral, deadline: deadline_after(now, self.timeout) };
        proof {
            assert(self@.used_keys =~= old(self)@.used_keys.push(ephemeral@.public));
            if old(self)@.wf() {
                lemma_fresh_key_keeps_distinct(old(self)@.used_keys, ephemeral@.public);
            }
        }
        Ok(message)
    }

    /// Begins an attempt with ephemeral material fresh from the policy. The
    /// policy is not asked outside `Idle`.
    pub fn start<P: CryptoPolicy>(&mut self, policy: &mut P, now: u64) -> (r: Result<
        Vec<u8>,
        ChannelError,
    >)
        ensures
            exists|ephemeral: KeyPairView|
                {
                    &&& #[trigger] old(self)@.begin_spec(ephemeral, now) == (
                        final(self)@,
                        bytes_result(r),
                    )
                    &&& all_answered_by(&*old(policy), old(self)@.begin_queries(ephemeral))
                },
            old(self)@.wf() ==> final(self)@.wf(),
    {
        if !matches!(self.state, Handshake::Idle) {
            assert(self@.begin_spec(
                KeyPairView { private: Seq::empty(), public: Seq::empty() },
                now,
            ) == (self@, bytes_result(Err(ChannelError::UnexpectedState))));
            return Err(ChannelError::UnexpectedState);
        }
        let ephemeral = policy.generate_keypair();
        let ghost pair = ephemeral@;
        let r = self.begin(ephemeral, now);
        proof {
            assert(old(self)@.begin_spec(pair, now) == (self@, bytes_result(r)));
            assert(all_answered_by(&*old(policy), old(self)@.begin_queries(pair)));
        }
        r
    }

    /// Takes the vehicle's key-exchange message with what the policy made of
    /// it, as [`NegotiatorView::exchange_spec`] says, and returns the signed
    /// confirmation to send.
    pub fn receive_key_with(
        &mut self,
        response: &[u8],
        secret: Option<Vec<u8>>,
        send_key: Vec<u8>,
        recv_key: Vec<u8>,
        tag: &[u8],
        now: u64,
    ) -> (r: Result<Vec<u8>, ChannelError>)
        ensures
            old(self)@.exchange_spec(
                response@,
                optional_bytes(secret),
                send_key@,
                recv_key@,
                tag@,
                now,
            ) == (final(self)@, bytes_result(r)),
            old(self)@.wf() ==> final(self)@.wf(),
    {
        let mut state = Handshake::Idle;
        core::mem::swap(&mut self.state, &mut state);
        match state {
            Handshake::KeyExchangeSent { ephemeral, deadline } => {
                if now > deadline {
                    return self.fail(ChannelError::HandshakeTimeout);
                }
                if peer_key(response).is_none() {
                    return self.fail(ChannelError::MalformedMessage);
                }
                let secret = match secret {
                    Some(secret) => secret,
                    None => {
                        return self.fail(ChannelError::AuthenticationFailed);
                    },
                };
                let mut session = match Session::establish(
                    ephemeral,
                    secret,
                    send_key,
                    recv_key,
                    now,
                    self.expiry,
                ) {
                    Ok(session) => session,
                    Err(e) => {
                        return self.fail(e);
                    },
                };
                let e = confirmation();
                let signed = session.sign_with(&e, tag, now);
                self.state = Handshake::KeyExchangeConfirmed { session, deadline };
                signed
            },
            other => {
                self.state = other;
                Err(ChannelError::UnexpectedState)
            },
        }
    }

    /// Takes the vehicle's key-exchange message. The policy agrees on the
    /// secret, derives the key of each direction and tags the confirmation;
    /// the step is then taken with these as
    /// [`Negotiator::receive_key_with`] says. The policy is not asked where
    /// the message is no key exchange or none is awaited.
    pub fn receive_key<P: CryptoPolicy>(&mut self, policy: &P, response: &[u8], now: u64) -> (r:
        Result<Vec<u8>, ChannelError>)
        ensures
            exists|secret: Option<Seq<u8>>, send_key: Seq<u8>, recv_key: Seq<u8>, tag: Seq<u8>|
                {
                    &&& #[trigger] old(self)@.exchange_spec(
                        response@,
                        secret,
                        send_key,
                        recv_key,
                        tag,
                        now,
                    ) == (final(self)@, bytes_result(r))
                    &&& all_answered_by(
                        policy,
                        old(self)@.exchange_queries(response@, secret, send_key, recv_key, tag),
                    )
                },
            old(self)@.wf() ==> final(self)@.wf(),
    {
        let mut secret: Option<Vec<u8>> = None;
        let mut send_key: Vec<u8> = Vec::new();
        let mut recv_key: Vec<u8> = Vec::new();
        let mut tag: Vec<u8> = Vec::new();
        match &self.state {
            Handshake::KeyExchangeSent { ephemeral, .. } => {
                match peer_key(response) {
                    Some(peer) => {
                        match policy.agree(ephemeral.private.as_slice(), peer.as_slice()) {
                            Some(agreed) => {
                                send_key =
                                policy.derive_key(agreed.as_slice(), Direction::ToVehicle);
                                recv_key =
                                policy.derive_key(agreed.as_slice(), Direction::FromVehicle);
                                tag =
                                policy.tag(send_key.as_slice(), confirmation_input().as_slice());
                                secret = Some(agreed);
                            },
                            None => {},
                        }
                    },
                    None => {},
                }
            },
            _ => {},
        }
        let ghost secret_view = optional_bytes(secret);
        let ghost send_view = send_key@;
        let ghost recv_view = recv_key@;
        assert(all_answered_by(
            policy,
            self@.exchange_queries(response@, secret_view, send_view, recv_view, tag@),
        ));
        let r = self.receive_key_with(response, secret, send_key, recv_key, tag.as_slice(), now);
        assert(old(self)@.exchange_spec(response@, secret_view, send_view, recv_view, tag@, now)
            == (self@, bytes_result(r)));
        r
    }

    /// Marks the handshake as failed.
    fn fail<T>(&mut self, reason: ChannelError) -> (r: Result<T, ChannelError>)
        ensures
            final(self)@ == old(self)@.moved(Phase::Failed { reason }),
            r == Err::<T, ChannelError>(reason),
    {
        self.state = Handshake::Failed { reason };
        Err(reason)
    }

    /// Whether an envelope is a confirmation.
    fn is_confirmation(envelope: &Envelope) -> (r: bool)
        ensures
            r == (envelope@ == confirmation_spec()),
    {
        let expected = confirmation();
        match envelope.domain {
            Domain::AccessControl => {
                let same = bytes_equal(envelope.payload.as_slice(), expected.payload.as_slice());
                proof {
                    if same {
                        assert(envelope@ == expected@);
                    }
                }
                same
            },
            Domain::Infotainment => false,
        }
    }

    /// Moves on after the session has looked at the vehicle's confirmation.
    fn conclude(&mut self, session: Session, verdict: Result<Envelope, ChannelError>) -> (r: Result<
        (),
        ChannelError,
    >)
        ensures
            (final(self)@, r) == (match envelope_result(verdict) {
                Err(e) => old(self)@.failed::<()>(e),
                Ok(envelope) => if envelope != confirmation_spec() {
                    old(self)@.failed::<()>(ChannelError::MalformedMessage)
                } else {
                    (old(self)@.moved(Phase::Authorized { session: session@ }), Ok(()))
                },
            }),
    {
        match verdict {
            Err(e) => self.fail(e),
            Ok(envelope) => {
                if Self::is_confirmation(&envelope) {
                    self.state = Handshake::Authorized { session };
                    Ok(())
                } else {
                    self.fail(ChannelError::MalformedMessage)
                }
            },
        }
    }

    /// Takes the vehicle's confirmation and holds it against the tag that is
    /// expected for it, as [`NegotiatorView::confirm_spec`] says.
    pub fn receive_confirmation_against(&mut self, signed: &[u8], expected: &[u8], now: u64) -> (r:
        Result<(), ChannelError>)
        ensures
            old(self)@.confirm_spec(signed@, expected@, now) == (final(self)@, r),
            old(self)@.wf() ==> final(self)@.wf(),
    {
        let mut state = Handshake::Idle;
        core::mem::swap(&mut self.state, &mut state);
        match state {
            Handshake::KeyExchangeConfirmed { mut session, deadline } => {
                if now > deadline {
                    return self.fail(ChannelError::HandshakeTimeout);
                }
                let verdict = session.verify_against(signed, expected, now);
                self.conclude(session, verdict)
            },
            other => {
                self.state = other;
                Err(ChannelError::UnexpectedState)
            },
        }
    }

    /// Takes the vehicle's confirmation. The session verifies it with the
    /// policy, and the step is then taken as
    /// [`Negotiator::receive_confirmation_against`] says.
    pub fn receive_confirmation<P: CryptoPolicy>(
        &mut self,
        policy: &P,
        signed: &[u8],
        now: u64,
    ) -> (r: Result<(), ChannelError>)
        ensures
            exists|expected: Seq<u8>|
                {
                    &&& #[trigger] old(self)@.confirm_spec(signed@, expected, now) == (
                        final(self)@,
                        r,
                    )
                    &&& all_answered_by(policy, old(self)@.confirm_queries(signed@, expected, now))
                },
            old(self)@.wf() ==> final(self)@.wf(),
    {
        let mut state = Handshake::Idle;
        core::mem::swap(&mut self.state, &mut state);
        match state {
            Handshake::KeyExchangeConfirmed { mut session, deadline } => {
                if now > deadline {
                    let r = self.fail(ChannelError::HandshakeTimeout);
                    assert(old(self)@.confirm_spec(signed@, Seq::empty(), now) == (self@, r));
                    return r;
                }
                let ghost before = session@;
                let verdict = session.verify(policy, signed, now);
                let ghost expected = choose|expected: Seq<u8>|
                    {
                        &&& #[trigger] before.verify_spec(signed@, expected, now) == (
                            session@,
                            envelope_result(verdict),
                        )
                        &&& all_answered_by(policy, before.verify_queries(signed@, expected, now))
                    };
                let r = self.conclude(session, verdict);
                assert(old(self)@.confirm_spec(signed@, expected, now) == (self@, r));
                assert(all_answered_by(
                    policy,
                    old(self)@.confirm_queries(signed@, expected, now),
                ));
                r
            },
            other => {
                self.state = other;
                assert(old(self)@.confirm_spec(signed@, Seq::empty(), now) == (
                    self@,
                    Err::<(), ChannelError>(ChannelError::UnexpectedState),
                ));
                Err(ChannelError::UnexpectedState)
            },
        }
    }

    /// Puts the session back after a use, or drops it where the outcome
    /// destroys it.
    fn keep<T>(&mut self, session: Session, failure: Option<ChannelError>)
        ensures
            final(self)@ == (match failure {
                Some(e) => if destroys_session(e) {
                    old(self)@.moved(Phase::Idle)
                } else {
                    old(self)@.moved(Phase::Authorized { session: session@ })
                },
                None => old(self)@.moved(Phase::Authorized { session: session@ }),
            }),
    {
        let destroyed = match failure {
            Some(e) => e.invalidates_session() || e == ChannelError::SessionExpired,
            None => false,
        };
        if destroyed {
            self.state = Handshake::Idle;
        } else {
            self.state = Handshake::Authorized { session };
        }
    }

    /// Signs an envelope on the authorized session with a tag that was
    /// computed for it, as [`NegotiatorView::sign_spec`] says.
    pub fn sign_with(&mut self, envelope: &Envelope, tag: &[u8], now: u64) -> (r: Result<
        Vec<u8>,
        ChannelError,
    >)
        ensures
            old(self)@.sign_spec(envelope@, tag@, now) == (final(self)@, bytes_result(r)),
            old(self)@.wf() ==> final(self)@.wf(),
    {
        let mut state = Handshake::Idle;
        core::mem::swap(&mut self.state, &mut state);
        match state {
            Handshake::Authorized { mut session } => {
                let signed = session.sign_with(envelope, tag, now);
                let failure = match &signed {
                    Ok(_) => None,
                    Err(e) => Some(*e),
                };
                self.keep::<Vec<u8>>(session, failure);
                signed
            },
            other => {
                self.state = other;
                Err(ChannelError::NotAuthorized)
            },
        }
    }

    /// Signs an envelope on the authorized session, with the policy's tag.
    pub fn sign<P: CryptoPolicy>(&mut self, policy: &P, envelope: &Envelope, now: u64) -> (r:
        Result<Vec<u8>, ChannelError>)
        ensures
            exists|tag: Seq<u8>|
                {
                    &&& #[trigger] old(self)@.sign_spec(envelope@, tag, now) == (
                        final(self)@,
                        bytes_result(r),
                    )
                    &&& all_answered_by(policy, old(self)@.sign_queries(envelope@, tag, now))
                },
            old(self)@.wf() ==> final(self)@.wf(),
    {
        let mut state = Handshake::Idle;
        core::mem::swap(&mut self.state, &mut state);
        match state {
            Handshake::Authorized { mut session } => {
                let ghost before = session@;
                let signed = session.sign(policy, envelope, now);
                let ghost tag = choose|tag: Seq<u8>|
                    {
                        &&& #[trigger] before.sign_spec(envelope@, tag, now) == (
                            session@,
                            bytes_result(signed),
                        )
                        &&& all_answered_by(policy, before.sign_queries(envelope@, tag, now))
                    };
                let failure = match &signed {
                    Ok(_) => None,
                    Err(e) => Some(*e),
                };
                self.keep::<Vec<u8>>(session, failure);
                assert(old(self)@.sign_spec(envelope@, tag, now) == (self@, bytes_result(signed)));
                assert(all_answered_by(policy, old(self)@.sign_queries(envelope@, tag, now)));
                signed
            },
            other => {
                self.state = other;
                assert(old(self)@.sign_spec(envelope@, Seq::empty(), now) == (
                    self@,
                    bytes_result(Err(ChannelError::NotAuthorized)),
                ));
                Err(ChannelError::NotAuthorized)
            },
        }
    }

    /// Verifies a message on the authorized session against the tag that is
    /// expected for it, as [`NegotiatorView::verify_spec`] says.
    pub fn verify_against(&mut self, signed: &[u8], expected: &[u8], now: u64) -> (r: Result<
        Envelope,
        ChannelError,
    >)
        ensures
            old(self)@.verify_spec(signed@, expected@, now) == (final(self)@, envelope_result(r)),
            old(self)@.wf() ==> final(self)@.wf(),
    {
        let mut state = Handshake::Idle;
        core::mem::swap(&mut self.state, &mut state);
        match state {
            Handshake::Authorized { mut session } => {
                let verdict = session.verify_against(signed, expected, now);
                let failure = match &verdict {
                    Ok(_) => None,
                    Err(e) => Some(*e),
                };
                self.keep::<Envelope>(session, failure);
                verdict
            },
            other => {
                self.state = other;
                Err(ChannelError::NotAuthorized)
            },
        }
    }

    /// Verifies a message on the authorized session, with the policy's tag.
    pub fn verify<P: CryptoPolicy>(&mut self, policy: &P, signed: &[u8], now: u64) -> (r: Result<
        Envelope,
        ChannelError,
    >)
        ensures
            exists|expected: Seq<u8>|
                {
                    &&& #[trigger] old(self)@.verify_spec(signed@, expected, now) == (
                        final(self)@,
                        envelope_result(r),
                    )
                    &&& all_answered_by(policy, old(self)@.verify_queries(signed@, expected, now))
                },
            old(self)@.wf() ==> final(self)@.wf(),
    {
        let mut state = Handshake::Idle;
        core::mem::swap(&mut self.state, &mut state);
        match state {
            Handshake::Authorized { mut session } => {
                let ghost before = session@;
                let verdict = session.verify(policy, signed, now);
                let ghost expected = choose|expected: Seq<u8>|
                    {
                        &&& #[trigger] before.verify_spec(signed@, expected, now) == (
                            session@,
                            envelope_result(verdict),
                        )
                        &&& all_answered_by(policy, before.verify_queries(signed@, expected, now))
                    };
                let failure = match &verdict {
                    Ok(_) => None,
                    Err(e) => Some(*e),
                };
                self.keep::<Envelope>(session, failure);
                assert(old(self)@.verify_spec(signed@, expected, now) == (
                    self@,
                    envelope_result(verdict),
                ));
                assert(all_answered_by(policy, old(self)@.verify_queries(signed@, expected, now)));
                verdict
            },
            other => {
                self.state = other;
                assert(old(self)@.verify_spec(signed@, Seq::empty(), now) == (
                    self@,
                    envelope_result(Err(ChannelError::NotAuthorized)),
                ));
                Err(ChannelError::NotAuthorized)
            },
        }
    }
}

/// A key that is not among distinct keys stays distinct from them when it is
/// added.
pub proof fn lemma_fresh_key_keeps_distinct(keys: Seq<Seq<u8>>, key: Seq<u8>)
    requires
        keys.no_duplicates(),
        !keys.contains(key),
    ensures
        keys.push(key).no_duplicates(),
{
    let more = keys.push(key);
    assert forall|i: int, j: int|
        0 <= i < more.len() && 0 <= j < more.len() && i != j implies more[i] != more[j] by {
        if i < keys.len() && j < keys.len() {
        } else if i < keys.len() {
            assert(keys[i] == more[i]);
        } else {
            assert(keys[j] == more[j]);
        }
    }
}

} // verus!
