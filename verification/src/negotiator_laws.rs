//! What holds of the handshake over the life of a negotiator.
//!
//! A handshake that hears nothing fails at its deadline and, after a reset, is
//! tried again with other ephemeral material: no two attempts of one
//! negotiator ever use the same ephemeral public key. Only an authorized
//! negotiator signs or verifies.

use vstd::prelude::*;
use crate::codec::EnvelopeView;
use crate::error::ChannelError;
use crate::negotiator::{
    confirmation_spec, derived_session_spec, peer_key_spec, NegotiatorView, Phase, State,
};
use crate::session::{signed_spec, KeyPairView, SessionView, SignedView};

verus! {

/// What can happen to a negotiator, with what the policy made of it.
pub ghost enum Event {
    Begin { ephemeral: KeyPairView },
    PeerKey {
        response: Seq<u8>,
        secret: Option<Seq<u8>>,
        send_key: Seq<u8>,
        recv_key: Seq<u8>,
        tag: Seq<u8>,
    },
    Confirmation { signed: Seq<u8>, expected: Seq<u8> },
    Sign { envelope: EnvelopeView, tag: Seq<u8> },
    Verify { signed: Seq<u8>, expected: Seq<u8> },
    Tick,
    Reset,
}

/// An event and the tick at which it happens.
pub ghost struct Input {
    pub event: Event,
    pub now: u64,
}

/// The negotiator after one event.
pub open spec fn step_spec(v: NegotiatorView, input: Input) -> NegotiatorView {
    match input.event {
        Event::Begin { ephemeral } => v.begin_spec(ephemeral, input.now).0,
        Event::PeerKey { response, secret, send_key, recv_key, tag } => v.exchange_spec(
            response,
            secret,
            send_key,
            recv_key,
            tag,
            input.now,
        ).0,
        Event::Confirmation { signed, expected } => v.confirm_spec(signed, expected, input.now).0,
        Event::Sign { envelope, tag } => v.sign_spec(envelope, tag, input.now).0,
        Event::Verify { signed, expected } => v.verify_spec(signed, expected, input.now).0,
        Event::Tick => v.tick_spec(input.now),
        Event::Reset => v.reset_spec(),
    }
}

/// The negotiator after the first `k` inputs.
pub open spec fn after_spec(start: NegotiatorView, inputs: Seq<Input>, k: int) -> NegotiatorView
    decreases k,
{
    if k <= 0 {
        start
    } else {
        step_spec(after_spec(start, inputs, k - 1), inputs[k - 1])
    }
}

/// Whether input `k` begins an attempt that the negotiator takes up.
pub open spec fn begins_attempt(start: NegotiatorView, inputs: Seq<Input>, k: int) -> bool {
    inputs[k].event matches Event::Begin { ephemeral } && after_spec(
        start,
        inputs,
        k,
    ).begin_spec(ephemeral, inputs[k].now).1 is Ok
}

/// The ephemeral public key that input `k` begins an attempt with.
pub open spec fn attempt_key(inputs: Seq<Input>, k: int) -> Seq<u8>
    recommends
        inputs[k].event is Begin,
{
    inputs[k].event->Begin_ephemeral.public
}

/// Every step keeps the negotiator well formed.
pub proof fn lemma_step_keeps_wf(v: NegotiatorView, input: Input)
    requires
        v.wf(),
    ensures
        step_spec(v, input).wf(),
{
    match input.event {
        Event::Begin { ephemeral } => {
            if v.begin_spec(ephemeral, input.now).1 is Ok {
                crate::negotiator::lemma_fresh_key_keeps_distinct(v.used_keys, ephemeral.public);
            }
        },
        _ => {},
    }
}

/// Every step keeps the record of used keys, and at most adds to its end.
pub proof fn lemma_step_keeps_keys(v: NegotiatorView, input: Input)
    ensures
        v.used_keys.is_prefix_of(step_spec(v, input).used_keys),
        step_spec(v, input).identity == v.identity,
        step_spec(v, input).timeout == v.timeout,
        step_spec(v, input).expiry == v.expiry,
{
}

/// The record of used keys only grows over a run.
pub proof fn lemma_used_keys_grow(start: NegotiatorView, inputs: Seq<Input>, i: int, j: int)
    requires
        0 <= i <= j <= inputs.len(),
    ensures
        after_spec(start, inputs, i).used_keys.is_prefix_of(
            after_spec(start, inputs, j).used_keys,
        ),
    decreases j - i,
{
    if i < j {
        lemma_used_keys_grow(start, inputs, i, j - 1);
        lemma_step_keeps_keys(after_spec(start, inputs, j - 1), inputs[j - 1]);
    }
}

/// A well-formed negotiator stays well formed over a run.
pub proof fn lemma_run_keeps_wf(start: NegotiatorView, inputs: Seq<Input>, k: int)
    requires
        start.wf(),
        0 <= k <= inputs.len(),
    ensures
        after_spec(start, inputs, k).wf(),
    decreases k,
{
    if k > 0 {
        lemma_run_keeps_wf(start, inputs, k - 1);
        lemma_step_keeps_wf(after_spec(start, inputs, k - 1), inputs[k - 1]);
    }
}

/// No two attempts of one negotiator use the same ephemeral public key,
/// whatever happens between them.
pub proof fn lemma_attempts_use_distinct_keys(
    start: NegotiatorView,
    inputs: Seq<Input>,
    i: int,
    j: int,
)
    requires
        0 <= i < j < inputs.len(),
        begins_attempt(start, inputs, i),
        begins_attempt(start, inputs, j),
    ensures
        attempt_key(inputs, i) != attempt_key(inputs, j),
{
    let key = attempt_key(inputs, i);
    let after = after_spec(start, inputs, i + 1);
    let later = after_spec(start, inputs, j);
    assert(after.used_keys.last() == key);
    lemma_used_keys_grow(start, inputs, i + 1, j);
    assert(later.used_keys[after.used_keys.len() - 1] == key);
    assert(later.used_keys.contains(key));
}

/// A handshake that hears nothing fails at its deadline: once the deadline
/// has passed, a tick, or whatever arrives too late, leaves it `Failed` with
/// `HandshakeTimeout`.
pub proof fn lemma_silence_fails_handshake(v: NegotiatorView, now: u64)
    requires
        v.phase.deadline() matches Some(deadline) && now > deadline,
    ensures
        v.tick_spec(now).phase == (Phase::Failed { reason: ChannelError::HandshakeTimeout }),
        forall|
            response: Seq<u8>,
            secret: Option<Seq<u8>>,
            send: Seq<u8>,
            recv: Seq<u8>,
            tag: Seq<u8>,
        |
            v.phase is KeyExchangeSent ==> #[trigger] v.exchange_spec(
                response,
                secret,
                send,
                recv,
                tag,
                now,
            ) == v.failed::<Seq<u8>>(ChannelError::HandshakeTimeout),
        forall|signed: Seq<u8>, expected: Seq<u8>|
            v.phase is KeyExchangeConfirmed ==> #[trigger] v.confirm_spec(signed, expected, now)
                == v.failed::<()>(ChannelError::HandshakeTimeout),
{
}

/// A handshake is retried with fresh ephemeral material.
///
/// An attempt that hears nothing by its deadline fails. After a reset the
/// negotiator takes up a new attempt only with an ephemeral public key other
/// than that of the failed one, and of any attempt before it.
pub proof fn lemma_retry_uses_fresh_key(
    v: NegotiatorView,
    now: u64,
    next: KeyPairView,
    later: u64,
)
    requires
        v.wf(),
        v.phase.deadline() matches Some(deadline) && now > deadline,
    ensures
        v.tick_spec(now).phase.state() == State::Failed,
        v.tick_spec(now).reset_spec().phase.state() == State::Idle,
        v.tick_spec(now).reset_spec().begin_spec(next, later).1 is Ok ==> {
            &&& Some(next.public) != v.phase.ephemeral_public()
            &&& !v.used_keys.contains(next.public)
            &&& v.tick_spec(now).reset_spec().begin_spec(next, later).0.phase.ephemeral_public()
                == Some(next.public)
        },
        v.used_keys.contains(next.public) ==> v.tick_spec(now).reset_spec().begin_spec(
            next,
            later,
        ) == (
            v.tick_spec(now).reset_spec(),
            Err::<Seq<u8>, ChannelError>(ChannelError::KeyReused),
        ),
{
    let key = v.phase.ephemeral_public().unwrap();
    assert(v.used_keys[v.used_keys.len() - 1] == key);
    assert(v.used_keys.contains(key));
}

/// A key exchange that goes through leaves a session with separated keys that
/// has signed exactly one message, the confirmation, and returns that
/// message.
pub proof fn lemma_exchange_confirms(
    v: NegotiatorView,
    response: Seq<u8>,
    secret: Option<Seq<u8>>,
    send_key: Seq<u8>,
    recv_key: Seq<u8>,
    tag: Seq<u8>,
    now: u64,
)
    requires
        v.phase is KeyExchangeSent,
        now <= v.phase.deadline().unwrap(),
        peer_key_spec(response) is Some,
        secret is Some,
        send_key != recv_key,
    ensures
        ({
            let after = v.exchange_spec(response, secret, send_key, recv_key, tag, now);
            let fresh = derived_session_spec(
                v.phase->KeyExchangeSent_ephemeral,
                secret.unwrap(),
                send_key,
                recv_key,
                now,
                v.expiry,
            );
            &&& after.0.phase == (Phase::KeyExchangeConfirmed {
                session: SessionView { sent: 1, ..fresh },
                deadline: v.phase.deadline().unwrap(),
            })
            &&& after.1 == Ok::<Seq<u8>, ChannelError>(
                signed_spec(SignedView { envelope: confirmation_spec(), counter: 1, tag }),
            )
        }),
{
}

/// Only an authorized negotiator signs or verifies: in any other state both
/// are refused with `NotAuthorized`, and nothing changes.
pub proof fn lemma_only_authorized_is_used(v: NegotiatorView, now: u64)
    requires
        !(v.phase is Authorized),
    ensures
        forall|e: EnvelopeView, tag: Seq<u8>| #[trigger]
            v.sign_spec(e, tag, now) == (
                v,
                Err::<Seq<u8>, ChannelError>(ChannelError::NotAuthorized),
            ),
        forall|signed: Seq<u8>, expected: Seq<u8>| #[trigger]
            v.verify_spec(signed, expected, now) == (
                v,
                Err::<EnvelopeView, ChannelError>(ChannelError::NotAuthorized),
            ),
{
}

} // verus!
