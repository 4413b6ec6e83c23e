//! What holds of signing and verifying over the life of a session.
//!
//! Counters only go up: of the messages that one session signs, and of those
//! that one session accepts, each has a counter above the one before. What was
//! accepted once is a replay ever after. A message signed on one side is
//! accepted on the other, with any policy whose tags are a function of key
//! and message.

use vstd::prelude::*;
use crate::codec::{lemma_layers_of_envelope, EnvelopeView, MAX_PAYLOAD_LEN};
use crate::error::ChannelError;
use crate::session::{
    all_answered_by, answered_by, signed_spec, signing_input_spec, unsigned_spec, CryptoPolicy,
    Query, SessionView, SignedView, COUNTER_LEN,
};
use crate::wire::{be64, lemma_be64_round_trip};

verus! {

/// One message handed to the verifier: its bytes, the tag that the policy
/// computes for it, and the tick.
pub ghost struct Arrival {
    pub bytes: Seq<u8>,
    pub expected: Seq<u8>,
    pub now: u64,
}

/// One envelope handed to the signer: the envelope, the tag that the policy
/// computes for it, and the tick.
pub ghost struct Request {
    pub envelope: EnvelopeView,
    pub tag: Seq<u8>,
    pub now: u64,
}

/// The session after the first `k` arrivals.
pub open spec fn verified_spec(start: SessionView, arrivals: Seq<Arrival>, k: int) -> SessionView
    decreases k,
{
    if k <= 0 {
        start
    } else {
        let a = arrivals[k - 1];
        verified_spec(start, arrivals, k - 1).verify_spec(a.bytes, a.expected, a.now).0
    }
}

/// What the verifier says of arrival `k`, after those before it.
pub open spec fn verdict_spec(start: SessionView, arrivals: Seq<Arrival>, k: int) -> Result<
    EnvelopeView,
    ChannelError,
> {
    let a = arrivals[k];
    verified_spec(start, arrivals, k).verify_spec(a.bytes, a.expected, a.now).1
}

/// The session after the first `k` requests.
pub open spec fn signed_after_spec(
    start: SessionView,
    requests: Seq<Request>,
    k: int,
) -> SessionView
    decreases k,
{
    if k <= 0 {
        start
    } else {
        let q = requests[k - 1];
        signed_after_spec(start, requests, k - 1).sign_spec(q.envelope, q.tag, q.now).0
    }
}

/// What the signer gives for request `k`, after those before it.
pub open spec fn signature_spec(start: SessionView, requests: Seq<Request>, k: int) -> Result<
    Seq<u8>,
    ChannelError,
> {
    let q = requests[k];
    signed_after_spec(start, requests, k).sign_spec(q.envelope, q.tag, q.now).1
}

/// The counter that stands in a signed message.
pub open spec fn counter_of(bytes: Seq<u8>) -> u64
    recommends
        unsigned_spec(bytes) is Some,
{
    unsigned_spec(bytes).unwrap().counter
}

/// A signed message taken apart gives the parts it was made of.
pub proof fn lemma_unsign_inverts_sign(m: SignedView)
    requires
        m.envelope.payload.len() <= MAX_PAYLOAD_LEN,
    ensures
        unsigned_spec(signed_spec(m)) == Some(m),
{
    let trailer = be64(m.counter) + m.tag;
    lemma_layers_of_envelope(m.envelope, trailer);
    lemma_be64_round_trip(m.counter);
    assert(signed_spec(m) =~= crate::codec::envelope_spec(m.envelope) + trailer);
    assert(trailer.subrange(0, COUNTER_LEN as int) =~= be64(m.counter));
    assert(trailer.subrange(COUNTER_LEN as int, trailer.len() as int) =~= m.tag);
}

/// A rejected message changes nothing: neither counter moves, and the session
/// is the one it was.
pub proof fn lemma_rejection_leaves_session(
    s: SessionView,
    bytes: Seq<u8>,
    expected: Seq<u8>,
    now: u64,
)
    requires
        s.verify_spec(bytes, expected, now).1 is Err,
    ensures
        s.verify_spec(bytes, expected, now).0 == s,
{
}

/// A counter that is not above the last accepted one is a replay, whatever
/// the tag says.
pub proof fn lemma_stale_counter_rejected(
    s: SessionView,
    bytes: Seq<u8>,
    expected: Seq<u8>,
    now: u64,
)
    requires
        !s.expired(now),
        unsigned_spec(bytes) is Some,
        counter_of(bytes) <= s.accepted,
    ensures
        s.verify_spec(bytes, expected, now) == (
            s,
            Err::<EnvelopeView, ChannelError>(ChannelError::ReplayRejected),
        ),
{
}

/// An accepted message advances the last accepted counter to its own, and by
/// at least one.
pub proof fn lemma_acceptance_advances(
    s: SessionView,
    bytes: Seq<u8>,
    expected: Seq<u8>,
    now: u64,
)
    requires
        s.verify_spec(bytes, expected, now).1 is Ok,
    ensures
        unsigned_spec(bytes) is Some,
        s.accepted < counter_of(bytes),
        s.verify_spec(bytes, expected, now).0.accepted == counter_of(bytes),
        s.verify_spec(bytes, expected, now).0.sent == s.sent,
        s.verify_spec(bytes, expected, now).1 == Ok::<EnvelopeView, ChannelError>(
            unsigned_spec(bytes).unwrap().envelope,
        ),
{
}

/// The last accepted counter never goes down over a run of arrivals.
pub proof fn lemma_accepted_never_decreases(
    start: SessionView,
    arrivals: Seq<Arrival>,
    i: int,
    j: int,
)
    requires
        0 <= i <= j <= arrivals.len(),
    ensures
        verified_spec(start, arrivals, i).accepted <= verified_spec(start, arrivals, j).accepted,
    decreases j - i,
{
    if i < j {
        lemma_accepted_never_decreases(start, arrivals, i, j - 1);
    }
}

/// Of the messages that a session accepts, each has a counter strictly above
/// that of every one accepted before it.
pub proof fn lemma_accepted_counters_increase(
    start: SessionView,
    arrivals: Seq<Arrival>,
    i: int,
    j: int,
)
    requires
        0 <= i < j < arrivals.len(),
        verdict_spec(start, arrivals, i) is Ok,
        verdict_spec(start, arrivals, j) is Ok,
    ensures
        counter_of(arrivals[i].bytes) < counter_of(arrivals[j].bytes),
{
    let a = arrivals[i];
    lemma_acceptance_advances(verified_spec(start, arrivals, i), a.bytes, a.expected, a.now);
    assert(verified_spec(start, arrivals, i + 1).accepted == counter_of(a.bytes));
    lemma_accepted_never_decreases(start, arrivals, i + 1, j);
}

/// A message that was accepted, or any other with a counter that is not above
/// its own, is rejected as a replay whenever it is presented later to the
/// live session, whatever else came in between and whatever tag it carries.
pub proof fn lemma_replay_rejected(start: SessionView, arrivals: Seq<Arrival>, i: int, j: int)
    requires
        0 <= i < j < arrivals.len(),
        verdict_spec(start, arrivals, i) is Ok,
        unsigned_spec(arrivals[j].bytes) is Some,
        counter_of(arrivals[j].bytes) <= counter_of(arrivals[i].bytes),
        !verified_spec(start, arrivals, j).expired(arrivals[j].now),
    ensures
        verdict_spec(start, arrivals, j) == Err::<EnvelopeView, ChannelError>(
            ChannelError::ReplayRejected,
        ),
        verified_spec(start, arrivals, j + 1) == verified_spec(start, arrivals, j),
{
    let a = arrivals[i];
    lemma_acceptance_advances(verified_spec(start, arrivals, i), a.bytes, a.expected, a.now);
    assert(verified_spec(start, arrivals, i + 1).accepted == counter_of(a.bytes));
    lemma_accepted_never_decreases(start, arrivals, i + 1, j);
}

/// A successful signature carries the counter after the last one used, and
/// moves the session to it: the outgoing counter advances by exactly one.
pub proof fn lemma_signature_advances(s: SessionView, e: EnvelopeView, tag: Seq<u8>, now: u64)
    requires
        s.sign_spec(e, tag, now).1 is Ok,
    ensures
        s.sign_spec(e, tag, now).0.sent == s.sent + 1,
        s.sign_spec(e, tag, now).0.accepted == s.accepted,
        unsigned_spec(s.sign_spec(e, tag, now).1.unwrap()) == Some(
            SignedView { envelope: e, counter: (s.sent + 1) as u64, tag },
        ),
{
    lemma_unsign_inverts_sign(SignedView { envelope: e, counter: (s.sent + 1) as u64, tag });
}

/// A refused signature changes nothing.
pub proof fn lemma_refusal_leaves_session(s: SessionView, e: EnvelopeView, tag: Seq<u8>, now: u64)
    requires
        s.sign_spec(e, tag, now).1 is Err,
    ensures
        s.sign_spec(e, tag, now).0 == s,
{
}

/// The outgoing counter never goes down over a run of requests.
pub proof fn lemma_sent_never_decreases(
    start: SessionView,
    requests: Seq<Request>,
    i: int,
    j: int,
)
    requires
        0 <= i <= j <= requests.len(),
    ensures
        signed_after_spec(start, requests, i).sent <= signed_after_spec(start, requests, j).sent,
    decreases j - i,
{
    if i < j {
        lemma_sent_never_decreases(start, requests, i, j - 1);
    }
}

/// Of the messages that a session signs, each carries a counter strictly
/// above that of every one signed before it: no counter is used twice.
pub proof fn lemma_signed_counters_increase(
    start: SessionView,
    requests: Seq<Request>,
    i: int,
    j: int,
)
    requires
        0 <= i < j < requests.len(),
        signature_spec(start, requests, i) is Ok,
        signature_spec(start, requests, j) is Ok,
    ensures
        unsigned_spec(signature_spec(start, requests, i).unwrap()) is Some,
        unsigned_spec(signature_spec(start, requests, j).unwrap()) is Some,
        counter_of(signature_spec(start, requests, i).unwrap()) < counter_of(
            signature_spec(start, requests, j).unwrap(),
        ),
{
    let p = requests[i];
    let q = requests[j];
    lemma_signature_advances(signed_after_spec(start, requests, i), p.envelope, p.tag, p.now);
    lemma_signature_advances(signed_after_spec(start, requests, j), q.envelope, q.tag, q.now);
    assert(signed_after_spec(start, requests, i + 1).sent == counter_of(
        signature_spec(start, requests, i).unwrap(),
    ));
    lemma_sent_never_decreases(start, requests, i + 1, j);
}

/// Whether the tags of a policy are a function of key and message: whether
/// it never gives two tags to the same message under the same key.
pub open spec fn tags_are_a_function<P: CryptoPolicy>(policy: &P) -> bool {
    forall|key: Seq<u8>, message: Seq<u8>, one: Seq<u8>, other: Seq<u8>|
        #![trigger
            answered_by(policy, Query::Tag { key, message, tag: one }),
            answered_by(policy, Query::Tag { key, message, tag: other }),
        ]
        answered_by(policy, Query::Tag { key, message, tag: one }) && answered_by(
            policy,
            Query::Tag { key, message, tag: other },
        ) ==> one == other
}

/// What one side signs with a policy, the other accepts with it.
///
/// Let the policy's tags be a function of key and message. A message that
/// `sender` signs with the policy's tag is accepted by a live `receiver`
/// whose receive key is the sender's send key and that has accepted no
/// counter as high, when it is verified against the policy's tag: the
/// receiver gets the envelope that was signed.
pub proof fn lemma_signed_is_accepted<P: CryptoPolicy>(
    policy: &P,
    sender: SessionView,
    receiver: SessionView,
    e: EnvelopeView,
    tag: Seq<u8>,
    expected: Seq<u8>,
    signed_at: u64,
    verified_at: u64,
)
    requires
        tags_are_a_function(policy),
        receiver.recv_key == sender.send_key,
        receiver.accepted <= sender.sent,
        !receiver.expired(verified_at),
        sender.sign_spec(e, tag, signed_at).1 is Ok,
        all_answered_by(policy, sender.sign_queries(e, tag, signed_at)),
        all_answered_by(
            policy,
            receiver.verify_queries(
                sender.sign_spec(e, tag, signed_at).1.unwrap(),
                expected,
                verified_at,
            ),
        ),
    ensures
        receiver.verify_spec(
            sender.sign_spec(e, tag, signed_at).1.unwrap(),
            expected,
            verified_at,
        ).1 == Ok::<EnvelopeView, ChannelError>(e),
        receiver.verify_spec(
            sender.sign_spec(e, tag, signed_at).1.unwrap(),
            expected,
            verified_at,
        ).0.accepted == sender.sent + 1,
{
    let signed = sender.sign_spec(e, tag, signed_at).1.unwrap();
    let input = signing_input_spec(e, (sender.sent + 1) as u64);
    lemma_signature_advances(sender, e, tag, signed_at);
    let asked = sender.sign_queries(e, tag, signed_at);
    let checked = receiver.verify_queries(signed, expected, verified_at);
    assert(asked[0] == Query::Tag { key: sender.send_key, message: input, tag });
    assert(checked[0] == Query::Tag { key: sender.send_key, message: input, tag: expected });
    assert(answered_by(policy, asked[0]));
    assert(answered_by(policy, checked[0]));
}

} // verus!
