//! The session with one vehicle, and the signer and verifier that work on it.
//!
//! A signed message is an envelope with a trailer behind it:
//!
//! ```text
//! routing header, payload     as the codec lays them out
//! counter                     8 bytes, big-endian
//! tag                         everything after the counter
//! ```
//!
//! The tag authenticates header, payload and counter. Which algorithm computes
//! it, and which ones agree on and derive the keys, is left to a
//! [`CryptoPolicy`]: the library decides what is signed, what is compared and
//! what a counter may be, never how a tag is made.

use vstd::prelude::*;
use vstd::slice::slice_subrange;
use crate::codec::{
    encode_envelope, envelope_of, envelope_spec, layers_spec, split, Envelope, EnvelopeView,
    MAX_PAYLOAD_LEN,
};
use crate::error::ChannelError;
use crate::wire::{be64, be64_value, get_be64, put_be64};

verus! {

/// Bytes of the counter in a trailer.
pub const COUNTER_LEN: usize = 8;

/// A key pair as the policy made it.
#[derive(Debug, PartialEq, Eq)]
pub struct KeyPair {
    pub private: Vec<u8>,
    pub public: Vec<u8>,
}

/// The mathematical value of a [`KeyPair`].
pub ghost struct KeyPairView {
    pub private: Seq<u8>,
    pub public: Seq<u8>,
}

impl View for KeyPair {
    type V = KeyPairView;

    open spec fn view(&self) -> KeyPairView {
        KeyPairView { private: self.private@, public: self.public@ }
    }
}

/// The direction that a symmetric key is for.
#[derive(Clone, Copy, Debug, PartialEq, Eq, Structural)]
pub enum Direction {
    /// From the controller to the vehicle.
    ToVehicle,
    /// From the vehicle to the controller.
    FromVehicle,
}

/// The cryptographic primitives, chosen by whoever uses the library.
///
/// The library makes no assumption on what these return. Where a result
/// matters (a tag that has to match, two keys that have to differ), verified
/// code tests it. What the library does promise is which questions it puts to
/// the policy: see [`Query`] and [`answered_by`].
pub trait CryptoPolicy {
    /// Fresh ephemeral key material for one handshake attempt.
    fn generate_keypair(&mut self) -> KeyPair;

    /// The secret shared with the holder of `peer_public`, or `None` where that
    /// key is not acceptable.
    fn agree(&self, local_private: &[u8], peer_public: &[u8]) -> Option<Vec<u8>>;

    /// The symmetric key for one direction.
    fn derive_key(&self, secret: &[u8], direction: Direction) -> Vec<u8>;

    /// The authentication tag of `message` under `key`.
    fn tag(&self, key: &[u8], message: &[u8]) -> Vec<u8>;
}

/// A question put to the policy, with the answer that it gave.
pub ghost enum Query {
    /// Fresh ephemeral key material.
    Generate { pair: KeyPairView },
    /// The secret agreed with the holder of a public key.
    Agree { local_private: Seq<u8>, peer_public: Seq<u8>, agreed: Option<Seq<u8>> },
    /// The key derived from a secret for one direction.
    Derive { secret: Seq<u8>, direction: Direction, key: Seq<u8> },
    /// The tag of a message under a key.
    Tag { key: Seq<u8>, message: Seq<u8>, tag: Seq<u8> },
}

/// Bytes that may be missing, as a value.
pub open spec fn optional_bytes(bytes: Option<Vec<u8>>) -> Option<Seq<u8>> {
    match bytes {
        Some(b) => Some(b@),
        None => None,
    }
}

/// Whether the policy may give this answer to this question: whether a call
/// of its method with these arguments may return this result.
pub open spec fn answered_by<P: CryptoPolicy>(policy: &P, q: Query) -> bool {
    match q {
        Query::Generate { pair } => exists|p: &mut P, k: KeyPair|
            *p == *policy && k@ == pair && #[trigger] call_ensures(P::generate_keypair, (p,), k),
        Query::Agree { local_private, peer_public, agreed } => exists|
            a: &[u8],
            b: &[u8],
            s: Option<Vec<u8>>,
        |
            a@ == local_private && b@ == peer_public && optional_bytes(s) == agreed
                && #[trigger] call_ensures(P::agree, (policy, a, b), s),
        Query::Derive { secret, direction, key } => exists|s: &[u8], k: Vec<u8>|
            s@ == secret && k@ == key && #[trigger] call_ensures(
                P::derive_key,
                (policy, s, direction),
                k,
            ),
        Query::Tag { key, message, tag } => exists|k: &[u8], m: &[u8], t: Vec<u8>|
            k@ == key && m@ == message && t@ == tag && #[trigger] call_ensures(
                P::tag,
                (policy, k, m),
                t,
            ),
    }
}

/// Whether the policy may give each of these answers to its question.
pub open spec fn all_answered_by<P: CryptoPolicy>(policy: &P, queries: Seq<Query>) -> bool {
    forall|i: int| 0 <= i < queries.len() ==> answered_by(policy, #[trigger] queries[i])
}

/// What the policy answers to each of two lists of questions, it answers to
/// both in a row.
pub proof fn lemma_answered_in_turn<P: CryptoPolicy>(
    policy: &P,
    first: Seq<Query>,
    second: Seq<Query>,
)
    requires
        all_answered_by(policy, first),
        all_answered_by(policy, second),
    ensures
        all_answered_by(policy, first + second),
{
    let all = first + second;
    assert forall|i: int| 0 <= i < all.len() implies answered_by(policy, #[trigger] all[i]) by {
        if i < first.len() {
            assert(all[i] == first[i]);
        } else {
            assert(all[i] == second[i - first.len()]);
        }
    }
}

/// How long a session stays valid.
#[derive(Clone, Copy, Debug, PartialEq, Eq, Structural)]
pub struct ExpiryPolicy {
    /// Ticks after its creation at which the session expires.
    pub max_age: u64,
    /// Ticks after its last use at which the session expires.
    pub max_idle: u64,
}

/// The cryptographic context that authorizes command exchange with one
/// vehicle.
pub struct Session {
    ephemeral: KeyPair,
    shared_secret: Vec<u8>,
    send_key: Vec<u8>,
    recv_key: Vec<u8>,
    sent: u64,
    accepted: u64,
    created_at: u64,
    last_used: u64,
    expiry: ExpiryPolicy,
}

/// The mathematical value of a [`Session`].
pub ghost struct SessionView {
    /// The ephemeral key pair that the session was made with.
    pub ephemeral: KeyPairView,
    /// The secret that was agreed with the vehicle.
    pub shared_secret: Seq<u8>,
    pub send_key: Seq<u8>,
    pub recv_key: Seq<u8>,
    /// The counter of the last message signed; 0 before the first.
    pub sent: u64,
    /// The counter of the last message accepted; 0 before the first.
    pub accepted: u64,
    pub created_at: u64,
    pub last_used: u64,
    pub expiry: ExpiryPolicy,
}

/// The parts of a signed message.
pub ghost struct SignedView {
    pub envelope: EnvelopeView,
    pub counter: u64,
    pub tag: Seq<u8>,
}

/// What a tag is computed over: header, payload and counter.
pub open spec fn signing_input_spec(e: EnvelopeView, counter: u64) -> Seq<u8> {
    envelope_spec(e) + be64(counter)
}

/// The bytes of a signed message.
pub open spec fn signed_spec(m: SignedView) -> Seq<u8> {
    signing_input_spec(m.envelope, m.counter) + m.tag
}

/// The parts of a signed message, or `None` where the bytes are no envelope
/// with at least a counter behind it.
pub open spec fn unsigned_spec(bytes: Seq<u8>) -> Option<SignedView> {
    match layers_spec(bytes) {
        None => None,
        Some(l) => if l.trailer.len() < COUNTER_LEN {
            None
        } else {
            Some(
                SignedView {
                    envelope: envelope_of(l.domain, l.payload),
                    counter: be64_value(l.trailer.subrange(0, COUNTER_LEN as int)),
                    tag: l.trailer.subrange(COUNTER_LEN as int, l.trailer.len() as int),
                },
            )
        },
    }
}

/// A result with its bytes seen as a sequence.
pub open spec fn bytes_result(r: Result<Vec<u8>, ChannelError>) -> Result<Seq<u8>, ChannelError> {
    match r {
        Ok(bytes) => Ok(bytes@),
        Err(e) => Err(e),
    }
}

/// A result with its envelope seen as a value.
pub open spec fn envelope_result(r: Result<Envelope, ChannelError>) -> Result<
    EnvelopeView,
    ChannelError,
> {
    match r {
        Ok(envelope) => Ok(envelope@),
        Err(e) => Err(e),
    }
}

impl SessionView {
    /// Keys are separated by direction: the same key never serves both.
    pub open spec fn wf(self) -> bool {
        self.send_key != self.recv_key
    }

    /// Whether the validity window has passed at tick `now`.
    pub open spec fn expired(self, now: u64) -> bool {
        now - self.created_at > self.expiry.max_age || now - self.last_used > self.expiry.max_idle
    }

    /// Whether every outgoing counter has been used.
    pub open spec fn exhausted(self) -> bool {
        self.sent == u64::MAX
    }

    /// The session after a use at tick `now`.
    pub open spec fn touched(self, now: u64) -> SessionView {
        SessionView {
            last_used: if now > self.last_used {
                now
            } else {
                self.last_used
            },
            ..self
        }
    }

    /// Signing at tick `now`, where `tag` is what the policy returns for the
    /// signing input: the session afterwards, and the signed bytes or the
    /// error. Only success changes the session.
    pub open spec fn sign_spec(self, e: EnvelopeView, tag: Seq<u8>, now: u64) -> (
        SessionView,
        Result<Seq<u8>, ChannelError>,
    ) {
        if self.expired(now) || self.exhausted() {
            (self, Err(ChannelError::SessionExpired))
        } else if e.payload.len() > MAX_PAYLOAD_LEN {
            (self, Err(ChannelError::MalformedMessage))
        } else {
            let counter = (self.sent + 1) as u64;
            (
                SessionView { sent: counter, ..self.touched(now) },
                Ok(signed_spec(SignedView { envelope: e, counter, tag })),
            )
        }
    }

    /// What signing asks of the policy: the tag of header, payload and next
    /// counter under the send key, where signing is not refused.
    pub open spec fn sign_queries(self, e: EnvelopeView, tag: Seq<u8>, now: u64) -> Seq<Query> {
        if self.sign_spec(e, tag, now).1 is Ok {
            seq![
                Query::Tag {
                    key: self.send_key,
                    message: signing_input_spec(e, (self.sent + 1) as u64),
                    tag,
                },
            ]
        } else {
            Seq::empty()
        }
    }

    /// What stands in the way of a message before its tag is looked at.
    pub open spec fn precheck_spec(self, bytes: Seq<u8>, now: u64) -> Option<ChannelError> {
        if self.expired(now) {
            Some(ChannelError::SessionExpired)
        } else {
            match unsigned_spec(bytes) {
                None => Some(ChannelError::MalformedMessage),
                Some(m) => if m.counter <= self.accepted {
                    Some(ChannelError::ReplayRejected)
                } else {
                    None
                },
            }
        }
    }

    /// What verifying asks of the policy: the tag of the message's header,
    /// payload and counter under the receive key, where the message is not
    /// rejected before its tag is looked at.
    pub open spec fn verify_queries(self, bytes: Seq<u8>, expected: Seq<u8>, now: u64) -> Seq<
        Query,
    > {
        if self.precheck_spec(bytes, now) is None {
            let m = unsigned_spec(bytes).unwrap();
            seq![
                Query::Tag {
                    key: self.recv_key,
                    message: signing_input_spec(m.envelope, m.counter),
                    tag: expected,
                },
            ]
        } else {
            Seq::empty()
        }
    }

    /// Verifying at tick `now`, where `expected` is the tag that the policy
    /// computes for the message's signing input under the receive key: the
    /// session afterwards, and the envelope or the error. Only success changes
    /// the session.
    pub open spec fn verify_spec(self, bytes: Seq<u8>, expected: Seq<u8>, now: u64) -> (
        SessionView,
        Result<EnvelopeView, ChannelError>,
    ) {
        match self.precheck_spec(bytes, now) {
            Some(e) => (self, Err(e)),
            None => {
                let m = unsigned_spec(bytes).unwrap();
                if m.tag != expected {
                    (self, Err(ChannelError::AuthenticationFailed))
                } else {
                    (SessionView { accepted: m.counter, ..self.touched(now) }, Ok(m.envelope))
                }
            },
        }
    }
}

/// Whether two byte strings are equal. Every byte is looked at, wherever the
/// first difference is.
pub fn bytes_equal(a: &[u8], b: &[u8]) -> (r: bool)
    ensures
        r == (a@ == b@),
{
    if a.len() != b.len() {
        return false;
    }
    let mut difference: u8 = 0;
    let mut i: usize = 0;
    while i < a.len()
        invariant
            i <= a@.len() == b@.len(),
            (difference == 0) == (forall|j: int| 0 <= j < i ==> a@[j] == b@[j]),
        decreases a@.len() - i,
    {
        let x: u8 = a[i];
        let y: u8 = b[i];
        let before: u8 = difference;
        difference = difference | (x ^ y);
        assert((before | (x ^ y)) == 0 <==> (before == 0 && x == y)) by (bit_vector);
        i = i + 1;
    }
    proof {
        if difference == 0 {
            assert(a@ =~= b@);
        }
    }
    difference == 0
}

impl View for Session {
    type V = SessionView;

    closed spec fn view(&self) -> SessionView {
        SessionView {
            ephemeral: self.ephemeral@,
            shared_secret: self.shared_secret@,
            send_key: self.send_key@,
            recv_key: self.recv_key@,
            sent: self.sent,
            accepted: self.accepted,
            created_at: self.created_at,
            last_used: self.last_used,
            expiry: self.expiry,
        }
    }
}

impl Session {
    /// A session fresh from a handshake at tick `now`, with both counters at 0.
    /// Fails with `AuthenticationFailed` where the two keys are the same: a
    /// key is never used in both directions.
    pub fn establish(
        ephemeral: KeyPair,
        shared_secret: Vec<u8>,
        send_key: Vec<u8>,
        recv_key: Vec<u8>,
        now: u64,
        expiry: ExpiryPolicy,
    ) -> (r: Result<Session, ChannelError>)
        ensures
            send_key@ == recv_key@ ==> (r matches Err(e) && e
                == ChannelError::AuthenticationFailed),
            send_key@ != recv_key@ ==> r is Ok && r.unwrap()@ == (SessionView {
                ephemeral: ephemeral@,
                shared_secret: shared_secret@,
                send_key: send_key@,
                recv_key: recv_key@,
                sent: 0,
                accepted: 0,
                created_at: now,
                last_used: now,
                expiry,
            }),
    {
        if bytes_equal(send_key.as_slice(), recv_key.as_slice()) {
            return Err(ChannelError::AuthenticationFailed);
        }
        Ok(
            Session {
                ephemeral,
                shared_secret,
                send_key,
                recv_key,
                sent: 0,
                accepted: 0,
                created_at: now,
                last_used: now,
                expiry,
            },
        )
    }

    /// The counter of the last message signed.
    pub fn sent(&self) -> (n: u64)
        ensures
            n == self@.sent,
    {
        self.sent
    }

    /// The counter of the last message accepted.
    pub fn accepted(&self) -> (n: u64)
        ensures
            n == self@.accepted,
    {
        self.accepted
    }

    /// The public half of the ephemeral key pair that the session was made
    /// with.
    pub fn ephemeral_public(&self) -> (key: &Vec<u8>)
        ensures
            key@ == self@.ephemeral.public,
    {
        &self.ephemeral.public
    }

    /// Whether the validity window has passed at tick `now`.
    pub fn is_expired(&self, now: u64) -> (r: bool)
        ensures
            r == self@.expired(now),
    {
        (now > self.created_at && now - self.created_at > self.expiry.max_age) || (now
            > self.last_used && now - self.last_used > self.expiry.max_idle)
    }

    /// Whether the session can sign at tick `now`.
    pub fn can_sign(&self, now: u64) -> (r: bool)
        ensures
            r == !(self@.expired(now) || self@.exhausted()),
    {
        !self.is_expired(now) && self.sent < u64::MAX
    }

    /// Records a use at tick `now`.
    fn touch(&mut self, now: u64)
        ensures
            final(self)@ == old(self)@.touched(now),
    {
        if now > self.last_used {
            self.last_used = now;
        }
    }

    /// The bytes that the tag of the next message is computed over: header,
    /// payload and the counter after the last one used. Fails as signing
    /// would.
    pub fn signing_input(&self, envelope: &Envelope, now: u64) -> (r: Result<Vec<u8>, ChannelError>)
        ensures
            match r {
                Ok(input) => {
                    &&& self@.sign_spec(envelope@, Seq::empty(), now).1 is Ok
                    &&& input@ == signing_input_spec(envelope@, (self@.sent + 1) as u64)
                },
                Err(e) => forall|tag: Seq<u8>| #[trigger]
                    self@.sign_spec(envelope@, tag, now).1 == Err::<Seq<u8>, ChannelError>(e),
            },
    {
        if !self.can_sign(now) {
            return Err(ChannelError::SessionExpired);
        }
        let mut out: Vec<u8> = match encode_envelope(envelope.domain, envelope.payload.as_slice()) {
            Ok(bytes) => bytes,
            Err(e) => {
                return Err(e);
            },
        };
        put_be64(&mut out, self.sent + 1);
        assert(envelope@ == envelope_of(envelope.domain, envelope.payload@));
        Ok(out)
    }

    /// Signs an envelope at tick `now` with a tag that was computed for it.
    ///
    /// The counter goes up by one, and the result is header, payload and
    /// counter with the tag behind them. An expired or used-up session gives
    /// `SessionExpired`, a payload too long for the header `MalformedMessage`;
    /// neither changes the session.
    pub fn sign_with(&mut self, envelope: &Envelope, tag: &[u8], now: u64) -> (r: Result<
        Vec<u8>,
        ChannelError,
    >)
        ensures
            old(self)@.sign_spec(envelope@, tag@, now) == (final(self)@, bytes_result(r)),
    {
        let mut out: Vec<u8> = match self.signing_input(envelope, now) {
            Ok(input) => input,
            Err(e) => {
                return Err(e);
            },
        };
        out.extend_from_slice(tag);
        self.sent = self.sent + 1;
        self.touch(now);
        proof {
            let m = SignedView { envelope: envelope@, counter: self.sent, tag: tag@ };
            assert(out@ =~= signed_spec(m));
            assert(self@ == (SessionView { sent: self.sent, ..old(self)@.touched(now) }));
        }
        Ok(out)
    }

    /// Signs an envelope at tick `now`.
    ///
    /// The policy computes the tag over header, payload and the next counter
    /// under the send key, and the envelope is then signed with it as
    /// [`Session::sign_with`] says. The policy is not asked where signing is
    /// refused.
    pub fn sign<P: CryptoPolicy>(&mut self, policy: &P, envelope: &Envelope, now: u64) -> (r:
        Result<Vec<u8>, ChannelError>)
        ensures
            exists|tag: Seq<u8>|
                {
                    &&& #[trigger] old(self)@.sign_spec(envelope@, tag, now) == (
                        final(self)@,
                        bytes_result(r),
                    )
                    &&& all_answered_by(policy, old(self)@.sign_queries(envelope@, tag, now))
                },
    {
        let tag: Vec<u8> = match self.signing_input(envelope, now) {
            Ok(input) => policy.tag(self.send_key.as_slice(), input.as_slice()),
            Err(_) => Vec::new(),
        };
        let r = self.sign_with(envelope, tag.as_slice(), now);
        proof {
            assert(old(self)@.sign_spec(envelope@, tag@, now) == (self@, bytes_result(r)));
            assert(all_answered_by(policy, old(self)@.sign_queries(envelope@, tag@, now)));
        }
        r
    }

    /// Looks at a signed message up to its tag. Returns the envelope, the
    /// counter and the length of the signing input, or the error that keeps
    /// the message from being verified at all.
    fn precheck(&self, signed: &[u8], now: u64) -> (r: Result<(Envelope, u64, usize), ChannelError>)
        ensures
            match r {
                Ok((envelope, counter, input_len)) => {
                    &&& self@.precheck_spec(signed@, now) is None
                    &&& envelope@ == unsigned_spec(signed@).unwrap().envelope
                    &&& counter == unsigned_spec(signed@).unwrap().counter
                    &&& input_len <= signed@.len()
                    &&& signed@.subrange(0, input_len as int) == signing_input_spec(
                        envelope@,
                        counter,
                    )
                    &&& signed@.subrange(input_len as int, signed@.len() as int)
                        == unsigned_spec(signed@).unwrap().tag
                },
                Err(e) => self@.precheck_spec(signed@, now) == Some(e),
            },
    {
        if self.is_expired(now) {
            return Err(ChannelError::SessionExpired);
        }
        let (envelope, rest) = match split(signed) {
            Ok(parts) => parts,
            Err(e) => {
                return Err(e);
            },
        };
        if signed.len() - rest < COUNTER_LEN {
            return Err(ChannelError::MalformedMessage);
        }
        let counter: u64 = get_be64(signed, rest);
        proof {
            let l = layers_spec(signed@).unwrap();
            crate::codec::lemma_envelope_of_layers(signed@);
            crate::wire::lemma_be64_canonical(l.trailer.subrange(0, COUNTER_LEN as int));
            assert(l.trailer.subrange(0, COUNTER_LEN as int) =~= signed@.subrange(
                rest as int,
                rest + COUNTER_LEN,
            ));
            assert(signed@.subrange(0, rest + COUNTER_LEN) =~= signing_input_spec(
                envelope@,
                counter,
            ));
            assert(signed@.subrange(rest + COUNTER_LEN, signed@.len() as int)
                =~= l.trailer.subrange(COUNTER_LEN as int, l.trailer.len() as int));
        }
        if counter <= self.accepted {
            return Err(ChannelError::ReplayRejected);
        }
        Ok((envelope, counter, rest + COUNTER_LEN))
    }

    /// Verifies a signed message at tick `now` against the tag that is
    /// expected for it.
    ///
    /// In this order: an expired session gives `SessionExpired`; bytes that
    /// are no signed message give `MalformedMessage`; a counter that is not
    /// above the last accepted one gives `ReplayRejected`; a tag other than
    /// `expected` gives `AuthenticationFailed`. Otherwise the envelope is
    /// returned and the counter becomes the last accepted one. No failure
    /// changes the session.
    pub fn verify_against(&mut self, signed: &[u8], expected: &[u8], now: u64) -> (r: Result<
        Envelope,
        ChannelError,
    >)
        ensures
            old(self)@.verify_spec(signed@, expected@, now) == (final(self)@, envelope_result(r)),
    {
        let (envelope, counter, input_len) = match self.precheck(signed, now) {
            Ok(parts) => parts,
            Err(e) => {
                return Err(e);
            },
        };
        let tag = slice_subrange(signed, input_len, signed.len());
        if !bytes_equal(tag, expected) {
            return Err(ChannelError::AuthenticationFailed);
        }
        self.accepted = counter;
        self.touch(now);
        Ok(envelope)
    }

    /// Verifies a signed message at tick `now`.
    ///
    /// The policy computes the tag over the message's header, payload and
    /// counter under the receive key, and the message is then held against it
    /// as [`Session::verify_against`] says. The policy is not asked where the
    /// message is rejected before its tag is looked at.
    pub fn verify<P: CryptoPolicy>(&mut self, policy: &P, signed: &[u8], now: u64) -> (r: Result<
        Envelope,
        ChannelError,
    >)
        ensures
            exists|expected: Seq<u8>|
                {
                    &&& #[trigger] old(self)@.verify_spec(signed@, expected, now) == (
                        final(self)@,
                        envelope_result(r),
                    )
                    &&& all_answered_by(policy, old(self)@.verify_queries(signed@, expected, now))
                },
            old(self)@.precheck_spec(signed@, now) matches Some(e) ==> r == Err::<
                Envelope,
                ChannelError,
            >(e) && final(self)@ == old(self)@,
    {
        let expected: Vec<u8> = match self.precheck(signed, now) {
            Ok((_, _, input_len)) => policy.tag(
                self.recv_key.as_slice(),
                slice_subrange(signed, 0, input_len),
            ),
            Err(_) => Vec::new(),
        };
        let r = self.verify_against(signed, expected.as_slice(), now);
        proof {
            assert(old(self)@.verify_spec(signed@, expected@, now) == (self@, envelope_result(r)));
            assert(all_answered_by(policy, old(self)@.verify_queries(signed@, expected@, now)));
        }
        r
    }
}

} // verus!
