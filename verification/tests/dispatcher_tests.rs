use hass_tesla_ble::codec::{decode_command, encode, encode_payload, Domain, Envelope};
use hass_tesla_ble::channel::{classify, encode_response, Action, Channel, Inbound};
use hass_tesla_ble::channel_model::{earlier, ChannelConfig, PendingRequest};
use hass_tesla_ble::dispatcher::{Dispatcher, SessionRegistry};
use hass_tesla_ble::error::ChannelError;
use hass_tesla_ble::framer::{fragment, Reassembler};
use hass_tesla_ble::negotiator::{confirmation, peer_key, State, VehicleIdentity, OP_KEY_EXCHANGE};
use hass_tesla_ble::session::{CryptoPolicy, Direction, ExpiryPolicy, KeyPair, Session};

const MAX_WRITE: usize = 20;
const OP_LOCK: u16 = 0x0101;
const OP_HONK: u16 = 0x0202;

/// A toy policy: the public key is the private key, the secret is the two
/// private keys combined, and the tag is a keyed checksum.
struct ToyPolicy {
    next: u8,
}

impl CryptoPolicy for ToyPolicy {
    fn generate_keypair(&mut self) -> KeyPair {
        self.next = self.next.wrapping_add(1);
        KeyPair { private: vec![self.next], public: vec![self.next] }
    }

    fn agree(&self, local_private: &[u8], peer_public: &[u8]) -> Option<Vec<u8>> {
        if peer_public.len() != 1 {
            return None;
        }
        Some(vec![local_private[0] ^ peer_public[0], 0x77])
    }

    fn derive_key(&self, secret: &[u8], direction: Direction) -> Vec<u8> {
        let mut key = secret.to_vec();
        key.push(match direction {
            Direction::ToVehicle => 1,
            Direction::FromVehicle => 2,
        });
        key
    }

    fn tag(&self, key: &[u8], message: &[u8]) -> Vec<u8> {
        let mut a: u32 = 0x811c9dc5;
        for b in key.iter().chain(message.iter()) {
            a = (a ^ (*b as u32)).wrapping_mul(0x01000193);
        }
        a.to_be_bytes().to_vec()
    }
}

fn expiry() -> ExpiryPolicy {
    ExpiryPolicy { max_age: 100_000, max_idle: 10_000 }
}

fn config() -> ChannelConfig {
    ChannelConfig {
        max_write: MAX_WRITE,
        stale_after: 50,
        handshake_timeout: 30,
        expiry: expiry(),
        max_attempts: 2,
        first_request: 0,
    }
}

fn identity(id: &[u8]) -> VehicleIdentity {
    VehicleIdentity { id: id.to_vec(), long_term_key: None }
}

/// The vehicle at the other end of the link.
struct Vehicle {
    policy: ToyPolicy,
    session: Option<Session>,
    buffer: Reassembler,
}

impl Vehicle {
    fn new() -> Vehicle {
        Vehicle {
            policy: ToyPolicy { next: 0 },
            session: None,
            buffer: Reassembler::new(MAX_WRITE, 1000).unwrap(),
        }
    }

    /// The message that the fragments of a `Send` action make up.
    fn hear(&mut self, actions: &[Action], now: u64) -> Vec<u8> {
        let mut sends = actions.iter().filter_map(|a| match a {
            Action::Send { fragments } => Some(fragments),
            _ => None,
        });
        let fragments = sends.next().expect("something is sent");
        assert!(sends.next().is_none());
        let mut whole = None;
        for f in fragments {
            assert!(f.len() <= MAX_WRITE);
            assert!(whole.is_none());
            whole = self.buffer.accept(f, now).unwrap();
        }
        whole.expect("the fragments make up a message")
    }

    /// Answers the controller's key exchange with the vehicle's key.
    fn exchange(&mut self, key_exchange: &[u8], now: u64) -> Vec<u8> {
        let controller_public = peer_key(key_exchange).unwrap();
        let ours = KeyPair { private: vec![0x42], public: vec![0x42] };
        let secret = self.policy.agree(&ours.private, &controller_public).unwrap();
        let send = self.policy.derive_key(&secret, Direction::FromVehicle);
        let recv = self.policy.derive_key(&secret, Direction::ToVehicle);
        let reply = encode(Domain::AccessControl, OP_KEY_EXCHANGE, &ours.public).unwrap();
        self.session = Some(Session::establish(ours, secret, send, recv, now, expiry()).unwrap());
        reply
    }

    fn verify(&mut self, signed: &[u8], now: u64) -> Envelope {
        self.session.as_mut().unwrap().verify(&self.policy, signed, now).unwrap()
    }

    fn sign(&mut self, envelope: &Envelope, now: u64) -> Vec<u8> {
        self.session.as_mut().unwrap().sign(&self.policy, envelope, now).unwrap()
    }

    fn accepted(&self) -> u64 {
        self.session.as_ref().unwrap().accepted()
    }

    /// Signs a reply to the command that was verified last.
    fn reply(&mut self, domain: Domain, result: &[u8], now: u64) -> Vec<u8> {
        let payload = encode_response(self.accepted(), result).unwrap();
        self.sign(&Envelope { domain, payload }, now)
    }
}

/// Hands a message to the channel fragment by fragment; only the fragment
/// that completes it gives actions.
fn deliver(channel: &mut Channel, policy: &mut ToyPolicy, message: &[u8], now: u64) -> Vec<Action> {
    let fragments = fragment(message, MAX_WRITE).unwrap();
    let last = fragments.len() - 1;
    let mut actions = Vec::new();
    for (i, f) in fragments.iter().enumerate() {
        let got = channel.on_fragment(policy, f, now);
        if i < last {
            assert_eq!(got, vec![]);
        } else {
            actions = got;
        }
    }
    actions
}

/// Runs the handshake that the first command sets off, and returns the
/// actions that follow the vehicle's confirmation.
fn shake_hands(
    channel: &mut Channel,
    policy: &mut ToyPolicy,
    vehicle: &mut Vehicle,
    opening: &[Action],
    now: u64,
) -> Vec<Action> {
    assert_eq!(channel.state(), State::KeyExchangeSent);
    let key_exchange = vehicle.hear(opening, now);
    let reply = vehicle.exchange(&key_exchange, now);
    let actions = deliver(channel, policy, &reply, now);
    assert_eq!(channel.state(), State::KeyExchangeConfirmed);
    let signed = vehicle.hear(&actions, now);
    assert_eq!(vehicle.verify(&signed, now), confirmation());
    let answer = vehicle.sign(&confirmation(), now);
    let actions = deliver(channel, policy, &answer, now);
    assert_eq!(channel.state(), State::Authorized);
    actions
}

fn sent(channel: &Channel) -> u64 {
    channel.negotiator().session().unwrap().sent()
}

/// A channel with an authorized session and nothing under way.
fn ready(policy: &mut ToyPolicy, vehicle: &mut Vehicle, now: u64) -> Channel {
    let mut channel = Channel::new(identity(b"VIN-1"), config()).unwrap();
    let (id, opening) =
        channel.execute(policy, Domain::Infotainment, OP_HONK, &[], 1000, now).unwrap();
    let actions = shake_hands(&mut channel, policy, vehicle, &opening, now);
    let signed = vehicle.hear(&actions, now);
    let command = vehicle.verify(&signed, now);
    assert_eq!(command, Envelope { domain: Domain::Infotainment, payload: vec![2, 2] });
    let ack = vehicle.reply(Domain::Infotainment, &[], now);
    let actions = deliver(&mut channel, policy, &ack, now);
    assert_eq!(actions, vec![Action::Resolve { request: id, outcome: Ok(vec![]) }]);
    assert_eq!(channel.pending(), None);
    assert_eq!(channel.queued(), 0);
    channel
}

#[test]
fn first_command_sets_off_the_handshake_and_goes_out_after_it() {
    let mut policy = ToyPolicy { next: 0x10 };
    let mut vehicle = Vehicle::new();
    let mut channel = Channel::new(identity(b"VIN-1"), config()).unwrap();
    assert_eq!(channel.state(), State::Idle);
    assert_eq!(channel.next_deadline(), None);

    let (id, opening) =
        channel.execute(&mut policy, Domain::AccessControl, OP_LOCK, &[1], 500, 100).unwrap();
    assert_eq!(id, 0);
    assert_eq!(
        opening,
        vec![Action::Send { fragments: vec![vec![0, 0, 0, 0, 0, 6, 2, 0, 3, 0, 1, 0x11]] }]
    );
    assert_eq!(channel.pending(), None);
    assert_eq!(channel.queued(), 1);
    assert_eq!(channel.next_deadline(), Some(130));

    let actions = shake_hands(&mut channel, &mut policy, &mut vehicle, &opening, 101);
    assert_eq!(
        channel.pending(),
        Some(PendingRequest { id: 0, domain: Domain::AccessControl, deadline: 600, counter: 2 })
    );
    assert_eq!(channel.queued(), 0);
    assert_eq!(channel.next_deadline(), Some(600));
    let signed = vehicle.hear(&actions, 102);
    let envelope = vehicle.verify(&signed, 102);
    assert_eq!(envelope, Envelope { domain: Domain::AccessControl, payload: vec![1, 1, 1] });
    assert_eq!(vehicle.accepted(), 2);
    assert_eq!(decode_command(&signed[..6]).unwrap().operation, OP_LOCK);
}

#[test]
fn acknowledged_lock_resolves_success_and_advances_the_counter_by_one() {
    let mut policy = ToyPolicy { next: 0x10 };
    let mut vehicle = Vehicle::new();
    let mut channel = ready(&mut policy, &mut vehicle, 100);
    let before = sent(&channel);

    let (id, actions) =
        channel.execute(&mut policy, Domain::AccessControl, OP_LOCK, &[], 50, 200).unwrap();
    assert_eq!(id, 1);
    assert_eq!(sent(&channel), before + 1);
    let signed = vehicle.hear(&actions, 201);
    assert_eq!(&signed[5..13], &(before + 1).to_be_bytes());
    let command = vehicle.verify(&signed, 201);
    assert_eq!(command.payload, encode_payload(OP_LOCK, &[]).unwrap());

    let ack = vehicle.reply(Domain::AccessControl, &[0xac], 202);
    let actions = deliver(&mut channel, &mut policy, &ack, 250);
    assert_eq!(actions, vec![Action::Resolve { request: id, outcome: Ok(vec![0xac]) }]);
    assert_eq!(channel.pending(), None);
    assert_eq!(sent(&channel), before + 1);
    assert_eq!(channel.state(), State::Authorized);
}

#[test]
fn tampered_payload_fails_the_request_and_delivers_nothing() {
    let mut policy = ToyPolicy { next: 0x10 };
    let mut vehicle = Vehicle::new();
    let mut channel = ready(&mut policy, &mut vehicle, 100);
    let (id, actions) =
        channel.execute(&mut policy, Domain::AccessControl, OP_LOCK, &[], 50, 200).unwrap();
    let signed = vehicle.hear(&actions, 201);
    vehicle.verify(&signed, 201);

    let mut ack = vehicle.reply(Domain::AccessControl, &[0xac, 1], 202);
    let last_of_payload = 3 + 2 + 8 + 1;
    ack[last_of_payload] ^= 0x01;
    let actions = deliver(&mut channel, &mut policy, &ack, 203);
    assert_eq!(
        actions,
        vec![Action::Resolve { request: id, outcome: Err(ChannelError::AuthenticationFailed) }]
    );
    assert_eq!(channel.pending(), None);
    // The session is gone; the next command renegotiates.
    assert_eq!(channel.state(), State::Idle);
    assert!(channel.negotiator().session().is_none());
    let (_, actions) =
        channel.execute(&mut policy, Domain::AccessControl, OP_LOCK, &[], 50, 300).unwrap();
    assert_eq!(channel.state(), State::KeyExchangeSent);
    let key_exchange = vehicle.hear(&actions, 300);
    assert_eq!(peer_key(&key_exchange), Some(vec![0x12]));
}

#[test]
fn replayed_response_fails_the_request() {
    let mut policy = ToyPolicy { next: 0x10 };
    let mut vehicle = Vehicle::new();
    let mut channel = ready(&mut policy, &mut vehicle, 100);
    let old = vehicle.sign(&Envelope { domain: Domain::AccessControl, payload: vec![1] }, 150);
    assert_eq!(
        deliver(&mut channel, &mut policy, &old, 150),
        vec![Action::Deliver {
            update: Envelope { domain: Domain::AccessControl, payload: vec![1] }
        }]
    );
    let (id, _) =
        channel.execute(&mut policy, Domain::AccessControl, OP_LOCK, &[], 50, 200).unwrap();
    assert_eq!(
        deliver(&mut channel, &mut policy, &old, 201),
        vec![Action::Resolve { request: id, outcome: Err(ChannelError::ReplayRejected) }]
    );
    assert_eq!(channel.state(), State::Idle);
}

#[test]
fn second_command_waits_for_the_first() {
    let mut policy = ToyPolicy { next: 0x10 };
    let mut vehicle = Vehicle::new();
    let mut channel = ready(&mut policy, &mut vehicle, 100);
    let before = sent(&channel);

    let (first, actions) =
        channel.execute(&mut policy, Domain::AccessControl, OP_LOCK, &[], 50, 200).unwrap();
    let first_signed = vehicle.hear(&actions, 200);
    let (second, actions) =
        channel.execute(&mut policy, Domain::Infotainment, OP_HONK, &[3], 50, 200).unwrap();
    assert_eq!(second, first + 1);
    assert_eq!(actions, vec![]);
    assert_eq!(channel.queued(), 1);
    assert_eq!(channel.pending().unwrap().id, first);
    assert_eq!(sent(&channel), before + 1);

    assert_eq!(vehicle.verify(&first_signed, 201).domain, Domain::AccessControl);
    let ack = vehicle.reply(Domain::AccessControl, &[], 202);
    let actions = deliver(&mut channel, &mut policy, &ack, 203);
    assert_eq!(actions.len(), 2);
    assert_eq!(actions[0], Action::Resolve { request: first, outcome: Ok(vec![]) });
    let second_signed = vehicle.hear(&actions[1..], 203);
    assert_eq!(channel.pending().unwrap().id, second);
    assert_eq!(channel.queued(), 0);

    // The counters on the wire follow each other.
    assert_eq!(&first_signed[5..13], &(before + 1).to_be_bytes());
    assert_eq!(&second_signed[6..14], &(before + 2).to_be_bytes());
    assert_eq!(
        vehicle.verify(&second_signed, 204),
        Envelope { domain: Domain::Infotainment, payload: vec![2, 2, 3] }
    );
}

#[test]
fn second_command_goes_out_when_the_first_times_out() {
    let mut policy = ToyPolicy { next: 0x10 };
    let mut vehicle = Vehicle::new();
    let mut channel = ready(&mut policy, &mut vehicle, 100);
    let (first, _) =
        channel.execute(&mut policy, Domain::AccessControl, OP_LOCK, &[], 50, 200).unwrap();
    let (second, actions) =
        channel.execute(&mut policy, Domain::Infotainment, OP_HONK, &[], 500, 210).unwrap();
    assert_eq!(actions, vec![]);
    assert_eq!(channel.next_deadline(), Some(250));
    assert_eq!(channel.on_tick(&mut policy, 250), vec![]);

    let actions = channel.on_tick(&mut policy, 251);
    assert_eq!(actions.len(), 2);
    assert_eq!(
        actions[0],
        Action::Resolve { request: first, outcome: Err(ChannelError::Timeout) }
    );
    let signed = vehicle.hear(&actions[1..], 251);
    assert_eq!(vehicle.verify(&signed, 251).domain, Domain::Infotainment);
    assert_eq!(
        channel.pending(),
        Some(PendingRequest {
            id: second,
            domain: Domain::Infotainment,
            deadline: 710,
            counter: 4,
        })
    );
}

#[test]
fn late_response_resolves_nothing() {
    let mut policy = ToyPolicy { next: 0x10 };
    let mut vehicle = Vehicle::new();
    let mut channel = ready(&mut policy, &mut vehicle, 100);
    let (id, actions) =
        channel.execute(&mut policy, Domain::AccessControl, OP_LOCK, &[], 50, 200).unwrap();
    let signed = vehicle.hear(&actions, 200);
    vehicle.verify(&signed, 200);
    let ack = vehicle.reply(Domain::AccessControl, &[7], 202);
    // The response arrives after the deadline, before any tick.
    let actions = deliver_all(&mut channel, &mut policy, &ack, 251);
    assert_eq!(
        actions,
        vec![
            Action::Resolve { request: id, outcome: Err(ChannelError::Timeout) },
            Action::Report { error: ChannelError::UnmatchedReply },
        ]
    );
    assert_eq!(channel.pending(), None);
}

#[test]
fn late_response_does_not_resolve_the_next_request() {
    let mut policy = ToyPolicy { next: 0x10 };
    let mut vehicle = Vehicle::new();
    let mut channel = ready(&mut policy, &mut vehicle, 100);
    let (first, actions) =
        channel.execute(&mut policy, Domain::AccessControl, OP_LOCK, &[], 50, 200).unwrap();
    let first_signed = vehicle.hear(&actions, 200);
    vehicle.verify(&first_signed, 200);
    let late = vehicle.reply(Domain::AccessControl, &[1], 201);

    // The first request times out, and the next one, to the same domain,
    // goes out.
    let (second, actions) =
        channel.execute(&mut policy, Domain::AccessControl, OP_LOCK, &[], 500, 260).unwrap();
    assert_eq!(actions[0], Action::Resolve { request: first, outcome: Err(ChannelError::Timeout) });
    let second_signed = vehicle.hear(&actions[1..], 260);
    assert_eq!(channel.pending().unwrap().id, second);
    assert_eq!(channel.pending().unwrap().counter, sent(&channel));

    // The reply to the first arrives now: it resolves nothing.
    assert_eq!(
        deliver(&mut channel, &mut policy, &late, 261),
        vec![Action::Report { error: ChannelError::UnmatchedReply }]
    );
    assert_eq!(channel.pending().unwrap().id, second);
    assert_eq!(channel.state(), State::Authorized);

    // The reply to the second resolves the second.
    vehicle.verify(&second_signed, 262);
    let ack = vehicle.reply(Domain::AccessControl, &[2], 262);
    assert_eq!(
        deliver(&mut channel, &mut policy, &ack, 263),
        vec![Action::Resolve { request: second, outcome: Ok(vec![2]) }]
    );
    assert_eq!(channel.pending(), None);
}

#[test]
fn reply_from_another_domain_or_without_a_counter_resolves_nothing() {
    let mut policy = ToyPolicy { next: 0x10 };
    let mut vehicle = Vehicle::new();
    let mut channel = ready(&mut policy, &mut vehicle, 100);
    let (id, actions) =
        channel.execute(&mut policy, Domain::AccessControl, OP_LOCK, &[], 50, 200).unwrap();
    let signed = vehicle.hear(&actions, 200);
    vehicle.verify(&signed, 200);
    let elsewhere = vehicle.reply(Domain::Infotainment, &[1], 201);
    assert_eq!(
        deliver(&mut channel, &mut policy, &elsewhere, 202),
        vec![Action::Report { error: ChannelError::UnmatchedReply }]
    );
    let broken =
        vehicle.sign(&Envelope { domain: Domain::AccessControl, payload: vec![0, 3, 1, 2] }, 203);
    assert_eq!(
        deliver(&mut channel, &mut policy, &broken, 204),
        vec![Action::Report { error: ChannelError::MalformedMessage }]
    );
    assert_eq!(channel.pending().unwrap().id, id);
    // Nothing is in flight any more: a reply is unmatched.
    let ack = vehicle.reply(Domain::AccessControl, &[], 205);
    assert_eq!(
        deliver(&mut channel, &mut policy, &ack, 206),
        vec![Action::Resolve { request: id, outcome: Ok(vec![]) }]
    );
    let again = vehicle.reply(Domain::AccessControl, &[], 207);
    assert_eq!(
        deliver(&mut channel, &mut policy, &again, 208),
        vec![Action::Report { error: ChannelError::UnmatchedReply }]
    );
}

#[test]
fn classify_tells_replies_from_updates() {
    let reply = Envelope {
        domain: Domain::AccessControl,
        payload: vec![0, 3, 0, 0, 0, 0, 0, 0, 1, 2, 0xaa, 0xbb],
    };
    assert_eq!(classify(&reply), Inbound::Reply { counter: 258, result: vec![0xaa, 0xbb] });
    assert_eq!(encode_response(258, &[0xaa, 0xbb]).unwrap(), reply.payload);
    let bare =
        Envelope { domain: Domain::AccessControl, payload: encode_response(7, &[]).unwrap() };
    assert_eq!(classify(&bare), Inbound::Reply { counter: 7, result: vec![] });
    let short =
        Envelope { domain: Domain::AccessControl, payload: vec![0, 3, 1, 2, 3, 4, 5, 6, 7] };
    assert_eq!(classify(&short), Inbound::BrokenReply);
    for payload in [vec![], vec![3], vec![0, 4, 0, 0, 0, 0, 0, 0, 0, 1], vec![3, 0]] {
        let update = Envelope { domain: Domain::Infotainment, payload };
        assert_eq!(classify(&update), Inbound::Update);
    }
    assert_eq!(encode_response(1, &vec![0; 65526]), Err(ChannelError::MalformedMessage));
    assert_eq!(encode_response(1, &vec![0; 65525]).unwrap().len(), 65535);
}

/// Like `deliver`, but collects the actions of every fragment.
fn deliver_all(
    channel: &mut Channel,
    policy: &mut ToyPolicy,
    message: &[u8],
    now: u64,
) -> Vec<Action> {
    let mut actions = Vec::new();
    for f in fragment(message, MAX_WRITE).unwrap() {
        actions.extend(channel.on_fragment(policy, &f, now));
    }
    actions
}

#[test]
fn queued_command_past_its_deadline_times_out_unsent() {
    let mut policy = ToyPolicy { next: 0x10 };
    let mut vehicle = Vehicle::new();
    let mut channel = ready(&mut policy, &mut vehicle, 100);
    let before = sent(&channel);
    let (first, _) =
        channel.execute(&mut policy, Domain::AccessControl, OP_LOCK, &[], 500, 200).unwrap();
    let (second, _) =
        channel.execute(&mut policy, Domain::Infotainment, OP_HONK, &[], 10, 200).unwrap();
    let (third, _) =
        channel.execute(&mut policy, Domain::Infotainment, OP_HONK, &[], 300, 200).unwrap();
    assert_eq!(channel.queued(), 2);
    assert_eq!(channel.next_deadline(), Some(210));
    assert_eq!(
        channel.on_tick(&mut policy, 211),
        vec![Action::Resolve { request: second, outcome: Err(ChannelError::Timeout) }]
    );
    assert_eq!(channel.queued(), 1);
    assert_eq!(channel.pending().unwrap().id, first);
    assert_eq!(channel.next_deadline(), Some(500));
    assert_eq!(sent(&channel), before + 1);
    let actions = channel.on_tick(&mut policy, 701);
    assert_eq!(
        actions,
        vec![
            Action::Resolve { request: first, outcome: Err(ChannelError::Timeout) },
            Action::Resolve { request: third, outcome: Err(ChannelError::Timeout) },
        ]
    );
    assert_eq!(channel.queued(), 0);
    assert_eq!(channel.next_deadline(), None);
}

#[test]
fn unsolicited_update_is_delivered() {
    let mut policy = ToyPolicy { next: 0x10 };
    let mut vehicle = Vehicle::new();
    let mut channel = ready(&mut policy, &mut vehicle, 100);
    let (id, _) =
        channel.execute(&mut policy, Domain::AccessControl, OP_LOCK, &[], 50, 200).unwrap();
    // From another domain than the request went to.
    let update = Envelope { domain: Domain::Infotainment, payload: vec![9, 9] };
    let signed = vehicle.sign(&update, 201);
    assert_eq!(
        deliver(&mut channel, &mut policy, &signed, 202),
        vec![Action::Deliver { update }]
    );
    assert_eq!(channel.pending().unwrap().id, id);
}

#[test]
fn malformed_inbound_is_reported_and_discarded() {
    let mut policy = ToyPolicy { next: 0x10 };
    let mut vehicle = Vehicle::new();
    let mut channel = ready(&mut policy, &mut vehicle, 100);
    assert_eq!(
        channel.on_fragment(&mut policy, &[0], 200),
        vec![Action::Report { error: ChannelError::MalformedMessage }]
    );
    assert_eq!(
        deliver(&mut channel, &mut policy, &[2, 0, 5, 1], 200),
        vec![Action::Report { error: ChannelError::MalformedMessage }]
    );
    assert_eq!(channel.state(), State::Authorized);
}

#[test]
fn message_without_a_handshake_is_reported() {
    let mut policy = ToyPolicy { next: 0x10 };
    let mut channel = Channel::new(identity(b"VIN-1"), config()).unwrap();
    assert_eq!(
        deliver(&mut channel, &mut policy, &[2, 0, 3, 0, 1, 0x42], 1),
        vec![Action::Report { error: ChannelError::NotAuthorized }]
    );
    assert_eq!(channel.state(), State::Idle);
}

#[test]
fn silent_vehicle_fails_the_command_after_the_last_attempt() {
    let mut policy = ToyPolicy { next: 0x10 };
    let mut vehicle = Vehicle::new();
    let mut channel = Channel::new(identity(b"VIN-1"), config()).unwrap();
    let (id, opening) =
        channel.execute(&mut policy, Domain::AccessControl, OP_LOCK, &[], 1000, 100).unwrap();
    let first = peer_key(&vehicle.hear(&opening, 100)).unwrap();
    assert_eq!(channel.on_tick(&mut policy, 130), vec![]);

    // The first timeout is answered with another attempt.
    let actions = channel.on_tick(&mut policy, 131);
    assert_eq!(channel.state(), State::KeyExchangeSent);
    assert_eq!(channel.next_deadline(), Some(161));
    let second = peer_key(&vehicle.hear(&actions, 131)).unwrap();
    assert_ne!(first, second);

    // The second is passed on.
    assert_eq!(
        channel.on_tick(&mut policy, 162),
        vec![Action::Resolve { request: id, outcome: Err(ChannelError::HandshakeTimeout) }]
    );
    assert_eq!(channel.state(), State::Idle);
    assert_eq!(channel.queued(), 0);
}

#[test]
fn failed_write_abandons_what_is_under_way() {
    let mut policy = ToyPolicy { next: 0x10 };
    let mut vehicle = Vehicle::new();
    let mut channel = ready(&mut policy, &mut vehicle, 100);
    let (id, _) =
        channel.execute(&mut policy, Domain::AccessControl, OP_LOCK, &[], 50, 200).unwrap();
    assert_eq!(
        channel.on_link_error(),
        vec![Action::Resolve { request: id, outcome: Err(ChannelError::LinkError) }]
    );
    assert_eq!(channel.pending(), None);
    assert_eq!(channel.state(), State::Authorized);
    assert_eq!(channel.on_link_error(), vec![]);

    // During a handshake the request that it is for fails.
    let mut channel = Channel::new(identity(b"VIN-1"), config()).unwrap();
    let (id, _) =
        channel.execute(&mut policy, Domain::AccessControl, OP_LOCK, &[], 50, 200).unwrap();
    assert_eq!(
        channel.on_link_error(),
        vec![Action::Resolve { request: id, outcome: Err(ChannelError::LinkError) }]
    );
    assert_eq!(channel.state(), State::Idle);
    assert_eq!(channel.queued(), 0);
}

#[test]
fn over_long_parameters_are_refused() {
    let mut policy = ToyPolicy { next: 0x10 };
    let mut channel = Channel::new(identity(b"VIN-1"), config()).unwrap();
    let r = channel.execute(&mut policy, Domain::AccessControl, OP_LOCK, &vec![0; 65534], 50, 1);
    assert_eq!(r, Err(ChannelError::MalformedMessage));
    assert_eq!(channel.queued(), 0);
    assert_eq!(channel.state(), State::Idle);
}

#[test]
fn request_numbers_run_out() {
    let mut policy = ToyPolicy { next: 0x10 };
    let last = ChannelConfig { first_request: u64::MAX - 1, ..config() };
    let mut channel = Channel::new(identity(b"VIN-1"), last).unwrap();
    let (id, _) =
        channel.execute(&mut policy, Domain::AccessControl, OP_LOCK, &[], 50, 1).unwrap();
    assert_eq!(id, u64::MAX - 1);
    let r = channel.execute(&mut policy, Domain::AccessControl, OP_LOCK, &[], 50, 1);
    assert_eq!(r, Err(ChannelError::Exhausted));
    assert_eq!(channel.queued(), 1);
}

#[test]
fn channel_needs_a_usable_link() {
    let narrow = ChannelConfig { max_write: 6, ..config() };
    assert!(matches!(Channel::new(identity(b"VIN-1"), narrow), Err(ChannelError::LinkError)));
}

#[test]
fn vehicles_are_independent() {
    let mut policy = ToyPolicy { next: 0x10 };
    let mut registry = SessionRegistry::new();
    assert_eq!(registry.register(identity(b"VIN-1"), config()), Ok(()));
    assert_eq!(
        registry.register(identity(b"VIN-1"), config()),
        Err(ChannelError::DuplicateVehicle)
    );
    assert_eq!(
        registry.register(identity(b"VIN-3"), ChannelConfig { max_write: 3, ..config() }),
        Err(ChannelError::LinkError)
    );
    assert!(registry.knows(b"VIN-1"));
    assert!(!registry.knows(b"VIN-3"));
    let mut d = Dispatcher::new(registry);
    assert_eq!(d.register(identity(b"VIN-2"), config()), Ok(()));
    assert_eq!(d.register(identity(b"VIN-2"), config()), Err(ChannelError::DuplicateVehicle));
    assert!(d.registry().knows(b"VIN-2"));

    let r = d.execute(&mut policy, b"VIN-9", Domain::AccessControl, OP_LOCK, &[], 50, 1);
    assert_eq!(r, Err(ChannelError::UnknownVehicle));
    assert_eq!(d.on_tick(&mut policy, b"VIN-9", 1), Err(ChannelError::UnknownVehicle));
    assert_eq!(d.on_fragment(&mut policy, b"VIN-9", &[0, 0], 1), Err(ChannelError::UnknownVehicle));
    assert_eq!(d.on_link_error(b"VIN-9"), Err(ChannelError::UnknownVehicle));

    let (id, actions) =
        d.execute(&mut policy, b"VIN-2", Domain::AccessControl, OP_LOCK, &[], 50, 1).unwrap();
    assert_eq!(id, 0);
    assert_eq!(actions.len(), 1);
    assert_eq!(d.registry().channel(b"VIN-2").unwrap().state(), State::KeyExchangeSent);
    assert_eq!(d.registry().channel(b"VIN-2").unwrap().queued(), 1);
    assert_eq!(d.registry().channel(b"VIN-1").unwrap().state(), State::Idle);
    assert_eq!(d.registry().channel(b"VIN-1").unwrap().queued(), 0);
    assert!(d.registry().channel(b"VIN-3").is_none());

    // Each vehicle numbers its own requests and has its own ephemeral key.
    let (id, _) =
        d.execute(&mut policy, b"VIN-1", Domain::AccessControl, OP_LOCK, &[], 50, 2).unwrap();
    assert_eq!(id, 0);
    assert_eq!(
        d.on_link_error(b"VIN-1"),
        Ok(vec![Action::Resolve { request: 0, outcome: Err(ChannelError::LinkError) }])
    );
    assert_eq!(d.registry().channel(b"VIN-2").unwrap().queued(), 1);
    assert_eq!(
        d.on_tick(&mut policy, b"VIN-2", 52),
        Ok(vec![Action::Resolve { request: 0, outcome: Err(ChannelError::Timeout) }])
    );
    let registry = d.into_registry();
    assert_eq!(registry.channel(b"VIN-2").unwrap().queued(), 0);
    assert_eq!(registry.channel(b"VIN-1").unwrap().state(), State::Idle);
}

#[test]
fn earlier_picks_the_smaller_deadline() {
    assert_eq!(earlier(None, None), None);
    assert_eq!(earlier(Some(3), None), Some(3));
    assert_eq!(earlier(None, Some(4)), Some(4));
    assert_eq!(earlier(Some(3), Some(4)), Some(3));
    assert_eq!(earlier(Some(5), Some(4)), Some(4));
}
