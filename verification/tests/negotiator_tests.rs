use hass_tesla_ble::codec::{decode_command, encode, Command, Domain, Envelope};
use hass_tesla_ble::error::ChannelError;
use hass_tesla_ble::negotiator::{
    confirmation, confirmation_input, peer_key, Negotiator, State, VehicleIdentity,
    OP_KEY_EXCHANGE,
};
use hass_tesla_ble::session::{CryptoPolicy, Direction, ExpiryPolicy, KeyPair, Session};

/// A toy policy: the public key is the private key, the secret is the two
/// private keys combined, and the tag is a keyed checksum.
struct ToyPolicy {
    next: u8,
    step: u8,
}

impl CryptoPolicy for ToyPolicy {
    fn generate_keypair(&mut self) -> KeyPair {
        self.next = self.next.wrapping_add(self.step);
        KeyPair { private: vec![self.next], public: vec![self.next] }
    }

    fn agree(&self, local_private: &[u8], peer_public: &[u8]) -> Option<Vec<u8>> {
        if peer_public.len() != 1 || peer_public[0] == 0 {
            return None;
        }
        Some(vec![local_private[0] ^ peer_public[0], 0x77])
    }

    fn derive_key(&self, secret: &[u8], direction: Direction) -> Vec<u8> {
        let mut key = secret.to_vec();
        key.push(match direction {
            Direction::ToVehicle => 1,
            Direction::FromVehicle => 2,
        });
        key
    }

    fn tag(&self, key: &[u8], message: &[u8]) -> Vec<u8> {
        let mut a: u32 = 0x811c9dc5;
        for b in key.iter().chain(message.iter()) {
            a = (a ^ (*b as u32)).wrapping_mul(0x01000193);
        }
        a.to_be_bytes().to_vec()
    }
}

fn policy() -> ToyPolicy {
    ToyPolicy { next: 0x10, step: 1 }
}

fn expiry() -> ExpiryPolicy {
    ExpiryPolicy { max_age: 10_000, max_idle: 1_000 }
}

fn negotiator() -> Negotiator {
    Negotiator::new(
        VehicleIdentity { id: b"5YJ3E1EA7KF000001".to_vec(), long_term_key: None },
        30,
        expiry(),
    )
}

/// The vehicle's side of a handshake that `key_exchange` opens.
fn vehicle_session(policy: &ToyPolicy, key_exchange: &[u8], now: u64) -> (Session, Vec<u8>) {
    let controller_public = peer_key(key_exchange).unwrap();
    let ours = KeyPair { private: vec![0x42], public: vec![0x42] };
    let secret = policy.agree(&ours.private, &controller_public).unwrap();
    let send = policy.derive_key(&secret, Direction::FromVehicle);
    let recv = policy.derive_key(&secret, Direction::ToVehicle);
    let reply = encode(Domain::AccessControl, OP_KEY_EXCHANGE, &ours.public).unwrap();
    (Session::establish(ours, secret, send, recv, now, expiry()).unwrap(), reply)
}

#[test]
fn handshake_reaches_authorized() {
    let mut policy = policy();
    let mut n = negotiator();
    assert_eq!(n.state(), State::Idle);
    assert!(!n.is_authorized());
    assert_eq!(n.deadline(), None);

    let key_exchange = n.start(&mut policy, 100).unwrap();
    assert_eq!(key_exchange, vec![2, 0, 3, 0, 1, 0x11]);
    assert_eq!(n.state(), State::KeyExchangeSent);
    assert_eq!(n.deadline(), Some(130));
    assert_eq!(n.ephemeral_public(), Some(&vec![0x11]));

    let (mut vehicle, reply) = vehicle_session(&policy, &key_exchange, 101);
    let signed = n.receive_key(&policy, &reply, 102).unwrap();
    assert_eq!(n.state(), State::KeyExchangeConfirmed);
    assert_eq!(n.deadline(), Some(130));
    assert_eq!(vehicle.verify(&policy, &signed, 103).unwrap(), confirmation());
    assert_eq!(vehicle.accepted(), 1);

    let answer = vehicle.sign(&policy, &confirmation(), 104).unwrap();
    assert_eq!(n.receive_confirmation(&policy, &answer, 105), Ok(()));
    assert_eq!(n.state(), State::Authorized);
    assert!(n.is_authorized());
    assert_eq!(n.deadline(), None);
    let session = n.session().unwrap();
    assert_eq!(session.sent(), 1);
    assert_eq!(session.accepted(), 1);
    assert_eq!(session.ephemeral_public(), &vec![0x11]);
}

#[test]
fn confirmation_is_the_first_message_of_its_session() {
    assert_eq!(confirmation(), Envelope { domain: Domain::AccessControl, payload: vec![0, 2] });
    assert_eq!(confirmation_input(), vec![2, 0, 2, 0, 2, 0, 0, 0, 0, 0, 0, 0, 1]);
}

#[test]
fn peer_key_reads_only_key_exchange_messages() {
    assert_eq!(peer_key(&[2, 0, 4, 0, 1, 8, 9]), Some(vec![8, 9]));
    assert_eq!(peer_key(&[2, 0, 2, 0, 1]), Some(vec![]));
    assert_eq!(peer_key(&[3, 0, 4, 0, 1, 8, 9]), None);
    assert_eq!(peer_key(&[2, 0, 4, 0, 2, 8, 9]), None);
    assert_eq!(peer_key(&[2, 0, 4, 0, 1, 8]), None);
    assert_eq!(
        decode_command(&[2, 0, 4, 0, 1, 8, 9]).unwrap(),
        Command { domain: Domain::AccessControl, operation: 1, parameters: vec![8, 9] }
    );
}

#[test]
fn silent_handshake_fails_at_its_deadline_and_is_retried_with_a_fresh_key() {
    let mut policy = policy();
    let mut n = negotiator();
    n.start(&mut policy, 100).unwrap();
    let first = n.ephemeral_public().unwrap().clone();
    assert!(!n.tick(130));
    assert_eq!(n.state(), State::KeyExchangeSent);
    assert!(n.tick(131));
    assert_eq!(n.state(), State::Failed);
    assert_eq!(n.failure(), Some(ChannelError::HandshakeTimeout));
    assert_eq!(n.start(&mut policy, 132), Err(ChannelError::UnexpectedState));
    n.reset();
    assert_eq!(n.state(), State::Idle);
    n.start(&mut policy, 133).unwrap();
    let second = n.ephemeral_public().unwrap().clone();
    assert_ne!(first, second);
    assert!(n.key_used(&first));
    assert!(n.key_used(&second));
}

#[test]
fn reused_ephemeral_key_is_refused() {
    // A policy that makes the same key pair every time.
    let mut stuck = ToyPolicy { next: 0x10, step: 0 };
    let mut n = negotiator();
    n.start(&mut stuck, 0).unwrap();
    n.reset();
    assert_eq!(n.start(&mut stuck, 1), Err(ChannelError::KeyReused));
    assert_eq!(n.state(), State::Idle);
    assert_eq!(
        n.begin(KeyPair { private: vec![1], public: vec![0x10] }, 2),
        Err(ChannelError::KeyReused)
    );
    assert!(n.begin(KeyPair { private: vec![1], public: vec![0x20] }, 2).is_ok());
}

#[test]
fn late_or_malformed_key_fails_the_handshake() {
    let mut policy = policy();
    let mut n = negotiator();
    let key_exchange = n.start(&mut policy, 100).unwrap();
    let (_, reply) = vehicle_session(&policy, &key_exchange, 101);
    assert_eq!(n.receive_key(&policy, &reply, 131), Err(ChannelError::HandshakeTimeout));
    assert_eq!(n.failure(), Some(ChannelError::HandshakeTimeout));

    n.reset();
    n.start(&mut policy, 200).unwrap();
    assert_eq!(n.receive_key(&policy, &[2, 0, 1, 9], 201), Err(ChannelError::MalformedMessage));
    assert_eq!(n.failure(), Some(ChannelError::MalformedMessage));

    // A key that the policy does not accept.
    n.reset();
    n.start(&mut policy, 300).unwrap();
    let zero = encode(Domain::AccessControl, OP_KEY_EXCHANGE, &[0]).unwrap();
    assert_eq!(n.receive_key(&policy, &zero, 301), Err(ChannelError::AuthenticationFailed));
    assert_eq!(n.failure(), Some(ChannelError::AuthenticationFailed));
}

#[test]
fn same_key_in_both_directions_fails_the_handshake() {
    let mut policy = policy();
    let mut n = negotiator();
    let key_exchange = n.start(&mut policy, 100).unwrap();
    let (_, reply) = vehicle_session(&policy, &key_exchange, 101);
    let r = n.receive_key_with(&reply, Some(vec![1]), vec![5, 5], vec![5, 5], &[0], 102);
    assert_eq!(r, Err(ChannelError::AuthenticationFailed));
    assert_eq!(n.state(), State::Failed);
}

#[test]
fn forged_confirmation_fails_the_handshake() {
    let mut policy = policy();
    let mut n = negotiator();
    let key_exchange = n.start(&mut policy, 100).unwrap();
    let (mut vehicle, reply) = vehicle_session(&policy, &key_exchange, 101);
    n.receive_key(&policy, &reply, 102).unwrap();
    let mut answer = vehicle.sign(&policy, &confirmation(), 104).unwrap();
    let last = answer.len() - 1;
    answer[last] ^= 1;
    assert_eq!(
        n.receive_confirmation(&policy, &answer, 105),
        Err(ChannelError::AuthenticationFailed)
    );
    assert_eq!(n.state(), State::Failed);
    assert!(n.session().is_none());
}

#[test]
fn authentic_message_that_is_no_confirmation_fails_the_handshake() {
    let mut policy = policy();
    let mut n = negotiator();
    let key_exchange = n.start(&mut policy, 100).unwrap();
    let (mut vehicle, reply) = vehicle_session(&policy, &key_exchange, 101);
    n.receive_key(&policy, &reply, 102).unwrap();
    let other = Envelope { domain: Domain::AccessControl, payload: vec![0, 9] };
    let answer = vehicle.sign(&policy, &other, 104).unwrap();
    assert_eq!(n.receive_confirmation(&policy, &answer, 105), Err(ChannelError::MalformedMessage));
    assert_eq!(n.failure(), Some(ChannelError::MalformedMessage));
}

#[test]
fn steps_out_of_order_are_refused_and_change_nothing() {
    let mut policy = policy();
    let mut n = negotiator();
    assert_eq!(n.receive_key(&policy, &[2, 0, 3, 0, 1, 7], 1), Err(ChannelError::UnexpectedState));
    assert_eq!(n.receive_confirmation(&policy, &[1, 2, 3], 1), Err(ChannelError::UnexpectedState));
    assert_eq!(n.state(), State::Idle);
    let e = Envelope { domain: Domain::Infotainment, payload: vec![0, 1] };
    assert_eq!(n.sign(&policy, &e, 1), Err(ChannelError::NotAuthorized));
    assert_eq!(n.verify(&policy, &[1, 2, 3], 1), Err(ChannelError::NotAuthorized));
    n.start(&mut policy, 2).unwrap();
    assert_eq!(n.sign(&policy, &e, 3), Err(ChannelError::NotAuthorized));
    assert_eq!(n.receive_confirmation(&policy, &[1, 2, 3], 3), Err(ChannelError::UnexpectedState));
    assert_eq!(n.state(), State::KeyExchangeSent);
}

fn authorized(policy: &mut ToyPolicy, now: u64) -> (Negotiator, Session) {
    let mut n = negotiator();
    let key_exchange = n.start(policy, now).unwrap();
    let (mut vehicle, reply) = vehicle_session(policy, &key_exchange, now);
    let signed = n.receive_key(policy, &reply, now).unwrap();
    vehicle.verify(policy, &signed, now).unwrap();
    let answer = vehicle.sign(policy, &confirmation(), now).unwrap();
    n.receive_confirmation(policy, &answer, now).unwrap();
    (n, vehicle)
}

#[test]
fn failed_authentication_destroys_the_session() {
    let mut policy = policy();
    let (mut n, mut vehicle) = authorized(&mut policy, 10);
    let update = Envelope { domain: Domain::Infotainment, payload: vec![0, 5, 1] };
    let mut signed = vehicle.sign(&policy, &update, 11).unwrap();
    signed[5] ^= 0x80;
    assert_eq!(n.verify(&policy, &signed, 12), Err(ChannelError::AuthenticationFailed));
    assert_eq!(n.state(), State::Idle);
    assert!(n.session().is_none());
}

#[test]
fn malformed_message_leaves_the_session() {
    let mut policy = policy();
    let (mut n, _) = authorized(&mut policy, 10);
    assert_eq!(n.verify(&policy, &[2, 0, 9, 1], 12), Err(ChannelError::MalformedMessage));
    assert_eq!(n.state(), State::Authorized);
    assert_eq!(n.session().unwrap().accepted(), 1);
}

#[test]
fn expired_session_is_destroyed_on_use() {
    let mut policy = policy();
    let (mut n, _) = authorized(&mut policy, 10);
    let e = Envelope { domain: Domain::Infotainment, payload: vec![0, 1] };
    assert!(n.sign(&policy, &e, 1010).is_ok());
    assert_eq!(n.sign(&policy, &e, 2011), Err(ChannelError::SessionExpired));
    assert_eq!(n.state(), State::Idle);
}
