use hass_tesla_ble::codec::{Domain, Envelope};
use hass_tesla_ble::error::ChannelError;
use hass_tesla_ble::session::{
    bytes_equal, CryptoPolicy, Direction, ExpiryPolicy, KeyPair, Session,
};

/// A keyed checksum, good enough to tell a changed byte or another key.
struct ToyPolicy {
    seed: u8,
}

impl CryptoPolicy for ToyPolicy {
    fn generate_keypair(&mut self) -> KeyPair {
        self.seed = self.seed.wrapping_add(1);
        KeyPair { private: vec![self.seed, 1], public: vec![self.seed, 2] }
    }

    fn agree(&self, local_private: &[u8], peer_public: &[u8]) -> Option<Vec<u8>> {
        if peer_public.is_empty() {
            return None;
        }
        Some(vec![local_private[0] ^ peer_public[0], 7])
    }

    fn derive_key(&self, secret: &[u8], direction: Direction) -> Vec<u8> {
        let mut key = secret.to_vec();
        key.push(match direction {
            Direction::ToVehicle => 1,
            Direction::FromVehicle => 2,
        });
        key
    }

    fn tag(&self, key: &[u8], message: &[u8]) -> Vec<u8> {
        let mut a: u32 = 0x811c9dc5;
        for b in key.iter().chain(message.iter()) {
            a = (a ^ (*b as u32)).wrapping_mul(0x01000193);
        }
        a.to_be_bytes().to_vec()
    }
}

fn pair(now: u64) -> (Session, Session) {
    let expiry = ExpiryPolicy { max_age: 1000, max_idle: 100 };
    let ours = Session::establish(
        KeyPair { private: vec![1], public: vec![2] },
        vec![9],
        vec![10, 11],
        vec![20, 21],
        now,
        expiry,
    )
    .unwrap();
    let theirs = Session::establish(
        KeyPair { private: vec![3], public: vec![4] },
        vec![9],
        vec![20, 21],
        vec![10, 11],
        now,
        expiry,
    )
    .unwrap();
    (ours, theirs)
}

#[test]
fn signed_message_is_accepted_by_the_peer() {
    let policy = ToyPolicy { seed: 0 };
    let (mut ours, mut theirs) = pair(5);
    let envelope = Envelope { domain: Domain::AccessControl, payload: vec![0, 1, 42] };
    let signed = ours.sign(&policy, &envelope, 6).unwrap();
    assert_eq!(ours.sent(), 1);
    assert_eq!(&signed[..6], &[2, 0, 3, 0, 1, 42]);
    assert_eq!(&signed[6..14], &[0, 0, 0, 0, 0, 0, 0, 1]);
    assert_eq!(signed.len(), 18);
    let got = theirs.verify(&policy, &signed, 7).unwrap();
    assert_eq!(got, envelope);
    assert_eq!(theirs.accepted(), 1);
    assert_eq!(theirs.verify(&policy, &signed, 8), Err(ChannelError::ReplayRejected));
    assert_eq!(theirs.accepted(), 1);
}

#[test]
fn equal_keys_are_refused() {
    let r = Session::establish(
        KeyPair { private: vec![1], public: vec![2] },
        vec![9],
        vec![1, 2, 3],
        vec![1, 2, 3],
        0,
        ExpiryPolicy { max_age: 10, max_idle: 10 },
    );
    assert!(matches!(r, Err(ChannelError::AuthenticationFailed)));
}

#[test]
fn signed_counters_go_up_by_one() {
    let policy = ToyPolicy { seed: 0 };
    let (mut ours, mut theirs) = pair(0);
    let envelope = Envelope { domain: Domain::Infotainment, payload: vec![0, 7] };
    for expected in 1u64..=5 {
        let signed = ours.sign(&policy, &envelope, 1).unwrap();
        assert_eq!(ours.sent(), expected);
        assert_eq!(&signed[5..13], &expected.to_be_bytes());
        assert_eq!(theirs.verify(&policy, &signed, 1).unwrap(), envelope);
        assert_eq!(theirs.accepted(), expected);
    }
}

#[test]
fn smaller_or_equal_counter_is_a_replay() {
    let policy = ToyPolicy { seed: 0 };
    let (mut ours, mut theirs) = pair(0);
    let envelope = Envelope { domain: Domain::Infotainment, payload: vec![0, 7] };
    let first = ours.sign(&policy, &envelope, 1).unwrap();
    let second = ours.sign(&policy, &envelope, 1).unwrap();
    let third = ours.sign(&policy, &envelope, 1).unwrap();
    assert!(theirs.verify(&policy, &second, 2).is_ok());
    assert_eq!(theirs.verify(&policy, &first, 2), Err(ChannelError::ReplayRejected));
    assert_eq!(theirs.verify(&policy, &second, 2), Err(ChannelError::ReplayRejected));
    // Even with a tag that does not match.
    let mut forged = first.clone();
    let last = forged.len() - 1;
    forged[last] ^= 0xff;
    assert_eq!(theirs.verify(&policy, &forged, 2), Err(ChannelError::ReplayRejected));
    assert_eq!(theirs.accepted(), 2);
    assert!(theirs.verify(&policy, &third, 2).is_ok());
    assert_eq!(theirs.accepted(), 3);
}

#[test]
fn tampered_payload_fails_authentication_and_changes_nothing() {
    let policy = ToyPolicy { seed: 0 };
    let (mut ours, mut theirs) = pair(0);
    let envelope = Envelope { domain: Domain::AccessControl, payload: vec![0, 1, 42] };
    let signed = ours.sign(&policy, &envelope, 1).unwrap();
    for at in 3..6 {
        let mut tampered = signed.clone();
        tampered[at] ^= 0x01;
        assert_eq!(theirs.verify(&policy, &tampered, 2), Err(ChannelError::AuthenticationFailed));
        assert_eq!(theirs.accepted(), 0);
        assert_eq!(theirs.sent(), 0);
    }
    // The message as it was sent is still good.
    assert_eq!(theirs.verify(&policy, &signed, 2).unwrap(), envelope);
}

#[test]
fn verify_against_compares_the_whole_tag() {
    let (_, mut theirs) = pair(0);
    let signed = vec![3, 0, 1, 9, 0, 0, 0, 0, 0, 0, 0, 4, 0xaa, 0xbb];
    assert_eq!(
        theirs.verify_against(&signed, &[0xaa], 1),
        Err(ChannelError::AuthenticationFailed)
    );
    assert_eq!(
        theirs.verify_against(&signed, &[0xaa, 0xbb, 0], 1),
        Err(ChannelError::AuthenticationFailed)
    );
    assert_eq!(
        theirs.verify_against(&signed, &[0xaa, 0xbc], 1),
        Err(ChannelError::AuthenticationFailed)
    );
    assert_eq!(theirs.accepted(), 0);
    assert_eq!(
        theirs.verify_against(&signed, &[0xaa, 0xbb], 1).unwrap(),
        Envelope { domain: Domain::Infotainment, payload: vec![9] }
    );
    assert_eq!(theirs.accepted(), 4);
}

#[test]
fn unsigned_or_truncated_bytes_are_malformed() {
    let policy = ToyPolicy { seed: 0 };
    let (_, mut theirs) = pair(0);
    assert_eq!(theirs.verify(&policy, &[], 1), Err(ChannelError::MalformedMessage));
    assert_eq!(theirs.verify(&policy, &[2, 0, 1, 5], 1), Err(ChannelError::MalformedMessage));
    assert_eq!(
        theirs.verify(&policy, &[2, 0, 1, 5, 0, 0, 0, 0, 0, 0, 1], 1),
        Err(ChannelError::MalformedMessage)
    );
    assert_eq!(theirs.accepted(), 0);
}

#[test]
fn expired_session_neither_signs_nor_verifies() {
    let policy = ToyPolicy { seed: 0 };
    let (mut ours, mut theirs) = pair(0);
    let envelope = Envelope { domain: Domain::Infotainment, payload: vec![0, 7] };
    let signed = ours.sign(&policy, &envelope, 100).unwrap();
    assert!(!ours.is_expired(200));
    assert!(ours.is_expired(201));
    assert_eq!(ours.sign(&policy, &envelope, 201), Err(ChannelError::SessionExpired));
    assert_eq!(ours.sent(), 1);
    // The peer was last used at its creation.
    assert!(theirs.is_expired(101));
    assert_eq!(theirs.verify(&policy, &signed, 101), Err(ChannelError::SessionExpired));
    assert_eq!(theirs.accepted(), 0);
    assert!(theirs.verify(&policy, &signed, 100).is_ok());
    // Past its age no use keeps a session alive.
    assert!(theirs.is_expired(1001));
    assert!(ours.can_sign(150));
    assert!(!ours.can_sign(1001));
}

#[test]
fn signing_input_is_header_payload_and_next_counter() {
    let (ours, _) = pair(0);
    let envelope = Envelope { domain: Domain::Infotainment, payload: vec![0, 7] };
    assert_eq!(
        ours.signing_input(&envelope, 1).unwrap(),
        vec![3, 0, 2, 0, 7, 0, 0, 0, 0, 0, 0, 0, 1]
    );
    let long = Envelope { domain: Domain::Infotainment, payload: vec![0; 65536] };
    assert_eq!(ours.signing_input(&long, 1), Err(ChannelError::MalformedMessage));
}

#[test]
fn sign_with_puts_the_tag_behind_the_counter() {
    let (mut ours, _) = pair(0);
    let envelope = Envelope { domain: Domain::AccessControl, payload: vec![] };
    assert_eq!(
        ours.sign_with(&envelope, &[0xde, 0xad], 1).unwrap(),
        vec![2, 0, 0, 0, 0, 0, 0, 0, 0, 0, 1, 0xde, 0xad]
    );
    assert_eq!(ours.sent(), 1);
}

#[test]
fn bytes_equal_tells_every_difference() {
    assert!(bytes_equal(&[], &[]));
    assert!(bytes_equal(&[1, 2, 3], &[1, 2, 3]));
    assert!(!bytes_equal(&[1, 2, 3], &[1, 2]));
    assert!(!bytes_equal(&[1, 2, 3], &[9, 2, 3]));
    assert!(!bytes_equal(&[1, 2, 3], &[1, 2, 4]));
    assert!(!bytes_equal(&[0x0f], &[0xf0]));
}
