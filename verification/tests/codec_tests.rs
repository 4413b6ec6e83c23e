use hass_tesla_ble::codec::{
    decode, decode_command, decode_payload, encode, encode_envelope, encode_payload, split,
    Command, Domain, Envelope, MAX_PARAMETERS_LEN, MAX_PAYLOAD_LEN,
};
use hass_tesla_ble::error::ChannelError;

#[test]
fn encode_lays_out_header_operation_and_parameters() {
    let bytes = encode(Domain::AccessControl, 0x0102, &[9, 8, 7]).unwrap();
    assert_eq!(bytes, vec![2, 0, 5, 1, 2, 9, 8, 7]);
    let bytes = encode(Domain::Infotainment, 7, &[]).unwrap();
    assert_eq!(bytes, vec![3, 0, 2, 0, 7]);
}

#[test]
fn encode_is_stable() {
    let first = encode(Domain::Infotainment, 513, &[1, 2, 3, 4]).unwrap();
    let second = encode(Domain::Infotainment, 513, &[1, 2, 3, 4]).unwrap();
    assert_eq!(first, second);
}

#[test]
fn decode_command_inverts_encode() {
    let parameters: Vec<u8> = (0..=255).collect();
    for domain in [Domain::AccessControl, Domain::Infotainment] {
        for operation in [0u16, 1, 255, 256, 0xffff] {
            let bytes = encode(domain, operation, &parameters).unwrap();
            let command = decode_command(&bytes).unwrap();
            assert_eq!(command, Command { domain, operation, parameters: parameters.clone() });
        }
    }
}

#[test]
fn longest_command_round_trips_and_longer_is_refused() {
    let parameters = vec![0xabu8; MAX_PARAMETERS_LEN];
    let bytes = encode(Domain::AccessControl, 1, &parameters).unwrap();
    assert_eq!(bytes.len(), 3 + MAX_PAYLOAD_LEN);
    assert_eq!(&bytes[..3], &[2, 0xff, 0xff]);
    assert_eq!(decode_command(&bytes).unwrap().parameters, parameters);
    let too_long = vec![0u8; MAX_PARAMETERS_LEN + 1];
    assert_eq!(encode(Domain::AccessControl, 1, &too_long), Err(ChannelError::MalformedMessage));
    assert_eq!(encode_payload(1, &too_long), Err(ChannelError::MalformedMessage));
    assert_eq!(
        encode_envelope(Domain::AccessControl, &vec![0u8; MAX_PAYLOAD_LEN + 1]),
        Err(ChannelError::MalformedMessage)
    );
}

#[test]
fn decode_gives_domain_and_payload() {
    let envelope = decode(&[3, 0, 2, 0xaa, 0xbb]).unwrap();
    assert_eq!(envelope, Envelope { domain: Domain::Infotainment, payload: vec![0xaa, 0xbb] });
    let empty = decode(&[2, 0, 0]).unwrap();
    assert_eq!(empty, Envelope { domain: Domain::AccessControl, payload: vec![] });
}

#[test]
fn decode_rejects_truncated_input() {
    assert_eq!(decode(&[]), Err(ChannelError::MalformedMessage));
    assert_eq!(decode(&[2]), Err(ChannelError::MalformedMessage));
    assert_eq!(decode(&[2, 0]), Err(ChannelError::MalformedMessage));
    assert_eq!(decode(&[2, 0, 2, 1]), Err(ChannelError::MalformedMessage));
}

#[test]
fn decode_rejects_over_length_input() {
    assert_eq!(decode(&[2, 0, 1, 5, 6]), Err(ChannelError::MalformedMessage));
}

#[test]
fn decode_rejects_unknown_domain() {
    for tag in [0u8, 1, 4, 255] {
        assert_eq!(decode(&[tag, 0, 1, 5]), Err(ChannelError::MalformedMessage));
    }
}

#[test]
fn decode_payload_needs_an_operation_code() {
    let short = Envelope { domain: Domain::AccessControl, payload: vec![1] };
    assert_eq!(decode_payload(&short), Err(ChannelError::MalformedMessage));
    assert_eq!(decode_command(&[2, 0, 1, 1]), Err(ChannelError::MalformedMessage));
    let bare = Envelope { domain: Domain::AccessControl, payload: vec![1, 2] };
    assert_eq!(
        decode_payload(&bare).unwrap(),
        Command { domain: Domain::AccessControl, operation: 0x0102, parameters: vec![] }
    );
}

#[test]
fn split_finds_where_the_trailer_starts() {
    let (envelope, rest) = split(&[2, 0, 2, 7, 8, 1, 2, 3]).unwrap();
    assert_eq!(envelope, Envelope { domain: Domain::AccessControl, payload: vec![7, 8] });
    assert_eq!(rest, 5);
    assert_eq!(split(&[9, 0, 0]), Err(ChannelError::MalformedMessage));
}

#[test]
fn domain_tags_round_trip() {
    assert_eq!(Domain::AccessControl.tag(), 2);
    assert_eq!(Domain::Infotainment.tag(), 3);
    assert_eq!(Domain::of_tag(2), Some(Domain::AccessControl));
    assert_eq!(Domain::of_tag(3), Some(Domain::Infotainment));
    assert_eq!(Domain::of_tag(0), None);
}
