//! The wire codec: logical commands and envelopes to bytes and back.
//!
//! An envelope is laid out in three layers:
//!
//! ```text
//! routing header   domain tag (1 byte), payload length (2 bytes, big-endian)
//! domain payload   operation code (2 bytes, big-endian), then the parameters
//! trailer          empty on a bare envelope; the signer puts counter and tag here
//! ```
//!
//! The codec knows nothing of keys or counters. It is a pair of functions that
//! are inverse to each other, so a command encoded twice gives the same bytes.

use vstd::prelude::*;
use crate::error::ChannelError;
use crate::wire::{
    be16, be16_value, copy_range, get_be16, lemma_be16_canonical, lemma_be16_round_trip, put_be16,
};

verus! {

/// Bytes of the routing header.
pub const HEADER_LEN: usize = 3;

/// Bytes of the operation code that opens a domain payload.
pub const OPERATION_LEN: usize = 2;

/// The longest payload that the header's length field can declare.
pub const MAX_PAYLOAD_LEN: usize = 65535;

/// The longest parameter block of a command.
pub const MAX_PARAMETERS_LEN: usize = 65533;

/// Domain tag of the access-control unit.
pub const TAG_ACCESS_CONTROL: u8 = 2;

/// Domain tag of the infotainment unit.
pub const TAG_INFOTAINMENT: u8 = 3;

/// A logical sub-unit of the vehicle, addressed on its own within one session.
#[derive(Clone, Copy, Debug, PartialEq, Eq, Structural)]
pub enum Domain {
    /// The access-control unit: locks, keys and the handshake itself.
    AccessControl,
    /// The infotainment unit.
    Infotainment,
}

impl Domain {
    /// The tag that stands for the domain in a routing header.
    pub open spec fn tag_spec(self) -> u8 {
        match self {
            Domain::AccessControl => TAG_ACCESS_CONTROL,
            Domain::Infotainment => TAG_INFOTAINMENT,
        }
    }

    /// The domain that a tag stands for, if any.
    pub open spec fn of_tag_spec(tag: u8) -> Option<Domain> {
        if tag == TAG_ACCESS_CONTROL {
            Some(Domain::AccessControl)
        } else if tag == TAG_INFOTAINMENT {
            Some(Domain::Infotainment)
        } else {
            None
        }
    }

    /// The tag that stands for the domain in a routing header.
    #[verifier::when_used_as_spec(tag_spec)]
    pub fn tag(self) -> (t: u8)
        ensures
            t == self.tag_spec(),
    {
        match self {
            Domain::AccessControl => TAG_ACCESS_CONTROL,
            Domain::Infotainment => TAG_INFOTAINMENT,
        }
    }

    /// The domain that a tag stands for, if any.
    pub fn of_tag(tag: u8) -> (d: Option<Domain>)
        ensures
            d == Domain::of_tag_spec(tag),
    {
        if tag == TAG_ACCESS_CONTROL {
            Some(Domain::AccessControl)
        } else if tag == TAG_INFOTAINMENT {
            Some(Domain::Infotainment)
        } else {
            None
        }
    }
}

/// A logical command: where it goes, what to do, and with what.
#[derive(Debug, PartialEq, Eq)]
pub struct Command {
    pub domain: Domain,
    pub operation: u16,
    pub parameters: Vec<u8>,
}

/// The mathematical value of a [`Command`].
pub ghost struct CommandView {
    pub domain: Domain,
    pub operation: u16,
    pub parameters: Seq<u8>,
}

impl View for Command {
    type V = CommandView;

    open spec fn view(&self) -> CommandView {
        CommandView { domain: self.domain, operation: self.operation, parameters: self.parameters@ }
    }
}

/// A routing wrapper: a destination domain and the payload for it.
#[derive(Debug, PartialEq, Eq)]
pub struct Envelope {
    pub domain: Domain,
    pub payload: Vec<u8>,
}

/// The mathematical value of an [`Envelope`].
pub ghost struct EnvelopeView {
    pub domain: Domain,
    pub payload: Seq<u8>,
}

impl View for Envelope {
    type V = EnvelopeView;

    open spec fn view(&self) -> EnvelopeView {
        EnvelopeView { domain: self.domain, payload: self.payload@ }
    }
}

/// The three layers of a message: envelope fields and whatever follows them.
pub ghost struct Layers {
    pub domain: Domain,
    pub payload: Seq<u8>,
    pub trailer: Seq<u8>,
}

/// The command with these three parts.
pub open spec fn command_of(domain: Domain, operation: u16, parameters: Seq<u8>) -> CommandView {
    CommandView { domain, operation, parameters }
}

/// The envelope with these two parts.
pub open spec fn envelope_of(domain: Domain, payload: Seq<u8>) -> EnvelopeView {
    EnvelopeView { domain, payload }
}

/// The domain payload of a command: operation code, then parameters.
pub open spec fn payload_spec(operation: u16, parameters: Seq<u8>) -> Seq<u8> {
    be16(operation) + parameters
}

/// Routing header and payload of an envelope, with an empty trailer.
pub open spec fn envelope_spec(e: EnvelopeView) -> Seq<u8> {
    seq![e.domain.tag_spec()] + be16(e.payload.len() as u16) + e.payload
}

/// The bytes of a command.
pub open spec fn encode_spec(c: CommandView) -> Seq<u8> {
    envelope_spec(envelope_of(c.domain, payload_spec(c.operation, c.parameters)))
}

/// The layers of a message, or `None` where the bytes are cut short, name no
/// domain, or declare more payload than is there.
pub open spec fn layers_spec(bytes: Seq<u8>) -> Option<Layers> {
    if bytes.len() < HEADER_LEN {
        None
    } else {
        match Domain::of_tag_spec(bytes[0]) {
            None => None,
            Some(domain) => {
                let end = HEADER_LEN + be16_value(bytes.subrange(1, 3));
                if bytes.len() < end {
                    None
                } else {
                    Some(
                        Layers {
                            domain,
                            payload: bytes.subrange(HEADER_LEN as int, end),
                            trailer: bytes.subrange(end, bytes.len() as int),
                        },
                    )
                }
            },
        }
    }
}

/// The envelope that the bytes hold, or `None` where they are malformed or run
/// on past the declared payload.
pub open spec fn decode_spec(bytes: Seq<u8>) -> Option<EnvelopeView> {
    match layers_spec(bytes) {
        Some(l) => if l.trailer.len() == 0 {
            Some(envelope_of(l.domain, l.payload))
        } else {
            None
        },
        None => None,
    }
}

/// Operation and parameters of a domain payload, under the given domain.
pub open spec fn command_spec(e: EnvelopeView) -> Option<CommandView> {
    if e.payload.len() < OPERATION_LEN {
        None
    } else {
        Some(
            command_of(
                e.domain,
                be16_value(e.payload.subrange(0, OPERATION_LEN as int)),
                e.payload.subrange(OPERATION_LEN as int, e.payload.len() as int),
            ),
        )
    }
}

/// The command that the bytes hold, or `None` where they are malformed.
pub open spec fn decode_command_spec(bytes: Seq<u8>) -> Option<CommandView> {
    match decode_spec(bytes) {
        Some(e) => command_spec(e),
        None => None,
    }
}

/// The layers of an envelope followed by a trailer are its own parts.
pub proof fn lemma_layers_of_envelope(e: EnvelopeView, trailer: Seq<u8>)
    requires
        e.payload.len() <= MAX_PAYLOAD_LEN,
    ensures
        layers_spec(envelope_spec(e) + trailer) == Some(
            Layers { domain: e.domain, payload: e.payload, trailer },
        ),
{
    let bytes = envelope_spec(e) + trailer;
    let n = e.payload.len() as u16;
    lemma_be16_round_trip(n);
    assert(bytes.subrange(1, 3) =~= be16(n));
    assert(bytes[0] == e.domain.tag_spec());
    let end = HEADER_LEN + n;
    assert(bytes.subrange(HEADER_LEN as int, end) =~= e.payload);
    assert(bytes.subrange(end, bytes.len() as int) =~= trailer);
}

/// A message is the envelope of its first two layers, followed by its trailer.
pub proof fn lemma_envelope_of_layers(bytes: Seq<u8>)
    requires
        layers_spec(bytes) is Some,
    ensures
        ({
            let l = layers_spec(bytes).unwrap();
            &&& l.payload.len() <= MAX_PAYLOAD_LEN
            &&& bytes == envelope_spec(envelope_of(l.domain, l.payload)) + l.trailer
        }),
{
    let l = layers_spec(bytes).unwrap();
    lemma_be16_canonical(bytes.subrange(1, 3));
    assert(bytes =~= envelope_spec(envelope_of(l.domain, l.payload)) + l.trailer);
}

/// Round trip of an envelope: decoding what was encoded gives the envelope back.
pub proof fn lemma_decode_inverts_envelope(e: EnvelopeView)
    requires
        e.payload.len() <= MAX_PAYLOAD_LEN,
    ensures
        decode_spec(envelope_spec(e)) == Some(e),
{
    lemma_layers_of_envelope(e, Seq::empty());
    assert(envelope_spec(e) + Seq::<u8>::empty() =~= envelope_spec(e));
}

/// Round trip of a command: decoding the bytes of a well-formed command gives
/// back its domain, its operation and its parameters.
pub proof fn lemma_decode_inverts_encode(c: CommandView)
    requires
        c.parameters.len() <= MAX_PARAMETERS_LEN,
    ensures
        decode_command_spec(encode_spec(c)) == Some(c),
{
    let payload = payload_spec(c.operation, c.parameters);
    let e = envelope_of(c.domain, payload);
    lemma_decode_inverts_envelope(e);
    lemma_be16_round_trip(c.operation);
    assert(payload.subrange(0, OPERATION_LEN as int) =~= be16(c.operation));
    assert(payload.subrange(OPERATION_LEN as int, payload.len() as int) =~= c.parameters);
}

/// Whatever decodes to a command is the encoding of that command: no two byte
/// strings stand for the same command.
pub proof fn lemma_encode_inverts_decode(bytes: Seq<u8>)
    requires
        decode_command_spec(bytes) is Some,
    ensures
        decode_command_spec(bytes).unwrap().parameters.len() <= MAX_PARAMETERS_LEN,
        encode_spec(decode_command_spec(bytes).unwrap()) == bytes,
{
    let e = decode_spec(bytes).unwrap();
    let c = command_spec(e).unwrap();
    lemma_envelope_of_layers(bytes);
    lemma_be16_canonical(e.payload.subrange(0, OPERATION_LEN as int));
    assert(payload_spec(c.operation, c.parameters) =~= e.payload);
    assert(envelope_spec(e) + Seq::<u8>::empty() =~= envelope_spec(e));
}

/// Operation code and parameters as one domain payload.
pub fn encode_payload(operation: u16, parameters: &[u8]) -> (r: Result<Vec<u8>, ChannelError>)
    ensures
        parameters@.len() <= MAX_PARAMETERS_LEN ==> r is Ok && r.unwrap()@ == payload_spec(
            operation,
            parameters@,
        ),
        parameters@.len() > MAX_PARAMETERS_LEN ==> r == Err::<Vec<u8>, ChannelError>(
            ChannelError::MalformedMessage,
        ),
{
    if parameters.len() > MAX_PARAMETERS_LEN {
        return Err(ChannelError::MalformedMessage);
    }
    let mut out: Vec<u8> = Vec::new();
    put_be16(&mut out, operation);
    out.extend_from_slice(parameters);
    assert(out@ =~= payload_spec(operation, parameters@));
    Ok(out)
}

/// Routing header and payload of an envelope, with an empty trailer.
pub fn encode_envelope(domain: Domain, payload: &[u8]) -> (r: Result<Vec<u8>, ChannelError>)
    ensures
        payload@.len() <= MAX_PAYLOAD_LEN ==> r is Ok && r.unwrap()@ == envelope_spec(
            envelope_of(domain, payload@),
        ),
        payload@.len() > MAX_PAYLOAD_LEN ==> r == Err::<Vec<u8>, ChannelError>(
            ChannelError::MalformedMessage,
        ),
{
    if payload.len() > MAX_PAYLOAD_LEN {
        return Err(ChannelError::MalformedMessage);
    }
    let mut out: Vec<u8> = Vec::new();
    out.push(domain.tag());
    put_be16(&mut out, payload.len() as u16);
    out.extend_from_slice(payload);
    assert(out@ =~= envelope_spec(envelope_of(domain, payload@)));
    Ok(out)
}

/// The bytes of a logical command. The same command always gives the same
/// bytes; a parameter block that the length field cannot declare is refused.
pub fn encode(domain: Domain, operation: u16, parameters: &[u8]) -> (r: Result<
    Vec<u8>,
    ChannelError,
>)
    ensures
        parameters@.len() <= MAX_PARAMETERS_LEN ==> r is Ok && r.unwrap()@ == encode_spec(
            command_of(domain, operation, parameters@),
        ),
        parameters@.len() > MAX_PARAMETERS_LEN ==> r == Err::<Vec<u8>, ChannelError>(
            ChannelError::MalformedMessage,
        ),
{
    match encode_payload(operation, parameters) {
        Ok(payload) => encode_envelope(domain, payload.as_slice()),
        Err(e) => Err(e),
    }
}

/// Splits a message into its envelope and the offset at which its trailer
/// starts.
pub fn split(bytes: &[u8]) -> (r: Result<(Envelope, usize), ChannelError>)
    ensures
        match r {
            Ok((envelope, rest)) => {
                &&& layers_spec(bytes@) is Some
                &&& envelope@ == envelope_of(
                    layers_spec(bytes@).unwrap().domain,
                    layers_spec(bytes@).unwrap().payload,
                )
                &&& rest == HEADER_LEN + envelope.payload@.len()
                &&& rest <= bytes@.len()
            },
            Err(e) => e == ChannelError::MalformedMessage && layers_spec(bytes@) is None,
        },
{
    if bytes.len() < HEADER_LEN {
        return Err(ChannelError::MalformedMessage);
    }
    let domain = match Domain::of_tag(bytes[0]) {
        Some(d) => d,
        None => {
            return Err(ChannelError::MalformedMessage);
        },
    };
    let declared: usize = get_be16(bytes, 1) as usize;
    if bytes.len() - HEADER_LEN < declared {
        return Err(ChannelError::MalformedMessage);
    }
    let end: usize = HEADER_LEN + declared;
    let payload = copy_range(bytes, HEADER_LEN, end);
    Ok((Envelope { domain, payload }, end))
}

/// The envelope that the bytes hold. Fails with `MalformedMessage` on bytes
/// that are cut short, run on past the declared payload, name no domain, or
/// declare a length that is not the length of what follows.
pub fn decode(bytes: &[u8]) -> (r: Result<Envelope, ChannelError>)
    ensures
        match r {
            Ok(envelope) => decode_spec(bytes@) == Some(envelope@),
            Err(e) => e == ChannelError::MalformedMessage && decode_spec(bytes@) is None,
        },
{
    match split(bytes) {
        Ok((envelope, rest)) => {
            if rest == bytes.len() {
                Ok(envelope)
            } else {
                Err(ChannelError::MalformedMessage)
            }
        },
        Err(e) => Err(e),
    }
}

/// Operation and parameters of an envelope's payload. Fails with
/// `MalformedMessage` where the payload is too short to hold an operation code.
pub fn decode_payload(envelope: &Envelope) -> (r: Result<Command, ChannelError>)
    ensures
        match r {
            Ok(command) => command_spec(envelope@) == Some(command@),
            Err(e) => e == ChannelError::MalformedMessage && command_spec(envelope@) is None,
        },
{
    let payload = envelope.payload.as_slice();
    if payload.len() < OPERATION_LEN {
        return Err(ChannelError::MalformedMessage);
    }
    let operation: u16 = get_be16(payload, 0);
    let parameters = copy_range(payload, OPERATION_LEN, payload.len());
    Ok(Command { domain: envelope.domain, operation, parameters })
}

/// The command that the bytes hold: the inverse of [`encode`].
pub fn decode_command(bytes: &[u8]) -> (r: Result<Command, ChannelError>)
    ensures
        match r {
            Ok(command) => decode_command_spec(bytes@) == Some(command@),
            Err(e) => e == ChannelError::MalformedMessage && decode_command_spec(bytes@) is None,
        },
{
    match decode(bytes) {
        Ok(envelope) => decode_payload(&envelope),
        Err(e) => Err(e),
    }
}

} // verus!
