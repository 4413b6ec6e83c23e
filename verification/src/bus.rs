//! What the bridge hands to the message bus.
//!
//! The command channel itself never builds a topic. The bridge announces its
//! entities under the broker's discovery prefix; the topic and the payload of
//! such an announcement are computed here, the publishing is not.

use vstd::prelude::*;

verus! {

/// `serde_json::Value`: a JSON value, carried through as it is.
#[verifier::external_type_specification]
#[verifier::external_body]
pub struct ExJsonValue(serde_json::Value);

/// `serde_json::Error`: why a value could not be written as text.
#[verifier::external_type_specification]
#[verifier::external_body]
pub struct ExJsonError(serde_json::Error);

/// A message ready to be published.
#[derive(Debug, Clone, PartialEq, Eq)]
pub struct BusMessage {
    pub topic: String,
    pub payload: String,
}

/// Why an announcement could not be made.
#[derive(Debug)]
pub enum BusError {
    /// The configuration value could not be written as JSON text; the error
    /// says why.
    Payload(serde_json::Error),
}

/// The JSON text of a value as `serde_json::to_string` writes it, or `None`
/// where it writes none.
pub uninterp spec fn json_text_spec(value: serde_json::Value) -> Option<Seq<char>>;

/// The topic under which a component announces an entity:
/// `prefix/component/name/config`.
pub open spec fn discovery_topic_spec(
    prefix: Seq<char>,
    component: Seq<char>,
    name: Seq<char>,
) -> Seq<char> {
    prefix + "/"@ + component + "/"@ + name + "/config"@
}

/// The topic under which a component announces an entity.
pub fn discovery_topic(prefix: &str, component: &str, name: &str) -> (topic: String)
    ensures
        topic@ == discovery_topic_spec(prefix@, component@, name@),
{
    let mut topic: String = prefix.to_owned();
    topic.append("/");
    topic.append(component);
    topic.append("/");
    topic.append(name);
    topic.append("/config");
    topic
}

/// `serde_json::to_string` on a JSON value. The text depends on the value
/// alone: the same value always gives the same text, or none. Nothing else is
/// claimed of it.
#[verifier::external_body]
fn json_text(value: &serde_json::Value) -> (r: Result<String, serde_json::Error>)
    ensures
        r is Ok <==> json_text_spec(*value) is Some,
        r matches Ok(text) ==> json_text_spec(*value) == Some(text@),
{
    serde_json::to_string(value)
}

/// The announcement with a given payload.
pub fn discovery_message_with(prefix: &str, component: &str, name: &str, payload: String) -> (m:
    BusMessage)
    ensures
        m.topic@ == discovery_topic_spec(prefix@, component@, name@),
        m.payload == payload,
{
    BusMessage { topic: discovery_topic(prefix, component, name), payload }
}

/// The announcement of an entity: its discovery topic, and the configuration
/// value as JSON text. Fails with `Payload`, and the error of the writer in
/// it, exactly where the value has no JSON text.
pub fn discovery_message(
    prefix: &str,
    component: &str,
    name: &str,
    config_value: &serde_json::Value,
) -> (r: Result<BusMessage, BusError>)
    ensures
        match r {
            Ok(m) => {
                &&& m.topic@ == discovery_topic_spec(prefix@, component@, name@)
                &&& json_text_spec(*config_value) == Some(m.payload@)
            },
            Err(e) => e is Payload && json_text_spec(*config_value) is None,
        },
{
    match json_text(config_value) {
        Ok(payload) => Ok(discovery_message_with(prefix, component, name, payload)),
        Err(e) => Err(BusError::Payload(e)),
    }
}

} // verus!
