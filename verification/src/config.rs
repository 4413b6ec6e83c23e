//! The configuration snapshot that the bridge starts from.
//!
//! The values are read once at startup and never changed. Reading and parsing
//! the file is left to the program around the library; what a missing field
//! defaults to is decided here.

use vstd::prelude::*;

verus! {

/// Everything the bridge is configured with.
#[derive(Debug, Clone)]
pub struct Config {
    pub mqtt: MqttConfig,
    pub bluetooth: BluetoothConfig,
    pub vehicle: VehicleConfig,
}

/// How to reach the message broker.
#[derive(Debug, Clone)]
pub struct MqttConfig {
    pub host: String,
    pub port: u16,
    pub username: Option<String>,
    pub password: Option<String>,
    pub discovery_prefix: String,
}

/// Which radio adapter to use, and how.
#[derive(Debug, Clone)]
pub struct BluetoothConfig {
    pub adapter: String,
    pub mode: String,
}

/// The vehicle to talk to.
#[derive(Debug, Clone)]
pub struct VehicleConfig {
    pub vin: String,
}

/// The broker port that is used where none is configured.
pub fn default_port() -> (port: u16)
    ensures
        port == 1883,
{
    1883
}

/// The discovery prefix that is used where none is configured.
pub fn default_discovery_prefix() -> (prefix: String)
    ensures
        prefix@ == "homeassistant"@,
{
    "homeassistant".to_owned()
}

/// User name and password as the broker is given them.
pub open spec fn credentials_spec(username: Option<String>, password: Option<String>) -> Option<
    (Seq<char>, Seq<char>),
> {
    match username {
        None => None,
        Some(user) => Some(
            (
                user@,
                match password {
                    Some(word) => word@,
                    None => Seq::empty(),
                },
            ),
        ),
    }
}

impl MqttConfig {
    /// The credentials to log in with: none without a user name; with one, the
    /// configured password, or the empty password where none is configured.
    pub fn credentials(&self) -> (r: Option<(String, String)>)
        ensures
            match r {
                Some((user, word)) => credentials_spec(self.username, self.password) == Some(
                    (user@, word@),
                ),
                None => credentials_spec(self.username, self.password) is None,
            },
    {
        match &self.username {
            None => None,
            Some(user) => {
                let word: String = match &self.password {
                    Some(word) => word.clone(),
                    None => String::new(),
                };
                Some((user.clone(), word))
            },
        }
    }
}

} // verus!
