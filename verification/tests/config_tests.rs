use hass_tesla_ble::bus::{discovery_message, discovery_message_with, discovery_topic, BusMessage};
use hass_tesla_ble::config::{
    default_discovery_prefix, default_port, BluetoothConfig, Config, MqttConfig, VehicleConfig,
};

fn mqtt(username: Option<&str>, password: Option<&str>) -> MqttConfig {
    MqttConfig {
        host: "broker.local".to_string(),
        port: default_port(),
        username: username.map(|s| s.to_string()),
        password: password.map(|s| s.to_string()),
        discovery_prefix: default_discovery_prefix(),
    }
}

#[test]
fn defaults_are_the_usual_ones() {
    assert_eq!(default_port(), 1883);
    assert_eq!(default_discovery_prefix(), "homeassistant");
}

#[test]
fn credentials_need_a_user_name() {
    assert_eq!(mqtt(None, None).credentials(), None);
    assert_eq!(mqtt(None, Some("secret")).credentials(), None);
    assert_eq!(
        mqtt(Some("hass"), Some("secret")).credentials(),
        Some(("hass".to_string(), "secret".to_string()))
    );
    assert_eq!(mqtt(Some("hass"), None).credentials(), Some(("hass".to_string(), String::new())));
}

#[test]
fn config_holds_its_parts() {
    let config = Config {
        mqtt: mqtt(None, None),
        bluetooth: BluetoothConfig { adapter: "hci0".to_string(), mode: "active".to_string() },
        vehicle: VehicleConfig { vin: "5YJ3E1EA7KF000001".to_string() },
    };
    let copy = config.clone();
    assert_eq!(copy.mqtt.host, "broker.local");
    assert_eq!(copy.mqtt.port, 1883);
    assert_eq!(copy.bluetooth.adapter, "hci0");
    assert_eq!(copy.bluetooth.mode, "active");
    assert_eq!(copy.vehicle.vin, "5YJ3E1EA7KF000001");
}

#[test]
fn discovery_topic_joins_prefix_component_and_name() {
    assert_eq!(
        discovery_topic("homeassistant", "lock", "tesla_doors"),
        "homeassistant/lock/tesla_doors/config"
    );
    assert_eq!(discovery_topic("", "", ""), "///config");
}

#[test]
fn discovery_message_carries_the_value_as_json() {
    let mut entity = serde_json::Map::new();
    entity.insert("name".to_string(), serde_json::Value::String("Doors".to_string()));
    entity.insert("retain".to_string(), serde_json::Value::Bool(false));
    let value = serde_json::Value::Object(entity);
    let message = discovery_message("ha", "lock", "doors", &value).unwrap();
    assert_eq!(message.topic, "ha/lock/doors/config");
    assert_eq!(message.payload, "{\"name\":\"Doors\",\"retain\":false}");
    let null = discovery_message("ha", "lock", "doors", &serde_json::Value::Null).unwrap();
    assert_eq!(null.payload, "null");
}

#[test]
fn discovery_message_with_keeps_the_payload() {
    assert_eq!(
        discovery_message_with("ha", "sensor", "range", "{}".to_string()),
        BusMessage { topic: "ha/sensor/range/config".to_string(), payload: "{}".to_string() }
    );
}
