[package]
name = "hass_tesla_ble"
version = "0.1.0"
edition = "2021"
publish = false

[dependencies]
anyhow = "=1.0.104"
bluer = { version = "=0.17.4", features = ["bluetoothd"] }
env_logger = "=0.11.11"
log = "=0.4.34"
rumqttc = "=0.25.1"
serde = { version = "=1.0.229", features = ["derive"] }
serde_json = "=1.0.154"
tokio = { version = "=1.54.1", features = ["macros", "rt-multi-thread", "signal"] }
