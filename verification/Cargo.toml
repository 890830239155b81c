[package]
name = "legare"
version = "0.1.0"
edition = "2021"
publish = false

[dependencies]
env_logger = "0.4"
hyper = "0.10"
iron = "0.6"
iron-json-response = "*"
juniper = "0.9"
log = "0.3"
logger = "0.4"
mount = "0.4"
serde = "1"
serde_derive = "1"
serde_json = "1"
