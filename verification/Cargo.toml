[package]
name = "peregrine_model"
version = "0.1.0"
edition = "2021"
publish = false

[dependencies]
serde_json = "1"
parking_lot = "0.12"
crossbeam-channel = "0.5"
