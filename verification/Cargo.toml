[package]
name = "transmuter"
version = "0.1.0"
edition = "2021"
publish = false

[dependencies]
cosmwasm-schema = "1.5"
cosmwasm-std = "1.5"
cw-storage-plus = "1.2"
cw2 = "1.1"
osmosis-std = "0.22"
serde = { version = "1", features = ["derive"] }
sylvia = "0.9"
