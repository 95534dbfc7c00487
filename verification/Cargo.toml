[package]
name = "rouchdb_adapter_indexeddb"
version = "0.1.0"
edition = "2021"
publish = false

[dependencies]
rouchdb-core = "=0.3.2"
md-5 = "=0.10.6"
base64 = "=0.22.1"
serde = { version = "=1.0.229", features = ["derive"] }
serde_json = "=1.0.154"
serde-wasm-bindgen = "=0.6.5"
uuid = { version = "=1.29.0", features = ["v4"] }
idb = "=0.6.5"
wasm-bindgen = "=0.2.130"
async-trait = "=0.1.92"
