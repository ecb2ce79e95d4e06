[package]
name = "routing"
version = "0.1.0"
edition = "2021"
publish = false

[dependencies]
sodiumoxide = "=0.2.7"
xor_name = "=1.3.0"
serde = { version = "=1.0.229", features = ["derive"] }
maidsafe_utilities = "=0.18.0"
kademlia_routing_table = "=0.6.0"
log = "=0.4.35"
crossbeam-channel = "=0.5.17"
rand = "=0.4.6"
tiny-keccak = { version = "=2.0.2", features = ["sha3"] }
itertools = "=0.15.0"
unwrap = "=1.2.1"
lazy_static = "=1.5.1"
hex_fmt = "=0.3.0"
