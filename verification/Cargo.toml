[package]
name = "deposit_codec"
version = "0.1.0"
edition = "2021"
publish = false

[dependencies]
hex = "=0.4.3"
ethabi = "=18.0.0"
borsh = { version = "=1.8.1", features = ["derive"] }

[dev-dependencies]
rlp = "*"
rand = "*"
