[package]
name = "cloakkchain"
version = "0.1.0"
edition = "2021"
publish = false

[dependencies]
ark-crypto-primitives = { version = "=0.5.0", features = ["sponge", "snark", "r1cs"] }
ark-ec = "=0.5.0"
ark-ff = "=0.5.0"
ark-groth16 = { version = "=0.5.0", features = ["r1cs"] }
ark-mnt4-753 = { version = "=0.5.0", features = ["r1cs"] }
ark-mnt6-753 = { version = "=0.5.0", features = ["r1cs"] }
ark-r1cs-std = "=0.5.0"
ark-relations = "=0.5.1"
ark-serialize = { version = "=0.5.0", features = ["derive"] }
ark-snark = "=0.5.1"
ark-std = "=0.5.0"
bincode = "=1.3.3"
blake3 = "=1.8.7"
clap = { version = "=4.6.7", features = ["derive"] }
hex = "=0.4.3"
serde = { version = "=1.0.229", features = ["derive"] }
sha2 = "=0.10.9"
sp1-zkvm = { version = "=6.10.0", features = ["verify"] }
substrate-bn-succinct-rs = "=0.6.1"
x25519-dalek = { version = "=2.0.1", features = ["static_secrets"] }
