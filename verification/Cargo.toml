[package]
name = "extenddb_storage_bigtable"
version = "0.1.0"
edition = "2021"
publish = false

[dependencies]
anyhow = "1"
base64 = "0.22"
bcrypt = "0.17"
bigtable_rs = "*"
futures = "0.3"
gcp_auth = "0.12"
googleapis-tonic-google-bigtable-admin-v2 = "*"
googleapis-tonic-google-bigtable-v2 = "*"
moka = { version = "0.12", features = ["future"] }
rand = "0.9"
rustls = "0.23"
serde = { version = "1", features = ["derive"] }
serde_json = "1"
sha2 = "0.10"
time = { version = "0.3", features = ["formatting", "parsing"] }
tokio = { version = "1", features = ["full"] }
toml = "0.8"
tonic = { version = "*", features = ["tls-native-roots"] }
tracing = "0.1"
uuid = { version = "1", features = ["v4"] }
