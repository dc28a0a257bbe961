[package]
name = "thanos_v1_reader"
version = "0.1.0"
edition = "2021"
publish = false

[dependencies]
arrow = { version = "=58.4.1", default-features = false }
arrow-flight = "=58.4.1"
async-trait = "=0.1.92"
axum = { version = "=0.8.9", default-features = false, features = ["http1", "tokio"] }
crc = "=3.4.0"
dashmap = "=6.2.1"
datafusion = { version = "=53.1.0", default-features = false, features = ["sql", "parquet", "datetime_expressions"] }
fs2 = "0.4"
futures = "=0.3.34"
humantime = "=2.4.0"
metrics = "=0.24.6"
metrics-exporter-prometheus = { version = "=0.17.2", default-features = false }
opendal = { version = "=0.59.5", default-features = false, features = ["services-fs", "services-s3", "services-gcs", "layers-concurrent-limit", "layers-metrics", "layers-retry", "layers-timeout"] }
parquet = { version = "=58.4.1", default-features = false, features = ["arrow"] }
prost = "=0.14.4"
prost-types = "=0.14.4"
regex = "=1.13.1"
rusty-chunkenc = "=0.1.2"
serde = { version = "=1.0.229", features = ["derive"] }
serde_json = "=1.0.154"
sha2 = "=0.10.9"
tokio = { version = "=1.54.1", features = ["macros", "net", "rt-multi-thread", "sync"] }
tokio-stream = "=0.1.19"
toml = { version = "0.9", default-features = false, features = ["parse", "serde", "std"] }
tonic = "=0.14.9"
tonic-prost = "=0.14.9"
tracing = "=0.1.44"
tracing-subscriber = { version = "=0.3.23", default-features = false, features = ["env-filter", "fmt", "registry", "std"] }
xxhash-rust = { version = "=0.8.19", features = ["xxh64"] }
