[package]
name = "loaded"
version = "0.1.0"
edition = "2021"
publish = false

[dependencies]
hdrhistogram = "7"
md-5 = "0.10"
sha1 = "0.10"
sha2 = "0.10"
crc = "3"
crc32c-hw = "0.1"
anyhow = "1"
async-trait = "0.1"
bigdecimal = "0.4"
bytes = "1"
bytesize = "1"
chrono = "0.4"
clap = { version = "4", features = ["derive"] }
clap_complete = "4"
ctrlc = "3"
env_logger = "0.11"
futures = "0.3"
governor = "0.6"
http-body-util = "0.1"
hyper = { version = "1", features = ["client", "http1"] }
hyper-util = { version = "0.1", features = ["tokio"] }
log = "0.4"
num_cpus = "1"
serde = { version = "1", features = ["derive"] }
serde_json = "1"
sysinfo = "0.30"
tokio = { version = "1", features = ["rt", "net", "time", "sync", "macros", "io-util", "fs"] }
uuid = { version = "1", features = ["v4"] }
