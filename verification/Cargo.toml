[package]
name = "symbolserver"
version = "0.1.0"
edition = "2021"
publish = false

[dependencies]
uuid = "*"
xz2 = "*"
humansize = "*"
globset = "*"
url = "*"
mach_object = "*"
num_cpus = "*"
clap = "2"
serde = { version = "1", features = ["derive"] }
serde_json = "1"
serde_yaml = "*"
chrono = "0.4"
log = "0.4"
memmap = "*"
walkdir = "2"
zip = { version = "0.6", default-features = false, features = ["deflate"] }
tempfile = "3"
indicatif = "*"
libc = "0.2"
openssl-probe = "*"
hyper = "0.10"
hyper-native-tls = "0.3"
