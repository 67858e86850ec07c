[package]
name = "poparazzi"
version = "0.1.0"
edition = "2021"
publish = false

[dependencies]
anyhow = "*"
async-compression = { version = "*", default-features = false, features = ["gzip", "futures-io"] }
chrono = "*"
env_logger = "*"
futures = "*"
futures-util = "*"
html-escape = "*"
log = "*"
reqwest = { version = "*", default-features = false }
tokio = { version = "*", features = ["macros", "rt-multi-thread"] }
url = "*"
urlencoding = "*"

[dev-dependencies]
deb-version = "*"
flate2 = "*"
