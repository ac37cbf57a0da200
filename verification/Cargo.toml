[package]
name = "loghunter"
version = "0.1.0"
edition = "2021"
publish = false

[dependencies]
memchr = "*"
scraper = "*"
url = "*"
zip = { version = "*", default-features = false, features = ["deflate"] }
flate2 = "*"
tar = "*"
num_cpus = "*"
reqwest = { version = "*", default-features = false }
tokio = { version = "*", features = ["macros", "rt-multi-thread"] }
futures = "*"
clap = { version = "*", features = ["derive"] }
serde_json = "*"
