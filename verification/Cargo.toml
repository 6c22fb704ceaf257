[package]
name = "vuefinder"
version = "0.1.0"
edition = "2021"
publish = false

[dependencies]
zip = { version = "=0.6.6", default-features = false, features = ["deflate", "bzip2", "zstd"] }
mime_guess = "=2.0.5"
serde = { version = "1", features = ["derive"] }
serde_json = "1"
thiserror = "1"
tokio = { version = "1", features = ["full"] }
async-trait = "0.1"
actix-web = "4"
actix-cors = "0.7"
actix-multipart = "0.7"
futures-util = "0.3"
clap = { version = "4", features = ["derive"] }
env_logger = "0.11"
