[package]
name = "hf_s3ream"
version = "0.3.1"
edition = "2021"
publish = false

[dependencies]
anyhow = "1"
aws-config = { version = "1", default-features = false, features = ["rt-tokio", "default-https-client", "behavior-version-latest"] }
aws-sdk-s3 = { version = "1", default-features = false, features = ["rt-tokio", "default-https-client", "behavior-version-latest"] }
bytes = "1"
clap = { version = "4", default-features = false, features = ["std", "help", "usage", "error-context", "derive", "env"] }
futures = { version = "0.3", default-features = false, features = ["std", "async-await"] }
globset = "0.4"
hf-xet = "*"
object_store = { version = "*", features = ["aws"] }
reqwest = { version = "0.12", default-features = false, features = ["json", "rustls-tls"] }
serde = { version = "1", features = ["derive"] }
serde_json = "1"
tokio = { version = "1", features = ["macros", "rt-multi-thread", "sync", "time"] }
tracing = "0.1"
tracing-subscriber = { version = "0.3", default-features = false, features = ["fmt", "env-filter"] }
url = "2"
