[package]
name = "local_lru"
version = "0.1.0"
edition = "2021"
publish = false

[dependencies]
aws-config = { version = "=1.12.0", features = ["behavior-version-latest"] }
aws-sdk-s3 = { version = "=1.152.0", features = ["behavior-version-latest"] }
# Not used by name. aws-config 1.12 and aws-sdk-s3 1.152 were released against
# aws-types 1.6; left to itself cargo picks 1.7, which has moved to
# aws-smithy-schema 1.x and does not compile together with them.
aws-types = "=1.6.0"
axum = "=0.7.9"
bytes = "=1.12.1"
thiserror = "=1.0.69"
tokio = { version = "=1.54.1", features = ["full"] }
tracing = "=0.1.44"
tracing-subscriber = "=0.3.23"
