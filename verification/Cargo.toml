[package]
name = "pgql_schema"
version = "0.1.0"
edition = "2021"
publish = false

[dependencies]
itertools = "=0.15.0"
bb8 = "=0.9.1"
bb8-postgres = "=0.9.0"
tokio-postgres = "=0.7.18"
juniper = "=0.17.1"
juniper_warp = "=0.9.0"
warp = { version = "=0.4.3", features = ["server"] }
tokio = { version = "1", features = ["macros", "rt-multi-thread"] }
futures = "=0.3.34"
dotenv = "=0.15.0"
env_logger = "=0.11.11"
log = "=0.4.34"
