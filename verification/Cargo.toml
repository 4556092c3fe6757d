[package]
name = "rest_router"
version = "0.1.0"
edition = "2021"
publish = false

[dependencies]
http = "0.2"
rand = "0.8"
thiserror = "1"
tower = { version = "0.4", default-features = false, features = ["util"] }
