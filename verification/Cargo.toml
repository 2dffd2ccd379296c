[package]
name = "jsonpath_lib"
version = "0.1.0"
edition = "2021"
publish = false

[dependencies]
array_tool = "1.0.3"
serde = { version = "1.0", features = ["derive"] }
serde_json = "1.0"
