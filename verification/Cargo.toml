[package]
name = "focus"
version = "0.1.0"
edition = "2021"
publish = false

[dependencies]
byteview = "*"
codespan-reporting = "*"
fjall = "*"
lasso = "0.7"
serde = { version = "1", features = ["derive"] }
thiserror = "*"
tinyvec = { version = "1", features = ["alloc"] }
tokio-util = "0.7"
