[package]
name = "dataflow_core"
version = "0.1.0"
edition = "2021"
publish = false

[dependencies]
chrono = { version = "=0.4.45", default-features = false, features = ["std"] }
compact_bytes = "=0.2.1"
dec = "=0.4.11"
differential-dataflow = "=0.25.1"
hex = "=0.4.3"
ordered-float = "=5.5.0"
ryu = "1"
timely = "=0.31.0"
uuid = "=1.29.0"
