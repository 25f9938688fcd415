[package]
name = "ununlink"
version = "0.1.0"
edition = "2021"
publish = false

[dependencies]
anyhow = "=1.0.104"
crossbeam-channel = "=0.5.17"
dokan = "=0.3.1"
dokan-sys = "=0.3.1"
ntfs-reader = "=0.4.7"
num_cpus = "=1.17.0"
parking_lot = "=0.12.5"
serde = { version = "=1.0.229", features = ["derive"] }
serde_json = "=1.0.154"
tracing = "=0.1.44"
tracing-subscriber = { version = "=0.3.23", features = ["env-filter"] }
widestring = "=0.4.3"
winapi = { version = "=0.3.9", features = ["fileapi", "handleapi", "ntstatus", "processthreadsapi", "securitybaseapi", "shellapi", "winbase", "winnt", "winuser"] }
