[package]
name = "symo"
version = "0.1.0"
edition = "2021"
publish = false

[dependencies]
handlebars = "=6.4.4"
serde = { version = "=1.0.229", features = ["derive"] }
serde_yaml = "=0.9.34"
walkdir = "=2.5.0"
clap = { version = "=4.6.7", features = ["derive"] }
thiserror = "=2.0.21"
tokio = { version = "=1.53.2", features = ["macros", "net", "rt-multi-thread"] }
axum = "=0.8.9"
tower = "=0.5.3"
tower-http = { version = "=0.7.1", features = ["fs"] }
notify = "=8.2.0"
notify-debouncer-mini = "=0.7.0"
