[package]
name = "xkcd_search"
version = "0.1.0"
edition = "2021"
publish = false

[dependencies]
colored = "*"
porter-stemmer = "*"
regex = "*"
reqwest = { version = "*", features = ["json"] }
serde = { version = "*", features = ["derive"] }
sqlite = "*"
thiserror = "*"
tokio = { version = "*", features = ["macros", "rt-multi-thread"] }
