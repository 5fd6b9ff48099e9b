[package]
name = "synonyms"
version = "0.1.0"
edition = "2021"
publish = false

[dependencies]
ansi_term = "*"
anyhow = "*"
clap = { version = "*", features = ["derive"] }
config = { version = "*", default-features = false, features = ["yaml"] }
dialoguer = "*"
directories = "*"
once_cell = "*"
prettytable-rs = "*"
reqwest = { version = "*", default-features = false, features = ["json"] }
serde = { version = "*", features = ["derive"] }
serde_json = "*"
serde_yaml = "*"
spinners = "*"
termion = "*"
tokio = { version = "*", features = ["macros", "rt-multi-thread"] }
