[package]
name = "hayday_planner"
version = "0.1.0"
edition = "2021"
publish = false

[dependencies]
petgraph = "*"
url = "*"
good_lp = { version = "*", default-features = false, features = ["microlp"] }
tokio = { version = "*", features = ["macros", "rt-multi-thread"] }
anyhow = "*"
parsoid = "*"
scraper = "*"
tabular = "*"

[dev-dependencies]
nom = "8"
