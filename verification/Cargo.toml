[package]
name = "resident_fat"
version = "0.1.0"
edition = "2021"
publish = false

[dependencies]
embedded-sdmmc = { version = "0.9", default-features = false }
thiserror = { version = "2", default-features = false }
