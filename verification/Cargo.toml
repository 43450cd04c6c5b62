[package]
name = "valuable_value"
version = "0.1.0"
edition = "2021"
publish = false

[dependencies]
itoa = "=1.0.18"
pretty_dtoa = "=0.3.0"
atm_parser_helper = "=1.0.0"
atm_parser_helper_common_syntax = { version = "=2.0.0", features = ["arbitrary"] }
serde = { version = "=1.0.229", features = ["derive"] }
arbitrary = { version = "=1.5.0", features = ["derive"] }
thiserror = "=2.0.21"
