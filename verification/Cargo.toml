[package]
name = "invenio_vocb_converter"
version = "0.1.0"
edition = "2021"
publish = false

[dependencies]
deunicode = "*"
serde = { version = "*", features = ["derive"] }
serde_json = "*"
serde_yaml = "*"
