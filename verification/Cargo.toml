[package]
name = "xmlem"
version = "0.1.0"
edition = "2021"
publish = false

[dependencies]
quick-xml = "0.31"
unic-ucd-category = "0.9"
selectors = "0.24"
cssparser = "0.29"
