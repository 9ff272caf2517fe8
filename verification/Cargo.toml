[package]
name = "gitrevset"
version = "0.1.0"
edition = "2021"
publish = false

[dependencies]
globset = "*"
esl01-hgtime = "*"
