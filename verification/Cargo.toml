[package]
name = "yarn_lock"
version = "0.1.0"
edition = "2021"
publish = false

[dependencies]
indent_tokenizer = "=0.4.0"
semver = "=0.9.0"
semver-parser = "=0.7.0"
url = "=1.7.2"
multimap = "=0.4.0"
failure = "=0.1.8"
