[package]
name = "oxio"
version = "0.1.0"
edition = "2021"
publish = false

[dependencies]
sha1 = "*"
git2 = "*"
rand = "*"
colored = "*"
atty = "*"
edit = "*"
clipboard = "*"
