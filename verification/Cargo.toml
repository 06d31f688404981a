[package]
name = "rhymr"
version = "0.1.0"
edition = "2021"
publish = false

[dependencies]
fancy-regex = "*"
cmudict-fast = "*"
hypher = "*"
rphonetic = "*"
git2 = "*"
dirs = "*"
tokio = { version = "1", features = ["rt-multi-thread", "macros"] }
datamuse-api-rs = "*"
futures-channel = "*"
futures-util = "*"
grass = "*"
gtk4 = "*"
glib = "*"
gio = "*"
sourceview5 = "*"
