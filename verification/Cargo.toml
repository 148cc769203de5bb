[package]
name = "pavex"
version = "0.1.0"
edition = "2021"
publish = false

[dependencies]
ahash = "=0.8.12"
anyhow = "=1.0.104"
bimap = "=0.6.3"
fixedbitset = "=0.5.7"
guppy = "=0.19.1"
indexmap = "=2.14.2"
percent-encoding = "=2.3.2"
petgraph = "=0.8.3"
proc-macro2 = { version = "=1.0.107", default-features = false }
quote = { version = "=1.0.47", default-features = false }
serde = "=1.0.229"
serde_html_form = "=0.4.1"
syn = { version = "=3.0.9", default-features = false, features = ["clone-impls", "derive", "extra-traits", "full", "parsing", "printing"] }
