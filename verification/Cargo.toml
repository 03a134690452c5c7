[package]
name = "pwm"
version = "0.1.0"
edition = "2021"
publish = false

[dependencies]
zstd = "*"
xz-decom = "*"
inflate = "*"
tar = "*"
reqwest = { version = "*", default-features = false, features = ["blocking"] }
clap = "*"
ansi_term = "*"
junction = "*"
rm_rf = "*"
scraper = "*"
