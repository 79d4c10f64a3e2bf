[package]
name = "cyth_cgi"
version = "0.1.0"
edition = "2021"
publish = false

[dependencies]
bcrypt = "*"
chrono = "*"
fastcgi = "*"
markdown = "1"
percent-encoding = "*"
serde_json = "*"
sqlite = "*"
ureq = "*"
uuid = { version = "*", features = ["v4"] }
