[package]
name = "rustbin"
version = "0.1.0"
edition = "2021"
publish = false

[dependencies]
syntect = { version = "5", default-features = false, features = ["parsing", "html", "dump-load", "regex-fancy", "default-syntaxes", "default-themes"] }
pulldown-cmark = { version = "*", default-features = false, features = ["html"] }
png = "*"
itoa = "1"
bytecount = "*"
nanoid = "*"
time = "0.3"
axum = { version = "0.8", features = ["multipart"] }
tokio = { version = "1", features = ["macros", "rt-multi-thread", "net"] }
sqlx = { version = "0.8", default-features = false, features = ["runtime-tokio", "sqlite"] }
maud = "*"
lru = "*"
parking_lot = "0.12"
fontdue = "*"
dotenvy = "*"
