[package]
name = "crust"
version = "0.1.0"
edition = "2021"
publish = false

[dependencies]
json = "0.12"
sdl2 = { version = "0.35", features = ["image"] }
tokio = { version = "1", features = ["full"] }
tokio-tungstenite = { version = "0.20", features = ["native-tls"] }
tungstenite = "0.20"
futures = "0.3"
futures-util = "0.3"
http = "0.2"
native-tls = "0.2"
rustls = "0.20"
webpki-roots = "0.22"
websocket = "0.26"
