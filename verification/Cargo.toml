[package]
name = "sheaf"
version = "0.2.4"
edition = "2021"
publish = false

[dependencies]
base64 = "=0.22.1"
sha2 = { version = "=0.10.9", features = ["oid"] }
serde = { version = "=1.0.229", features = ["derive"] }
serde_json = "=1.0.154"
thiserror = "=2.0.21"
lopdf = "=0.46.0"
pdfium-render = "=0.9.5"
image = { version = "=0.25.10", default-features = false, features = ["png"] }
similar = "=2.7.0"
p12-keystore = "=0.4.1"
rsa = { version = "=0.9.10", features = ["sha2"] }
x509-cert = { version = "=0.2.5", features = ["builder"] }
x509-parser = "=0.18.1"
rand = "=0.8.8"
pdf_oxide = { version = "=0.3.78", features = ["signatures"] }
trash = "=5.2.9"
