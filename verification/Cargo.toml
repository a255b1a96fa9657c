[package]
name = "code_overlay"
version = "0.1.0"
edition = "2021"
publish = false

[dependencies]
leptos = { version = "=0.8.22", features = ["csr"] }
leptos_meta = "=0.8.7"
leptos_router = "=0.8.17"
lsp-types = "=0.95.1"
shapels = "=0.5.0"
