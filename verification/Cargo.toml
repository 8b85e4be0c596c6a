[package]
name = "okf_mcp"
version = "0.1.0"
edition = "2021"
publish = false

[dependencies]
anyhow = "1"
axum = { version = "*", default-features = false, features = ["http1", "json", "tokio", "query"] }
chrono = { version = "0.4", default-features = false, features = ["clock", "std"] }
docx-rs = { version = "*", default-features = false }
genai = { version = "0.6", default-features = false }
inquire = { version = "*", default-features = false, features = ["crossterm"] }
open = "5"
pdf-extract = "*"
pulldown-cmark = { version = "*", default-features = false, features = ["html"] }
reqwest = { version = "*", default-features = false, features = ["json"] }
rmcp = { version = "*", features = ["server", "macros", "transport-io"] }
rusqlite = { version = "*", features = ["bundled"] }
serde = { version = "1", features = ["derive"] }
serde_json = "1"
serde_yaml = "0.9"
sha2 = "0.11"
sqlite-vec = "*"
tantivy = { version = "0.26", default-features = false, features = ["mmap"] }
tokio = { version = "1", features = ["full"] }
toml = "*"
tracing = { version = "0.1", default-features = false }
url = "2"

[dev-dependencies]
tempfile = "3"
