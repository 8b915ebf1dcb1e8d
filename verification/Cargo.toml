[package]
name = "code_svg"
version = "0.1.0"
edition = "2021"
publish = false

[dependencies]
env_logger = "*"
http-body-util = "*"
hyper = { version = "*", features = ["server", "http1"] }
hyper-util = { version = "*", features = ["http1", "server", "tokio"] }
log = "*"
once_cell = "*"
resvg = "*"
tiny-skia = "*"
tokio = { version = "*", features = ["macros", "net", "rt"] }
tree-sitter = "*"
tree-sitter-highlight = "*"
tree-sitter-javascript = "*"
tree-sitter-rust = "*"
usvg = "*"

[dev-dependencies]
htmlescape = "*"
serde_json = "*"
