[package]
name = "known_methods"
version = "0.1.0"
edition = "2021"
publish = false

[dependencies]
cow-utils = "=0.1.3"
oxc_allocator = "=0.48.2"
oxc_ast = "=0.48.2"
oxc_ecmascript = { version = "=0.48.2", features = ["constant_evaluation"] }
oxc_semantic = "=0.48.2"
oxc_span = "=0.48.2"
oxc_syntax = { version = "=0.48.2", features = ["to_js_string"] }
oxc_traverse = "=0.48.2"

[dev-dependencies]
oxc_codegen = "=0.48.2"
oxc_parser = "=0.48.2"
