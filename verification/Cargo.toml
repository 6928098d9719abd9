[package]
name = "satteri"
version = "0.1.0"
edition = "2021"
publish = false

[dependencies]
memchr = "=2.8.3"
unicode-id-start = "=1.5.0"
oxc_allocator = "=0.143.0"
oxc_ast = "=0.143.0"
oxc_ast_visit = "=0.143.0"
oxc_parser = "=0.143.0"
oxc_span = "=0.143.0"
