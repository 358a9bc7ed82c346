[package]
name = "ikigai_sexpr"
version = "0.1.3"
edition = "2021"
publish = false

[dependencies]
async-trait = "*"
ikigai-core = "*"
oxrdf = "*"
oxrdfio = "*"
sha2 = "*"

[dev-dependencies]
futures = "*"
ikigai-conformance = "*"
ikigai-sparql = "*"
oxigraph = { version = "*", default-features = false }
