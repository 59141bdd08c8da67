[package]
name = "minilm_analysis"
version = "0.1.0"
edition = "2021"
publish = false

[dependencies]
anyhow = "=1.0.104"
serde_json = "=1.0.154"
candle-core = "0.9"
candle-nn = "0.9"
candle-transformers = "0.9"
tokenizers = "=0.19.1"
hf-hub = "=0.3.2"
