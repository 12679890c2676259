[package]
name = "htn_planner"
version = "0.1.0"
edition = "2021"
publish = false

[dependencies]
rand = "0.8"
bevy = { version = "0.15", default-features = false }
bevy-trait-query = "0.7"
