[package]
name = "btree_set"
version = "0.1.0"
edition = "2021"

[dependencies]
thiserror = "1"
