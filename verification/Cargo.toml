[package]
name = "searchable_extraction"
version = "0.1.0"
edition = "2021"
publish = false

[dependencies]
rayon = "*"
thread_local = "*"
grenad = "*"
