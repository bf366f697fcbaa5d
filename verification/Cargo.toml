[package]
name = "digraph123"
version = "0.1.0"
edition = "2021"
publish = false

[dependencies]
rand = "=0.8.8"
clap = "=4.6.7"
regex = "=1.13.1"
cpal = "=0.18.2"
vorbis = "=0.0.14"
