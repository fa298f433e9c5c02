[package]
name = "mendel_vectorizer"
version = "0.1.0"
edition = "2021"
publish = false

[dependencies]
rand = "0.7"
image = { version = "0.25", default-features = false, features = ["png", "jpeg"] }
imageproc = { version = "0.25", default-features = false }
num_cpus = "1"
clap = "2"
gtk = "0.18"
gdk = "0.18"
gdk-pixbuf = "0.18"
cairo-rs = "0.18"
