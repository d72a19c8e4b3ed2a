[package]
name = "bitperfect"
version = "0.1.0"
edition = "2021"
publish = false

[dependencies]
blake3 = "1"
nucleo = "0.5"
rtrb = "0.3"
crossbeam-channel = "0.5"
async-channel = "2"
symphonia = { version = "*", features = ["all"] }
rusqlite = { version = "*", features = ["bundled"] }
lofty = "*"
id3 = "*"
dsd-reader = "*"
dsf-meta = "*"
dff-meta = "*"
ignore = "0.4"
rayon = "1"
notify = "*"
directories = "*"
clap = { version = "4", features = ["derive"] }
thiserror = "2"
libc = "0.2"
evdev = "*"
alsa = "*"
gtk4 = { version = "*", features = ["v4_12"] }
libadwaita = { version = "*", features = ["v1_5"] }
