[package]
name = "nori"
version = "0.1.0"
edition = "2021"
publish = false

[dependencies]
anyhow = "=1.0.104"
clap = "=2.34.0"
csv = "=1.4.0"
geojson = { version = "=0.22.4", default-features = false }
geomatic = "=0.1.0"
kdtree = "=0.8.1"
osmpbf = "=0.3.8"
osrmreader = "=0.1.1"
palette = "=0.5.0"
rand = "=0.8.8"
reqwest = { version = "=0.11.27", default-features = false, features = ["blocking"] }
rstar = "=0.8.4"
serde = { version = "=1.0.229", features = ["derive"] }
serde_json = "=1.0.154"
tiny-skia = "=0.4.2"

[dev-dependencies]
bincode = "=1.3.3"
