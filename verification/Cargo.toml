[package]
name = "route_builder"
version = "0.1.0"
edition = "2021"
publish = false

[dependencies]
anyhow = "=1.0.104"
bigdecimal = { version = "=0.4.11", features = ["serde"] }
chrono = { version = "=0.4.45", features = ["serde"] }
geo = "=0.33.1"
geo-types = "=0.7.20"
geojson = "=1.0.0"
graphics_buffer = "=0.7.7"
num-traits = "=0.2.19"
piston2d-graphics = "=0.40.0"
rayon = "=1.12.0"
serde = { version = "=1.0.229", features = ["derive"] }
serde_json = "=1.0.154"
shapefile = "=0.9.0"
