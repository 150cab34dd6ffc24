[package]
name = "road_graphs"
version = "0.1.0"
edition = "2021"
publish = false

[dependencies]
hashbrown = { version = "0.15", features = ["rayon"] }
rand = "0.8"
rand_distr = "0.4"
petgraph = "*"
geo = "0.29"
rstar = "0.12"
spade = "2"
rayon = "1"
quick-xml = "0.37"
voronoice = "*"
indicatif = "*"
itertools = "*"
chrono = "*"
dashmap = "*"
bimap = "*"
threadpool = "*"
num_cpus = "*"
tempfile = "*"
ordered-float = "4"
noise = "0.9"
