[package]
name = "dog_food_for_you"
version = "0.1.0"
edition = "2021"
publish = false

[dependencies]
base64 = "0.12"
rand = "0.7"
rand_xoshiro = "0.4"
rayon = "1"
