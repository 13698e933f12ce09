[package]
name = "suffix_fst"
version = "0.1.0"
edition = "2021"
publish = false

[dependencies]
hashbrown = "=0.15.5"
levenshtein_automata = "=0.2.1"
rustc-hash = "=2.1.3"
