[package]
name = "searcher"
version = "0.1.0"
edition = "2021"
publish = false

[dependencies]
fxhash = "=0.2.1"
indexmap = "=2.14.2"
levenshtein_automata = "=0.2.1"
once_cell = "=1.21.4"
roaring = "=0.11.5"
uuid = "=1.29.0"
