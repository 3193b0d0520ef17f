[package]
name = "none_of_those_words_are_in_the_bible"
version = "0.1.0"
edition = "2021"
publish = false

[dependencies]
ahash = "0.8"
unicode-segmentation = "1"
