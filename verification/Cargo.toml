[package]
name = "structured_merge"
version = "0.1.0"
edition = "2021"
publish = false

[dependencies]
pathfinding = "=4.16.0"
unordered-pair = "=0.2.5"
tree-sitter = "=0.27.1"
tree-sitter-java = "=0.23.5"
tree-sitter-c-sharp = "*"
