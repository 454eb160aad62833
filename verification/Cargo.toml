[package]
name = "aorist"
version = "0.1.0"
edition = "2021"
publish = false

[dependencies]
Inflector = "=0.11.4"
uuid = "=1.29.0"
linked-hash-map = "=0.5.6"
linked_hash_set = "=0.1.6"
num = "0.4"
sqlparser = "*"
