[package]
name = "go_game_board"
version = "0.1.0"
edition = "2021"
publish = false

[dependencies]
arrayvec = "*"
go_game_types = "*"
perf-event = "*"
