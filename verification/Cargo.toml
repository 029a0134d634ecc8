[package]
name = "fluid_sim"
version = "0.1.0"
edition = "2021"
publish = false

[dependencies]
bevy = { version = "=0.15.3", default-features = false, features = ["bevy_color", "bevy_core_pipeline", "bevy_gizmos", "bevy_render", "bevy_sprite", "bevy_text", "bevy_ui", "bevy_window"] }
clap = { version = "4", default-features = false, features = ["std", "derive", "help", "usage", "error-context"] }
once_cell = "1"
rand = "0.8"
rayon = "1"
