[package]
name = "particle_life"
version = "0.1.0"
edition = "2021"
publish = false

[dependencies]
bevy = { version = "=0.19.1", default-features = false, features = ["std", "bevy_asset", "bevy_color", "bevy_render", "bevy_core_pipeline", "bevy_post_process", "bevy_sprite", "bevy_sprite_render", "bevy_text", "bevy_ui", "bevy_ui_render", "bevy_ui_widgets", "bevy_input_focus", "bevy_picking", "ui_picking", "bevy_scene", "bevy_feathers"] }
bytemuck = "1"
