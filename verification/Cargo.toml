[package]
name = "wavz"
version = "0.1.0"
edition = "2021"
publish = false

[dependencies]
bytemuck = { version = "1", features = ["derive", "must_cast", "extern_crate_alloc"] }
cpal = { version = "0.15", default-features = false }
memmap2 = "0.9"
ringbuf = "0.4"
winit = "0.29"
winit_input_helper = "0.15"
