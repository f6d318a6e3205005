pub mod composite;
pub mod ntsc;
pub mod palette;
