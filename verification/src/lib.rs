pub mod cli;
pub mod config;
pub mod exquis;
pub mod num;
pub mod settings;
pub mod text;
pub mod usb;
pub mod wooting;
pub mod xtn;
pub mod xtn_roundtrip;
pub mod geometry;
pub mod layouts;
pub mod logging;
pub mod hud;
pub mod midi_out;
pub mod edit;
pub mod edit_roundtrip;
