pub mod analog;
pub mod commands;
pub mod control_bar;
pub mod geometry;
pub mod hid;
pub mod hidmap;
pub mod hud_ctx;
pub mod modes;
pub mod serve;
pub mod ui;
pub mod wtn;
pub mod wtn_roundtrip;
