pub mod hud_ctx;
pub mod midi;
pub mod mpe;
pub mod proto;
pub mod tuning;
pub mod ui;
pub mod winmm_drv;
pub mod commands;
