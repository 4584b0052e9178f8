pub mod keyboard;
pub mod timer;
