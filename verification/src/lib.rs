pub mod text;
pub mod literal;
pub mod ipc;
pub mod state;
pub mod cli;
pub mod folder;
pub mod colors;
pub mod template;
pub mod gpu;
pub mod transition;
pub mod outputs;
pub mod cache;
pub mod dispatch;
