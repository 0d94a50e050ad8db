//! Core of a dotfiles manager.
pub mod apply;
pub mod audit;
pub mod check;
pub mod detect;
pub mod disk;
pub mod dry;
pub mod encrypted;
pub mod generate;
pub mod hooks;
pub mod manifest;
pub mod modes;
pub mod order;
pub mod packages;
pub mod path;
pub mod plan;
pub mod provider;
pub mod render;
pub mod rollback;
pub mod state;
pub mod sync;
pub mod table;
pub mod template;
pub mod text;
pub mod vars;
pub mod verify;
