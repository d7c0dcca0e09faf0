//! Keeps pools of numbered voice channels in shape: one trailing empty
//! member, every member labelled by its position.

pub mod augmentation;
pub mod badges;
pub mod config;
pub mod drift;
pub mod effects;
pub mod errors;
pub mod helper;
pub mod lifecycle;
pub mod naming;
pub mod plan;
pub mod pool;
pub mod reconcile;
pub mod tree;
