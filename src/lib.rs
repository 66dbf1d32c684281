//! A* path search over generic positions, with an indexed binary heap that
//! supports decrease-key and a visited store keyed by node identity.

pub mod action;
pub mod data;
pub mod math;
pub mod position;
pub mod world;
pub mod config;
pub mod visited;
pub mod clock;
pub mod algorithm;
