use vstd::prelude::*;

pub mod dates;
pub mod embedded;
pub mod grants;
pub mod inbox;
pub mod memory;
pub mod migration;
pub mod ocr;
pub mod parts;
pub mod runner;
pub mod shell;
pub mod skill_render;
pub mod skill_store;
pub mod skills;
pub mod sorting;
pub mod static_skills;
pub mod store_replay;
pub mod telegram;
pub mod text;
pub mod titles;
pub mod triggers;
pub mod turn;
pub mod vfs;
pub mod webhook;

verus! {
} // verus!
