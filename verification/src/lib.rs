use vstd::prelude::*;

pub mod settings;
pub mod text;
pub mod compiled_regex;
pub mod models;
pub mod clock;
pub mod classifier;
pub mod paste_queue;
pub mod history;
pub mod smart_groups;
pub mod export;
pub mod reclassify;

verus! {
}
