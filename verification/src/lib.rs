use vstd::prelude::*;

pub mod text;
pub mod text_lemmas;
pub mod layout;
pub mod shared_slot;
pub mod pipe;
pub mod version;
pub mod shared_box;
pub mod config;
pub mod logging;
pub mod message;
pub mod ipc;
pub mod shared_ring;
pub mod entry;
pub mod worker;

verus! {
} // verus!
