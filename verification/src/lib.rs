//! A room-scoped broadcast hub with a verified core: room lifecycle,
//! message validation and enrichment, fan-out delivery with bounded
//! per-subscriber buffers, a process-wide delivery counter, and the
//! single-shot puzzle computations that share the crate.

pub mod bake;
pub mod chat;
pub mod codec;
pub mod contest;
pub mod counter;
pub mod cube;
pub mod elves;
pub mod error;
pub mod html;
pub mod hub;
pub mod nice;
pub mod orders;
pub mod pagination;
pub mod pixels;
pub mod portals;
pub mod pump;
pub mod regions;
pub mod registry;
pub mod room;
pub mod sorting;
pub mod text;
