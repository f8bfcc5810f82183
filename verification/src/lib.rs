//! Tile-pyramid cache management for browsing large image collections.
//!
//! The crate holds the bookkeeping of a zoomable image grid: the packed tile
//! address, the pyramid metadata with its nearest-level lookup, the per-group
//! progressive cache stepper, the admission and draining of thumbnail jobs,
//! the order of the writes that commit a pyramid, and the partition of images
//! into grid-aligned groups. It performs no I/O: the caller reads the store,
//! runs the thumbnailer and reports what came back.

pub mod bits;
pub mod btree;
pub mod group;
pub mod group_view;
pub mod groups;
pub mod image;
pub mod metadata;
pub mod store;
pub mod tile_ref;
pub mod vec2;
