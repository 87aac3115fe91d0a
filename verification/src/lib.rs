//! Rebuilds a HID report descriptor from the preparsed data that the operating
//! system keeps for a device.
//!
//! The work is done in stages, each in a module of its own:
//!
//! - `blob` lays a checked, typed view over the raw bytes; `typedefs` holds
//!   the records that it reads.
//! - `bit_range` finds the bits that each collection occupies in each report.
//! - `hierarchy` finds the depth and the number of children of each node of
//!   the collection tree, and refuses links that form no tree.
//! - `propagate` merges the bit ranges upwards, so that each collection
//!   covers what lies below it.
//! - `child_order` decides in which order the children of each collection are
//!   written.
//! - `main_items` lists the collections and fields in the order of the
//!   descriptor, `emit` gives each of them its short items, and `short_item`
//!   writes those as bytes. `coverage` states what the list holds.
//! - `descriptor` runs the stages one after the other.

pub mod typedefs;
pub mod error;
pub mod blob;
pub mod hierarchy;
pub mod bit_range;
pub mod propagate;
pub mod child_order;
pub mod short_item;
pub mod main_items;
pub mod emit;
pub mod coverage;
pub mod descriptor;
