//! Core of a tin-whistle practice tool: the score rendering and
//! synchronization engine, with verified contracts.
//!
//! The pipeline: `score` models the engraved score as a group / path tree
//! and flattens it with id inheritance; `pipeline` turns the flattened
//! paths into transforms, packed-colour primitives, glyph groups and
//! tessellation jobs, and assembles the tessellator's output into one
//! vertex / index mesh; `song` parses the tab-separated note list, derives
//! the time-ordered play events and drives the playback clock; `sheet`
//! holds each glyph's colour state, the fingering tables, and the hit
//! tester; `midi` models the live note messages; `color` packs colours;
//! `text` holds the parsing utilities.
//!
//! The windowing host, the GPU driver and the MIDI transport are external
//! collaborators: they hand the library plain values and consume the plain
//! data it produces.

pub mod color;
pub mod midi;
pub mod pipeline;
pub mod score;
pub mod sheet;
pub mod song;
pub mod text;
