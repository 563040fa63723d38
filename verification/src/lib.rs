//! A verified batch-annotation pipeline core: a fixed pool of workers drains
//! an input set through one shared cursor, forwards per-item outcomes over a
//! bounded result bus, and a single aggregator persists one label file per
//! successful item and detects completion by counting exactly one signal per
//! worker.
//!
//! `pipeline` holds the state machine, its invariant, and the run driver;
//! `render` the exact six-decimal label format and its lossless round trip;
//! `naming` the derivation of label file names; `annotation` the fixed-point
//! detection record; `counting` the sequence-counting lemmas the invariant
//! rests on.

pub mod annotation;
pub mod counting;
pub mod naming;
pub mod pipeline;
pub mod render;
