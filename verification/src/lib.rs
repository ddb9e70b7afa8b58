//! Core library of a software wireframe renderer: mesh faces with their
//! validity rules, parsing of face statements from model files, and the
//! small supporting types (screens, HUDs, message bus) that the windowing
//! layer builds on.
//!
//! Everything numeric here is integer index bookkeeping; the floating-point
//! vector algebra, camera and projection pipeline live in the application
//! crate, which calls into this library for every face- and index-level
//! decision.

pub mod geometry;
pub mod model;
pub mod message_bus;
pub mod screens;
