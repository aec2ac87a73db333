//! Build-time scoping of stylesheet class names.
//!
//! The library scans CSS/SCSS-like source for class selectors and
//! `:global(...)` escapes, derives a short digest from each file's
//! project-relative path, and splices renamed classes back into the text
//! without touching any other byte.  Orchestration over a whole project
//! tree, collision checking, deterministic output ordering and the watch
//! control loop are built on top of the same verified pieces.
pub mod bytes;
pub mod config;
pub mod hash;
pub mod orchestrate;
pub mod parse;
pub mod paths;
pub mod pattern;
pub mod rewrite;
pub mod watch;
