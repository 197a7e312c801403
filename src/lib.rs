//! Compiles a decoded interface document (paths, operations, parameters
//! and data schemas) into a resolved intermediate representation, and
//! renders it as Rust type declarations and actix-web routing.
//!
//! The pipeline: `mapper` turns schemas into `model`s; `service` builds the
//! component namespaces and the operations; `emitter` renders them.
//! `topology` orders named nodes so that dependencies come first, over the
//! insertion-ordered sets of `ordered_set`.
pub mod document;
pub mod emitter;
pub mod mapper;
pub mod model;
pub mod ordered_set;
pub mod service;
pub mod text;
pub mod topology;
