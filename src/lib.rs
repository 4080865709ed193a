//! Renders a directory subtree as a text tree diagram.
//!
//! The walk over the filesystem happens outside this library; it hands the
//! entries of a depth-first walk to a [`collect::TreeCollector`], which prunes ignored
//! names together with everything beneath them, and the surviving entries are
//! drawn by [`render::render_lines`].
pub mod entry;
pub mod ignore;
pub mod render;
pub mod collect;
pub mod tree;
