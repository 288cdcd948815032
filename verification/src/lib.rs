//! Construction and lifetime layer for nodes of a document tree.
//!
//! Typed elements (a video element extending a shared media-element base,
//! which extends a generic node) are built by value embedding, placed on a
//! traced arena heap, kept alive through reference-counted root guards, and
//! bound one-to-one to scripting-runtime wrapper objects (reflection).

pub mod chain;
pub mod heap;
pub mod document;
