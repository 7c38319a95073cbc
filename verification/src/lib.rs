//! The decisions of an image optimisation server: which format an upload is in, which resize and
//! encode steps a request asks for, where a face is, and how each outcome is answered.

pub mod crop;
pub mod face;
pub mod laws;
pub mod pipeline;
pub mod server;
pub mod sizing;
pub mod text;
pub mod transform;
pub mod vips;
