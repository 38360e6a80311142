//! Verified core of the bruecke runtime: the pieces of a browser game engine that
//! decide and compute, apart from the floating-point drawing and the embedded
//! Python interpreter.
//!
//! - [`base64`]: base64 text of the compiled module, for embedding in one page.
//! - [`markup`]: cutting a section out of a page template between two markers.
//! - [`rng`]: the xorshift64 generator behind `rand`, `randint`, `choice`, `shuffle`.
//! - [`literal`]: the JSON-literal text of stored values, written and read back.
//! - [`store`]: the persistent key-value store and its JSON object text.
//! - [`scene`]: counting non-blank source lines and the vertices of queued shapes.
//! - [`status`]: the run status, its JSON report, and the context-menu signals.
//! - [`bundle`]: the single self-contained page built from the module and its scripts.
pub mod text;
pub mod base64;
pub mod markup;
pub mod rng;
pub mod literal;
pub mod store;
pub mod scene;
pub mod status;
pub mod bundle;

pub use base64::b64;
pub use markup::between;
