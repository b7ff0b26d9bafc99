//! C2PA manifest embedding and hard binding for unstructured text.
//!
//! A C2PA Manifest Store travels inside a Unicode text stream as a run of
//! non-rendering variation selectors, introduced by a `U+FEFF` marker.
//!
//! - [`vs`]: the byte ⇄ variation-selector alphabet.
//! - [`wrapper`]: encode, embed, locate and strip the wrapper frame, with the
//!   deterministic padding.
//! - [`hardbinding`]: the `c2pa.hash.data` coverage, with compute and verify.
//! - [`text`]: the UTF-8 model of text shared by the modules above.

pub mod error;
pub mod hardbinding;
pub mod text;
pub mod vs;
pub mod wrapper;

pub use error::Error;
pub use hardbinding::{Algorithm, DataHash, Exclusion, Hasher, Normalizer};
pub use wrapper::{Wrapper, MAGIC, MARKER, VERSION};
