//! A streaming lexical reader for a simplified markup dialect (a strict
//! subset of XML without namespaces, CDATA, declarations or processing
//! instructions).
//!
//! The reader turns an in-memory UTF-8 buffer into an ordered sequence of
//! lexical events: element starts, attributes, text runs, comments and
//! element ends.  It never checks that a closing tag name matches its
//! opening tag; that is left to higher layers, such as the tree builder in
//! [`tree`].
//!
//! The core is a character-at-a-time state machine, specified by the spec
//! functions in [`model`] and implemented by [`machine::Machine`].  Two
//! reader front ends expose it: the [`Token`]-based [`ReaderForMicroXml`]
//! at the crate root, which reports comments as data, and the
//! [`Event`]-based reader in [`reader_for_microxml`], which skips them.

pub mod chars;
pub mod laws;
pub mod machine;
pub mod model;
pub mod nesting;
pub mod reader;
pub mod reader_for_microxml;
pub mod scan;
pub mod tree;

pub use chars::is_ws;
pub use machine::PosChar;
pub use reader::ReaderForMicroXml;
pub use reader::Token;
