//! A parser for the subset of XML that tile-map documents use, and a serializer for
//! the trees it builds.
//!
//! The grammar is stated once, as specification functions over the characters of
//! the input (`grammar`). Two parsers implement it (`parse`): one builds a tree that
//! owns its strings (`types::Xml`), the other a tree whose strings borrow from the
//! input (`types::XmlRef`). Both are proved to return exactly what the grammar
//! states, so they accept the same documents and build the same trees. The
//! serializer (`serialize`) is proved to write what `serialize::render` states.
//!
//! What holds of the grammar whatever the input is proved in `laws`: among other
//! things that the last value of a repeated attribute stands, that a tag which
//! closes itself has no child sequence, and that the text written for a tree is
//! read back as that tree. The modules `layout`, `printable`, `roundtrip` and
//! `parsed` hold the steps of the last of these proofs.
//!
//! Two functions of the standard library are used without proof, both in `chars`:
//! `char::is_alphanumeric` and `char::is_whitespace`, which decide the classes
//! of characters beyond ASCII.

pub mod chars;
pub mod error;
pub mod model;
pub mod grammar;
pub mod input;
pub mod text;
pub mod lexer;
pub mod attributes;
pub mod types;
pub mod parse;
pub mod serialize;
pub mod layout;
pub mod printable;
pub mod roundtrip;
pub mod parsed;
pub mod laws;
