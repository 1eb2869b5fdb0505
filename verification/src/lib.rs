//! An editable model of an SSH client configuration that is spread over a
//! main file and the files its `Include` directives pull in.
//!
//! The document is one ordered sequence of lines, each tagged with the file
//! it was read from. Parsing never touches the file system: a
//! [`session::ParseSession`] asks for what it needs and is handed the
//! answers. Writing gives the text of one file at a time, rebuilt from the
//! lines that belong to it.
//!
//! - [`text`], [`line`]: white space, physical lines, the kinds of line.
//! - [`model`]: the document and the views that the contracts speak of.
//! - [`parser`]: what each physical line adds to the document.
//! - [`resolver`]: from the argument of an `Include` to a pattern to look up.
//! - [`session`]: parsing a root file with the files it pulls in.
//! - [`render`]: the text of one file, and the files to write on saving.
//! - [`edit`]: new host blocks and new options.
//! - [`laws`], [`roundtrip`], [`world`], [`origin`], [`ending`], [`reload`]:
//!   what is proved of all documents and of all sessions.

pub mod edit;
pub mod ending;
pub mod laws;
pub mod line;
pub mod model;
pub mod origin;
pub mod parser;
pub mod reload;
pub mod render;
pub mod resolver;
pub mod roundtrip;
pub mod session;
pub mod text;
pub mod world;
