//! The logic of a Markdown reader: the table of contents of a document
//! (heading detection, anchor slugs, and explicit `{#id}` anchors written
//! into heading lines so that a renderer can scroll to every heading), and
//! the reader's rules on themes, opening files, shortcuts and reloads.

pub mod chars;
pub mod text;
pub mod slug;
pub mod registry;
pub mod toc;
pub mod toc_laws;
pub mod reader;
