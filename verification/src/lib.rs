//! Parsing of notes: a markdown document with an optional header block of
//! metadata, inline `#tags` and `[[wikilinks]]` becomes a record of title,
//! body, tags, links and typed metadata.
//!
//! - `metadata` reads the header block into typed values,
//! - `literal` states how values, entries and header blocks are written,
//!   and that reading inverts writing,
//! - `wikilink` recognises links in text that arrives in pieces,
//! - `markdown` stands for the markdown tokenizer and renderer,
//! - `note` scans tags and assembles the note,
//! - `text` holds the character-level helpers the others share.

pub mod text;
pub mod metadata;
pub mod literal;
pub mod wikilink;
pub mod markdown;
pub mod note;
