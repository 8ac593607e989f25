//! A piece-table text buffer: the document is an ordered sequence of
//! spans into two append-only byte buffers, so edits never copy the
//! unchanged parts of the text. Line lookup is served from per-span
//! caches of newline positions. The document facade adds line-range
//! queries and coordinate translation; the key map turns terminal key
//! events into editor commands.
pub mod buffer;
pub mod byteseq;
pub mod document;
pub mod keymap;
pub mod laws;
