//! A minimal full-text search engine core: document analysis, an inverted
//! index with insertion-ordered document identifiers, a binary codec for
//! persisting the index, and keyword search with union semantics.
#![verifier::loop_isolation(false)]

pub mod analysis;
pub mod codec;
pub mod index;
pub mod pipeline;
pub mod text;

pub use analysis::analyze;
pub use analysis::analyzed_terms;
pub use analysis::AnalyzedDocument;
pub use codec::read_u16;
pub use codec::read_u32;
pub use codec::IndexError;
pub use codec::IndexWriterError;
pub use index::Document;
pub use index::Index;
pub use index::IndexModel;
pub use index::IndexWriter;
pub use index::Postings;
pub use pipeline::build_index;
pub use pipeline::is_hidden_name;
pub use text::lower_of;
pub use text::unicode_words_of;
