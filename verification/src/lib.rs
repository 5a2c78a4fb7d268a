//! An in-memory inverted index over archive-content listings.
//!
//! Each record pairs an archive identifier with the list of file paths the
//! archive contains. The index maps every `/`-separated path segment (a term)
//! to the ordered list of document ordinals that contain it, together with the
//! inputs of the inverse-document-frequency formula for each term. Queries
//! rank documents by the fraction of the query's terms they contain.

pub mod builder;
pub mod errors;
pub mod index;
pub mod score;
pub mod search;
pub mod store;
pub mod tokenize;

pub use errors::IndexError;
pub use index::DocumentId;
pub use index::FileData;
pub use index::IdfWeight;
pub use index::IndexedData;
pub use index::Term;
pub use score::Score;
pub use search::SearchData;
pub use search::SearchMatch;
pub use search::SearchResult;
pub use store::IndexStore;
