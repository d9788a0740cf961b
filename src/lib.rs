pub mod bytes;
pub mod fs;
pub mod ingest;
pub mod store;
pub mod weaviate;
