pub mod format;
pub mod docmap;
pub mod reader;
pub mod writer;
pub mod dictionary;
pub mod merge;
