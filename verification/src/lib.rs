pub mod adaptive_dictionary;
pub mod bitpack;
pub mod compression;
pub mod errors;
pub mod huffman;
pub mod preprocessor;

pub use compression::{compress, decompress, deserialize_frequency_table, serialize_frequency_table};
