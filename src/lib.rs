
pub mod huffman;
pub mod laws;

pub use huffman::{build_tree, get_frequency_map, HuffmanError, HuffmanNode, HuffmanTree};
