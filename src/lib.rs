//! A small text codec: Huffman prefix codes and an ordered rewrite-rule
//! engine that encodes text with them and decodes it again.
pub mod text;
pub mod program;
pub mod compression;
pub mod decode;
