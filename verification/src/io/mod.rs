//! Image file readers.

pub mod crc;
pub mod crc_laws;
pub mod huffman;
pub mod huffman_laws;
pub mod lzhuf;
pub mod lzhuf_laws;
pub mod lzw;
pub mod lzw_laws;
pub mod paths;
pub mod td0_file_laws;
pub mod td0_laws;
pub mod td0_reader;
pub mod td0_record_laws;
