pub mod bits;
pub mod checksum;
pub mod compress;
pub mod fixed;
pub mod huffman;
pub mod inflate;
pub mod stored;
pub mod tables;

pub use compress::compress;
pub use inflate::deflate;
pub use stored::compress_stored;
