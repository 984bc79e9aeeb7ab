//! The codec core: tokens, the byte-pair-encoding codec and its trainer.

pub mod byte_pair_encoding;
pub mod model;
pub mod token;
pub mod types;

pub use byte_pair_encoding::BytePairEncodingCodec;
pub use byte_pair_encoding::BytePairEncodingCodecTrainer;
pub use byte_pair_encoding::INITIAL_VOCABULARY_SIZE;
pub use token::Token;
pub use types::Codec;
pub use types::CodecError;
