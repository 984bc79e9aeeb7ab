//! The codec capability and the errors the core surfaces.

use vstd::prelude::*;

use crate::codec::model::all_tokens_known;
use crate::codec::model::concat_expansions;
use crate::codec::token::Token;
use vstd::utf8::decode_utf8;
use vstd::utf8::encode_utf8;
use vstd::utf8::valid_utf8;

verus! {

/// The errors the codec core surfaces to its callers.
#[derive(Debug, Hash, Eq, PartialEq, Clone, Copy, Structural)]
pub enum CodecError {
    /// Bytes that are not valid UTF-8 where a string is expected.
    InvalidInput,
    /// A merge was requested while the token stream holds fewer than two
    /// tokens, so no adjacent pair exists.
    NoPairsAvailable,
    /// A token with no entry in the decode table.
    UnknownToken,
}

/// A codec over a frozen vocabulary: `encode` turns UTF-8 text into tokens,
/// `decode` turns tokens back into text.
pub trait Codec {
    /// Internal consistency of the codec's tables.
    spec fn valid(&self) -> bool;

    /// The byte sequence each token id expands to, in id order.
    spec fn expansions(&self) -> Seq<Seq<u8>>;

    /// The token sequence the codec produces for the given bytes.
    spec fn encoding(&self, bytes: Seq<u8>) -> Seq<Token>;

    /// Encode UTF-8 text into a token sequence.
    fn encode(&self, input: &str) -> (r: Vec<Token>)
        requires
            self.valid(),
        ensures
            r@ == self.encoding(encode_utf8(input@)),
    ;

    /// Decode a token sequence back into text by concatenating the tokens'
    /// expansions. Fails with `UnknownToken` on a token outside the
    /// vocabulary and with `InvalidInput` when the concatenation is not
    /// valid UTF-8 (as it can be for a truncated token sequence).
    fn decode(&self, input: &[Token]) -> (r: Result<String, CodecError>)
        requires
            self.valid(),
        ensures
            match r {
                Ok(s) => {
                    &&& all_tokens_known(self.expansions(), input@)
                    &&& valid_utf8(concat_expansions(self.expansions(), input@))
                    &&& s@ == decode_utf8(concat_expansions(self.expansions(), input@))
                },
                Err(CodecError::UnknownToken) => !all_tokens_known(self.expansions(), input@),
                Err(CodecError::InvalidInput) => {
                    &&& all_tokens_known(self.expansions(), input@)
                    &&& !valid_utf8(concat_expansions(self.expansions(), input@))
                },
                Err(_) => false,
            },
    ;
}

} // verus!
