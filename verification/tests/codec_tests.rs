use bpe_codec::codec::BytePairEncodingCodec;
use bpe_codec::codec::BytePairEncodingCodecTrainer;
use bpe_codec::codec::Codec;
use bpe_codec::codec::CodecError;
use bpe_codec::codec::Token;

#[test]
fn zero_merge_round_trip() {
    let trainer = BytePairEncodingCodecTrainer::new();
    let codec = trainer.get_codec();
    let tokens = codec.encode("hello");
    assert_eq!(tokens.len(), 5);
    assert_eq!(
        tokens,
        vec![
            Token::from(104u32),
            Token::from(101u32),
            Token::from(108u32),
            Token::from(108u32),
            Token::from(111u32),
        ]
    );
    assert_eq!(codec.decode(&tokens).unwrap(), "hello");
}

#[test]
fn fresh_codec_has_base_vocab() {
    let codec = BytePairEncodingCodec::new();
    assert_eq!(codec.vocab_size(), 256);
    for value in [0u32, 97, 255] {
        assert_eq!(
            codec.decode_token(Token::from(value)).unwrap(),
            vec![value as u8]
        );
    }
}

#[test]
fn single_merge_on_aaaa() {
    let mut trainer = BytePairEncodingCodecTrainer::new();
    trainer.train("aaaa", 1).unwrap();
    let codec = trainer.get_codec();
    assert_eq!(codec.vocab_size(), 257);
    assert_eq!(codec.decode_token(Token::from(256u32)).unwrap(), vec![97u8, 97u8]);
    let tokens = codec.encode("aaaa");
    assert_eq!(tokens, vec![Token::from(256u32), Token::from(256u32)]);
    assert_eq!(codec.decode(&tokens).unwrap(), "aaaa");
}

#[test]
fn single_merge_on_aaaaa_leaves_tail_byte() {
    let mut trainer = BytePairEncodingCodecTrainer::new();
    trainer.train("aaaaa", 1).unwrap();
    let codec = trainer.get_codec();
    let tokens = codec.encode("aaaaa");
    assert_eq!(
        tokens,
        vec![Token::from(256u32), Token::from(256u32), Token::from(97u32)]
    );
    assert_eq!(codec.decode(&tokens).unwrap(), "aaaaa");
}

#[test]
fn two_merges_on_ababab() {
    let mut trainer = BytePairEncodingCodecTrainer::new();
    trainer.train("ababab", 2).unwrap();
    let codec = trainer.get_codec();
    assert_eq!(codec.vocab_size(), 258);
    assert_eq!(codec.decode_token(Token::from(256u32)).unwrap(), vec![97u8, 98u8]);
    assert_eq!(
        codec.decode_token(Token::from(257u32)).unwrap(),
        vec![97u8, 98u8, 97u8, 98u8]
    );
    let tokens = codec.encode("ababab");
    assert_eq!(tokens, vec![Token::from(257u32), Token::from(256u32)]);
    assert_eq!(codec.decode(&tokens).unwrap(), "ababab");
}

#[test]
fn multibyte_utf8_round_trip() {
    let trainer = BytePairEncodingCodecTrainer::new();
    let codec = trainer.get_codec();
    let tokens = codec.encode("\u{e9}");
    assert_eq!(tokens, vec![Token::from(195u32), Token::from(169u32)]);
    assert_eq!(codec.decode(&tokens).unwrap(), "\u{e9}");
}

#[test]
fn empty_corpus_training_fails() {
    let mut trainer = BytePairEncodingCodecTrainer::new();
    assert_eq!(trainer.train("", 1), Err(CodecError::NoPairsAvailable));
    let codec = trainer.get_codec();
    assert_eq!(codec.vocab_size(), 256);
    let tokens = codec.encode("hi");
    assert_eq!(tokens.len(), 2);
}

#[test]
fn single_token_corpus_training_fails() {
    let mut trainer = BytePairEncodingCodecTrainer::new();
    assert_eq!(trainer.train("a", 1), Err(CodecError::NoPairsAvailable));
    assert_eq!(trainer.get_codec().vocab_size(), 256);
}

#[test]
fn zero_merges_is_a_no_op() {
    let mut trainer = BytePairEncodingCodecTrainer::new();
    assert_eq!(trainer.train("abc", 0), Ok(()));
    assert_eq!(trainer.get_codec().vocab_size(), 256);
}

#[test]
fn exhausted_stream_keeps_completed_merges() {
    let mut trainer = BytePairEncodingCodecTrainer::new();
    assert_eq!(trainer.train("aa", 3), Err(CodecError::NoPairsAvailable));
    let codec = trainer.get_codec();
    assert_eq!(codec.vocab_size(), 257);
    assert_eq!(codec.decode_token(Token::from(256u32)).unwrap(), vec![97u8, 97u8]);
}

#[test]
fn tie_break_prefers_earliest_first_occurrence() {
    let mut trainer = BytePairEncodingCodecTrainer::new();
    trainer.train("abcabc", 1).unwrap();
    let codec = trainer.get_codec();
    assert_eq!(codec.decode_token(Token::from(256u32)).unwrap(), vec![97u8, 98u8]);
}

#[test]
fn byte_length_is_conserved() {
    let mut trainer = BytePairEncodingCodecTrainer::new();
    let corpus = "the cat and the dog and the bird";
    trainer.train(corpus, 5).unwrap();
    let codec = trainer.get_codec();
    let tokens = codec.encode(corpus);
    let total: usize = tokens
        .iter()
        .map(|t| codec.decode_token(*t).unwrap().len())
        .sum();
    assert_eq!(total, corpus.len());
}

#[test]
fn encoding_never_longer_than_input() {
    let mut trainer = BytePairEncodingCodecTrainer::new();
    trainer.train("mississippi", 3).unwrap();
    let codec = trainer.get_codec();
    for input in ["mississippi", "missouri", "", "a", "ss"] {
        assert!(codec.encode(input).len() <= input.len());
    }
}

#[test]
fn encoding_is_deterministic() {
    let mut trainer = BytePairEncodingCodecTrainer::new();
    trainer.train("banana banana", 4).unwrap();
    let codec = trainer.get_codec();
    assert_eq!(codec.encode("banana banana"), codec.encode("banana banana"));
}

#[test]
fn more_merges_compress_the_training_corpus_at_least_as_well() {
    let corpus = "abab abab abab abab";
    let mut small = BytePairEncodingCodecTrainer::new();
    small.train(corpus, 1).unwrap();
    let mut large = BytePairEncodingCodecTrainer::new();
    large.train(corpus, 3).unwrap();
    let short = large.get_codec().encode(corpus).len();
    let long = small.get_codec().encode(corpus).len();
    assert!(short <= long);
}

#[test]
fn trained_codec_round_trips_other_text() {
    let mut trainer = BytePairEncodingCodecTrainer::new();
    trainer.train("the quick brown fox jumps over the lazy dog", 10).unwrap();
    let codec = trainer.get_codec();
    for input in ["the fox", "jumps high", "\u{e9}l\u{e8}ve", "", "zzz"] {
        let tokens = codec.encode(input);
        assert_eq!(codec.decode(&tokens).unwrap(), input);
    }
}

#[test]
fn decode_rejects_unknown_tokens() {
    let codec = BytePairEncodingCodec::new();
    assert_eq!(
        codec.decode(&[Token::from(9999u32)]),
        Err(CodecError::UnknownToken)
    );
    assert_eq!(
        codec.decode_token(Token::from(256u32)),
        Err(CodecError::UnknownToken)
    );
}

#[test]
fn decode_rejects_invalid_utf8() {
    let codec = BytePairEncodingCodec::new();
    // 195 is the first byte of a two-byte UTF-8 sequence; alone it is invalid.
    assert_eq!(
        codec.decode(&[Token::from(195u32)]),
        Err(CodecError::InvalidInput)
    );
}

#[test]
fn token_as_byte_covers_base_ids_only() {
    assert_eq!(Token::from(65u32).as_byte(), Some(65u8));
    assert_eq!(Token::from(255u32).as_byte(), Some(255u8));
    assert_eq!(Token::from(256u32).as_byte(), None);
    assert_eq!(Token::from(97u8), Token::from(97u32));
}

#[test]
fn default_matches_new() {
    let codec = BytePairEncodingCodec::default();
    assert_eq!(codec.vocab_size(), 256);
    let trainer = BytePairEncodingCodecTrainer::default();
    assert_eq!(trainer.get_codec().vocab_size(), 256);
}
