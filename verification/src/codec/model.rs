//! The mathematical model of the codec.
//!
//! Everything the public contracts promise is phrased over the functions in
//! this module: a vocabulary is a sequence of byte sequences (the expansion
//! of each token id, in id order), an encoding table is a map from byte
//! sequences to tokens, and training is a fold of merge rounds over both.

use vstd::prelude::*;

use crate::codec::token::Token;

verus! {

/// All 256 single-byte expansions, in byte order: the vocabulary of a
/// freshly constructed codec.
pub open spec fn base_expansions() -> Seq<Seq<u8>> {
    Seq::new(256, |i: int| seq![i as u8])
}

/// The encoding table of a freshly constructed codec: every one-byte
/// sequence names its base token, and nothing else is mapped.
pub open spec fn base_encoding_map() -> Map<Seq<u8>, Token> {
    Map::new(|k: Seq<u8>| k.len() == 1, |k: Seq<u8>| Token(k[0] as u32))
}

/// Whether every token of `tokens` has an expansion in `voc`.
pub open spec fn all_tokens_known(voc: Seq<Seq<u8>>, tokens: Seq<Token>) -> bool {
    forall|i: int| 0 <= i < tokens.len() ==> (#[trigger] tokens[i]).0 < voc.len()
}

/// The concatenation of the expansions of `tokens`: what decoding yields.
pub open spec fn concat_expansions(voc: Seq<Seq<u8>>, tokens: Seq<Token>) -> Seq<u8>
    decreases tokens.len(),
{
    if tokens.len() == 0 {
        Seq::empty()
    } else {
        voc[tokens[0].0 as int] + concat_expansions(voc, tokens.drop_first())
    }
}

/// The sum of the expansion lengths of `tokens`.
pub open spec fn expansion_len_sum(voc: Seq<Seq<u8>>, tokens: Seq<Token>) -> nat
    decreases tokens.len(),
{
    if tokens.len() == 0 {
        0
    } else {
        voc[tokens[0].0 as int].len() + expansion_len_sum(voc, tokens.drop_first())
    }
}

/// The largest `l <= hi` such that the first `l` bytes of `bytes` are a key
/// of `emap`, or `0` if no such length exists.
pub open spec fn match_len_from(emap: Map<Seq<u8>, Token>, bytes: Seq<u8>, hi: int) -> int
    decreases hi,
{
    if hi <= 0 {
        0
    } else if emap.contains_key(bytes.take(hi)) {
        hi
    } else {
        match_len_from(emap, bytes, hi - 1)
    }
}

/// The length a greedy longest-match encoder consumes at the head of `bytes`.
pub open spec fn match_len(emap: Map<Seq<u8>, Token>, bytes: Seq<u8>) -> int {
    match_len_from(emap, bytes, bytes.len() as int)
}

/// Greedy longest-match encoding: at each position take the longest prefix
/// that is a key of `emap` and emit its token.
pub open spec fn greedy_encoding(emap: Map<Seq<u8>, Token>, bytes: Seq<u8>) -> Seq<Token>
    decreases bytes.len(),
{
    if bytes.len() == 0 {
        Seq::empty()
    } else {
        let l = match_len(emap, bytes);
        if 1 <= l <= bytes.len() {
            seq![emap[bytes.take(l)]] + greedy_encoding(emap, bytes.skip(l))
        } else {
            Seq::empty()
        }
    }
}

/// The length of a concatenation of expansions is the sum of their lengths.
pub proof fn lemma_concat_expansions_len(voc: Seq<Seq<u8>>, tokens: Seq<Token>)
    ensures
        concat_expansions(voc, tokens).len() == expansion_len_sum(voc, tokens),
    decreases tokens.len(),
{
    if tokens.len() > 0 {
        lemma_concat_expansions_len(voc, tokens.drop_first());
    }
}

/// When every expansion is non-empty, a token sequence is at most as long
/// as the bytes it expands to.
pub proof fn lemma_expansion_len_sum_lower(voc: Seq<Seq<u8>>, tokens: Seq<Token>)
    requires
        all_tokens_known(voc, tokens),
        forall|t: int| 0 <= t < voc.len() ==> (#[trigger] voc[t]).len() >= 1,
    ensures
        expansion_len_sum(voc, tokens) >= tokens.len(),
    decreases tokens.len(),
{
    if tokens.len() > 0 {
        assert(tokens[0].0 < voc.len());
        assert(forall|i: int|
            0 <= i < tokens.drop_first().len() ==> (#[trigger] tokens.drop_first()[i]).0
                < voc.len());
        lemma_expansion_len_sum_lower(voc, tokens.drop_first());
    }
}

/// Concatenated expansions grow one expansion at a time.
pub proof fn lemma_concat_expansions_push(voc: Seq<Seq<u8>>, tokens: Seq<Token>, t: Token)
    ensures
        concat_expansions(voc, tokens.push(t)) == concat_expansions(voc, tokens) + voc[t.0 as int],
    decreases tokens.len(),
{
    let lhs = concat_expansions(voc, tokens.push(t));
    if tokens.len() == 0 {
        assert(tokens.push(t).drop_first() =~= Seq::<Token>::empty());
        assert(tokens.push(t)[0] == t);
        assert(lhs == voc[t.0 as int] + concat_expansions(voc, Seq::<Token>::empty()));
        assert(concat_expansions(voc, tokens) == Seq::<u8>::empty());
        assert(lhs =~= concat_expansions(voc, tokens) + voc[t.0 as int]);
    } else {
        assert(tokens.push(t).len() == tokens.len() + 1);
        assert(tokens.push(t)[0] == tokens[0]);
        assert(tokens.push(t).drop_first() =~= tokens.drop_first().push(t));
        lemma_concat_expansions_push(voc, tokens.drop_first(), t);
        assert(lhs == voc[tokens[0].0 as int] + (concat_expansions(voc, tokens.drop_first())
            + voc[t.0 as int]));
        assert(concat_expansions(voc, tokens) == voc[tokens[0].0 as int] + concat_expansions(
            voc,
            tokens.drop_first(),
        ));
        assert(lhs =~= concat_expansions(voc, tokens) + voc[t.0 as int]);
    }
}

/// Pins `match_len_from` down: if length `n` matches and no length in
/// `(n, hi]` does, the greedy match length is `n`.
pub proof fn lemma_match_len_from_pinned(
    emap: Map<Seq<u8>, Token>,
    bytes: Seq<u8>,
    n: int,
    hi: int,
)
    requires
        1 <= n <= hi,
        emap.contains_key(bytes.take(n)),
        forall|l: int| n < l <= hi ==> !emap.contains_key(#[trigger] bytes.take(l)),
    ensures
        match_len_from(emap, bytes, hi) == n,
    decreases hi,
{
    if hi > n {
        lemma_match_len_from_pinned(emap, bytes, n, hi - 1);
    }
}

/// What `match_len_from` returns: zero or a matching length, with no match
/// at any greater length up to `hi`.
pub proof fn lemma_match_len_from_props(emap: Map<Seq<u8>, Token>, bytes: Seq<u8>, hi: int)
    ensures
        0 <= match_len_from(emap, bytes, hi),
        match_len_from(emap, bytes, hi) != 0 ==> 1 <= match_len_from(emap, bytes, hi) <= hi
            && emap.contains_key(bytes.take(match_len_from(emap, bytes, hi))),
        forall|l2: int|
            match_len_from(emap, bytes, hi) < l2 <= hi ==> !emap.contains_key(
                #[trigger] bytes.take(l2),
            ),
    decreases hi,
{
    if hi > 0 && !emap.contains_key(bytes.take(hi)) {
        lemma_match_len_from_props(emap, bytes, hi - 1);
    }
}

/// The adjacent pair starting at position `i` of the stream.
pub open spec fn pair_at(stream: Seq<Token>, i: int) -> (Token, Token) {
    (stream[i], stream[i + 1])
}

/// How many of the first `n` positions of the stream carry the pair `p`.
/// Overlapping occurrences each count: `xxx` counts `(x, x)` twice.
pub open spec fn pair_count_upto(stream: Seq<Token>, p: (Token, Token), n: int) -> nat
    decreases n,
{
    if n <= 0 {
        0
    } else {
        pair_count_upto(stream, p, n - 1) + (if pair_at(stream, n - 1) == p {
            1nat
        } else {
            0nat
        })
    }
}

/// How many positions of the stream carry the pair `p`.
pub open spec fn pair_count(stream: Seq<Token>, p: (Token, Token)) -> nat {
    pair_count_upto(stream, p, stream.len() - 1)
}

/// Whether the pair at position `i` has a count at least that of every pair
/// starting before position `m`.
pub open spec fn beats_prefix(stream: Seq<Token>, i: int, m: int) -> bool {
    forall|j: int|
        0 <= j < m ==> pair_count(stream, #[trigger] pair_at(stream, j)) <= pair_count(
            stream,
            pair_at(stream, i),
        )
}

/// Whether the pair at position `i` has maximal count among all adjacent
/// pairs of the stream.
pub open spec fn is_top_pair_at(stream: Seq<Token>, i: int) -> bool {
    &&& 0 <= i < stream.len() - 1
    &&& beats_prefix(stream, i, stream.len() - 1)
}

/// The first position at or after `i` whose pair has maximal count.
pub open spec fn winner_index_from(stream: Seq<Token>, i: int) -> int
    decreases stream.len() - 1 - i,
{
    if !(0 <= i < stream.len() - 1) {
        i
    } else if is_top_pair_at(stream, i) {
        i
    } else {
        winner_index_from(stream, i + 1)
    }
}

/// The first position of the stream whose pair has maximal count.
pub open spec fn winner_index(stream: Seq<Token>) -> int {
    winner_index_from(stream, 0)
}

/// The pair a merge round replaces: the pair with the maximal count, ties
/// broken in favour of the pair that first occurs earliest in the stream.
pub open spec fn winning_pair(stream: Seq<Token>) -> (Token, Token) {
    pair_at(stream, winner_index(stream))
}

/// A pair count over the first `n` positions is at most `n`.
pub proof fn lemma_pair_count_upto_bound(stream: Seq<Token>, p: (Token, Token), n: int)
    ensures
        pair_count_upto(stream, p, n) <= (if n <= 0 {
            0
        } else {
            n
        }),
    decreases n,
{
    if n > 0 {
        lemma_pair_count_upto_bound(stream, p, n - 1);
    }
}

/// Pair counts grow with the prefix they are taken over.
pub proof fn lemma_pair_count_upto_monotone(
    stream: Seq<Token>,
    p: (Token, Token),
    n1: int,
    n2: int,
)
    requires
        n1 <= n2,
    ensures
        pair_count_upto(stream, p, n1) <= pair_count_upto(stream, p, n2),
    decreases n2 - n1,
{
    if n1 < n2 {
        lemma_pair_count_upto_monotone(stream, p, n1, n2 - 1);
    }
}

/// A pair that occurs at position `i` has count at least one.
pub proof fn lemma_pair_count_at(stream: Seq<Token>, i: int)
    requires
        0 <= i < stream.len() - 1,
    ensures
        pair_count(stream, pair_at(stream, i)) >= 1,
{
    let p = pair_at(stream, i);
    assert(pair_count_upto(stream, p, i + 1) >= 1);
    lemma_pair_count_upto_monotone(stream, p, i + 1, stream.len() - 1);
}

proof fn lemma_argmax_prefix(stream: Seq<Token>, m: int)
    requires
        1 <= m <= stream.len() - 1,
    ensures
        exists|i: int| 0 <= i < m && #[trigger] beats_prefix(stream, i, m),
    decreases m,
{
    if m == 1 {
        assert(beats_prefix(stream, 0, m));
    } else {
        lemma_argmax_prefix(stream, m - 1);
        let i0 = choose|i: int| 0 <= i < m - 1 && #[trigger] beats_prefix(stream, i, m - 1);
        if pair_count(stream, pair_at(stream, m - 1)) > pair_count(stream, pair_at(stream, i0)) {
            assert(beats_prefix(stream, m - 1, m));
        } else {
            assert(beats_prefix(stream, i0, m));
        }
    }
}

proof fn lemma_winner_index_from_reaches(stream: Seq<Token>, i: int, i0: int)
    requires
        0 <= i <= i0 < stream.len() - 1,
        is_top_pair_at(stream, i0),
        forall|j: int| i <= j < i0 ==> !is_top_pair_at(stream, j),
    ensures
        winner_index_from(stream, i) == i0,
    decreases i0 - i,
{
    if i < i0 {
        lemma_winner_index_from_reaches(stream, i + 1, i0);
    }
}

/// The winner index is the position of the first maximal pair: a position
/// that beats everything, with everything before it strictly weaker.
pub proof fn lemma_winner_pinned(stream: Seq<Token>, i0: int)
    requires
        is_top_pair_at(stream, i0),
        forall|j: int|
            0 <= j < i0 ==> pair_count(stream, #[trigger] pair_at(stream, j)) < pair_count(
                stream,
                pair_at(stream, i0),
            ),
    ensures
        winner_index(stream) == i0,
{
    assert forall|j: int| 0 <= j < i0 implies !is_top_pair_at(stream, j) by {
        if is_top_pair_at(stream, j) {
            assert(pair_count(stream, pair_at(stream, i0)) <= pair_count(
                stream,
                pair_at(stream, j),
            ));
        }
    }
    lemma_winner_index_from_reaches(stream, 0, i0);
}

/// A stream of at least two tokens has a winner, at a position inside the
/// stream.
pub proof fn lemma_winner_props(stream: Seq<Token>)
    requires
        stream.len() >= 2,
    ensures
        0 <= winner_index(stream) < stream.len() - 1,
        is_top_pair_at(stream, winner_index(stream)),
{
    lemma_argmax_prefix(stream, stream.len() - 1);
    let i0 = choose|i: int|
        0 <= i < stream.len() - 1 && #[trigger] beats_prefix(stream, i, stream.len() - 1);
    assert(is_top_pair_at(stream, i0));
    lemma_winner_index_from_in_range(stream, 0, i0);
}

proof fn lemma_winner_index_from_in_range(stream: Seq<Token>, i: int, i0: int)
    requires
        0 <= i <= i0 < stream.len() - 1,
        is_top_pair_at(stream, i0),
    ensures
        i <= winner_index_from(stream, i) <= i0,
        is_top_pair_at(stream, winner_index_from(stream, i)),
    decreases i0 - i,
{
    if !is_top_pair_at(stream, i) {
        lemma_winner_index_from_in_range(stream, i + 1, i0);
    }
}

/// Left-to-right non-overlapping replacement of the pair `p` by `new_token`:
/// whenever the next two tokens form `p`, emit `new_token` and advance by
/// two, otherwise emit the next token and advance by one.
pub open spec fn rewrite_stream(stream: Seq<Token>, p: (Token, Token), new_token: Token) -> Seq<
    Token,
>
    decreases stream.len(),
{
    if stream.len() >= 2 && stream[0] == p.0 && stream[1] == p.1 {
        seq![new_token] + rewrite_stream(stream.skip(2), p, new_token)
    } else if stream.len() >= 1 {
        seq![stream[0]] + rewrite_stream(stream.skip(1), p, new_token)
    } else {
        Seq::empty()
    }
}

/// The token stream a corpus is lowered to before training: one base token
/// per byte.
pub open spec fn byte_tokens(bytes: Seq<u8>) -> Seq<Token> {
    bytes.map_values(|b: u8| Token(b as u32))
}

/// One merge round over the model state: pick the winning pair, give it the
/// next id, install its expansion, and rewrite the stream.
pub open spec fn train_step(
    voc: Seq<Seq<u8>>,
    emap: Map<Seq<u8>, Token>,
    stream: Seq<Token>,
) -> (Seq<Seq<u8>>, Map<Seq<u8>, Token>, Seq<Token>) {
    let p = winning_pair(stream);
    let new_token = Token(voc.len() as u32);
    let bytes = voc[p.0.0 as int] + voc[p.1.0 as int];
    (voc.push(bytes), emap.insert(bytes, new_token), rewrite_stream(stream, p, new_token))
}

/// The model of training: `merges` rounds of `train_step`, or `None` if some
/// round finds a stream of fewer than two tokens.
pub open spec fn train_result(
    voc: Seq<Seq<u8>>,
    emap: Map<Seq<u8>, Token>,
    stream: Seq<Token>,
    merges: nat,
) -> Option<(Seq<Seq<u8>>, Map<Seq<u8>, Token>, Seq<Token>)>
    decreases merges,
{
    if merges == 0 {
        Some((voc, emap, stream))
    } else if stream.len() < 2 {
        None
    } else {
        let (voc2, emap2, stream2) = train_step(voc, emap, stream);
        train_result(voc2, emap2, stream2, (merges - 1) as nat)
    }
}

/// Every token of a rewritten stream is the fresh token or one of the old
/// stream's tokens.
pub proof fn lemma_rewrite_stream_elements(stream: Seq<Token>, p: (Token, Token), new_token: Token)
    ensures
        forall|j: int|
            0 <= j < rewrite_stream(stream, p, new_token).len()
                ==> #[trigger] rewrite_stream(stream, p, new_token)[j] == new_token || exists|
                i: int,
            |
                0 <= i < stream.len() && stream[i] == rewrite_stream(stream, p, new_token)[j],
    decreases stream.len(),
{
    let r = rewrite_stream(stream, p, new_token);
    if stream.len() >= 2 && stream[0] == p.0 && stream[1] == p.1 {
        let tail = stream.skip(2);
        lemma_rewrite_stream_elements(tail, p, new_token);
        assert forall|j: int|
            0 <= j < r.len() implies #[trigger] r[j] == new_token || exists|i: int|
            0 <= i < stream.len() && stream[i] == r[j] by {
            if j > 0 {
                let r2 = rewrite_stream(tail, p, new_token);
                assert(r[j] == r2[j - 1]);
                if r2[j - 1] != new_token {
                    let i2 = choose|i: int| 0 <= i < tail.len() && tail[i] == r2[j - 1];
                    assert(stream[i2 + 2] == r2[j - 1]);
                }
            }
        }
    } else if stream.len() >= 1 {
        let tail = stream.skip(1);
        lemma_rewrite_stream_elements(tail, p, new_token);
        assert forall|j: int|
            0 <= j < r.len() implies #[trigger] r[j] == new_token || exists|i: int|
            0 <= i < stream.len() && stream[i] == r[j] by {
            if j == 0 {
                assert(stream[0] == r[0]);
            } else {
                let r2 = rewrite_stream(tail, p, new_token);
                assert(r[j] == r2[j - 1]);
                if r2[j - 1] != new_token {
                    let i2 = choose|i: int| 0 <= i < tail.len() && tail[i] == r2[j - 1];
                    assert(stream[i2 + 1] == r2[j - 1]);
                }
            }
        }
    }
}

/// Unrolls `train_result` by its last round.
pub proof fn lemma_train_result_snoc(
    voc: Seq<Seq<u8>>,
    emap: Map<Seq<u8>, Token>,
    stream: Seq<Token>,
    j: nat,
)
    ensures
        train_result(voc, emap, stream, j + 1) == (match train_result(voc, emap, stream, j) {
            None => None::<(Seq<Seq<u8>>, Map<Seq<u8>, Token>, Seq<Token>)>,
            Some(st) => if st.2.len() < 2 {
                None
            } else {
                Some(train_step(st.0, st.1, st.2))
            },
        }),
    decreases j,
{
    if stream.len() < 2 {
        assert(train_result(voc, emap, stream, j + 1) is None);
        if j > 0 {
            assert(train_result(voc, emap, stream, j) is None);
        }
    } else {
        let (voc2, emap2, stream2) = train_step(voc, emap, stream);
        assert(train_result(voc, emap, stream, j + 1) == train_result(voc2, emap2, stream2, j));
        if j == 0 {
            assert(train_result(voc2, emap2, stream2, 0) == Some((voc2, emap2, stream2)));
            assert(train_result(voc, emap, stream, 0) == Some((voc, emap, stream)));
        } else {
            assert(train_result(voc, emap, stream, j) == train_result(
                voc2,
                emap2,
                stream2,
                (j - 1) as nat,
            ));
            lemma_train_result_snoc(voc2, emap2, stream2, (j - 1) as nat);
            assert((j - 1) as nat + 1 == j);
        }
    }
}

/// Monotone vocabulary growth: `merges` successful rounds install exactly
/// `merges` new rules, at the strictly increasing ids
/// `voc.len() .. voc.len() + merges` (so the ids are unique), every rule
/// already installed keeps its id and expansion, and every newly installed
/// expansion has at least two bytes.
pub proof fn lemma_train_result_vocab(
    voc: Seq<Seq<u8>>,
    emap: Map<Seq<u8>, Token>,
    stream: Seq<Token>,
    merges: nat,
)
    requires
        forall|t: int| 0 <= t < voc.len() ==> (#[trigger] voc[t]).len() >= 1,
        all_tokens_known(voc, stream),
        train_result(voc, emap, stream, merges) is Some,
    ensures
        ({
            let st = train_result(voc, emap, stream, merges).unwrap();
            &&& st.0.len() == voc.len() + merges
            &&& forall|i: int| 0 <= i < voc.len() ==> st.0[i] == voc[i]
            &&& forall|i: int| voc.len() <= i < st.0.len() ==> (#[trigger] st.0[i]).len() >= 2
            &&& forall|t: int| 0 <= t < st.0.len() ==> (#[trigger] st.0[t]).len() >= 1
            &&& all_tokens_known(st.0, st.2)
        }),
    decreases merges,
{
    if merges > 0 {
        assert(stream.len() >= 2);
        let p = winning_pair(stream);
        let new_token = Token(voc.len() as u32);
        let bytes = voc[p.0.0 as int] + voc[p.1.0 as int];
        let voc2 = voc.push(bytes);
        let stream2 = rewrite_stream(stream, p, new_token);
        lemma_winner_props(stream);
        assert(stream[winner_index(stream)].0 < voc.len());
        assert(stream[winner_index(stream) + 1].0 < voc.len());
        assert(bytes.len() >= 2);
        lemma_rewrite_stream_elements(stream, p, new_token);
        assert forall|j: int| 0 <= j < stream2.len() implies (#[trigger] stream2[j]).0
            < voc2.len() by {
            if stream2[j] != new_token {
                let i2 = choose|i: int| 0 <= i < stream.len() && stream[i] == stream2[j];
                assert(stream[i2].0 < voc.len());
            }
        }
        lemma_train_result_vocab(voc2, emap.insert(bytes, new_token), stream2, (merges - 1) as nat);
        let st = train_result(voc, emap, stream, merges).unwrap();
        assert(train_result(voc, emap, stream, merges) == train_result(
            voc2,
            emap.insert(bytes, new_token),
            stream2,
            (merges - 1) as nat,
        ));
        assert forall|i: int| 0 <= i < voc.len() implies st.0[i] == voc[i] by {
            assert(st.0[i] == voc2[i]);
        }
        assert forall|i: int| voc.len() <= i < st.0.len() implies (#[trigger] st.0[i]).len()
            >= 2 by {
            if i < voc2.len() {
                assert(st.0[i] == voc2[i]);
                assert(voc2[i] == bytes);
            }
        }
    }
}

/// Vocabulary size: starting from the 256 base rules, `merges` successful
/// rounds leave a vocabulary of exactly `256 + merges` rules.
pub proof fn lemma_vocab_size_after_training(
    voc: Seq<Seq<u8>>,
    emap: Map<Seq<u8>, Token>,
    stream: Seq<Token>,
    merges: nat,
)
    requires
        voc.len() == 256,
        forall|t: int| 0 <= t < voc.len() ==> (#[trigger] voc[t]).len() >= 1,
        all_tokens_known(voc, stream),
        train_result(voc, emap, stream, merges) is Some,
    ensures
        train_result(voc, emap, stream, merges).unwrap().0.len() == 256 + merges,
{
    lemma_train_result_vocab(voc, emap, stream, merges);
}

/// Once a round finds fewer than two tokens, every longer training run
/// fails.
pub proof fn lemma_train_result_stuck(
    voc: Seq<Seq<u8>>,
    emap: Map<Seq<u8>, Token>,
    stream: Seq<Token>,
    j: nat,
    k: nat,
)
    requires
        j < k,
        train_result(voc, emap, stream, j) matches Some(st) && st.2.len() < 2,
    ensures
        train_result(voc, emap, stream, k) is None,
    decreases j,
{
    if j == 0 {
        assert(stream.len() < 2);
    } else {
        assert(stream.len() >= 2);
        let (voc2, emap2, stream2) = train_step(voc, emap, stream);
        lemma_train_result_stuck(voc2, emap2, stream2, (j - 1) as nat, (k - 1) as nat);
    }
}

} // verus!
