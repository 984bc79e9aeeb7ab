//! The byte-pair-encoding codec and its trainer.
//!
//! The codec holds the vocabulary in two forms: `decoding_rules`, the
//! expansion of every token id in id order, and `encoding_rules`, the same
//! rules keyed by byte sequence and grouped by byte-sequence length, so that
//! the encoder can probe for the longest match one length at a time.

use vstd::prelude::*;

use crate::codec::model::all_tokens_known;
use crate::codec::model::base_encoding_map;
use crate::codec::model::base_expansions;
use crate::codec::model::byte_tokens;
use crate::codec::model::concat_expansions;
use crate::codec::model::expansion_len_sum;
use crate::codec::model::greedy_encoding;
use crate::codec::model::is_top_pair_at;
use crate::codec::model::lemma_concat_expansions_len;
use crate::codec::model::lemma_concat_expansions_push;
use crate::codec::model::lemma_expansion_len_sum_lower;
use crate::codec::model::lemma_match_len_from_pinned;
use crate::codec::model::lemma_match_len_from_props;
use crate::codec::model::lemma_pair_count_at;
use crate::codec::model::lemma_pair_count_upto_bound;
use crate::codec::model::lemma_rewrite_stream_elements;
use crate::codec::model::lemma_train_result_snoc;
use crate::codec::model::lemma_train_result_stuck;
use crate::codec::model::lemma_winner_pinned;
use crate::codec::model::lemma_winner_props;
use crate::codec::model::match_len;
use crate::codec::model::pair_at;
use crate::codec::model::pair_count;
use crate::codec::model::pair_count_upto;
use crate::codec::model::rewrite_stream;
use crate::codec::model::train_result;
use crate::codec::model::train_step;
use crate::codec::model::winner_index;
use crate::codec::model::winning_pair;
use crate::codec::token::Token;
use crate::codec::types::Codec;
use crate::codec::types::CodecError;
use vstd::utf8::decode_utf8;
use vstd::utf8::encode_utf8;
use vstd::utf8::valid_utf8;

verus! {

/// The number of reserved single-byte rules every vocabulary starts from.
pub const INITIAL_VOCABULARY_SIZE: u32 = 256;

/// The token of the latest entry of `slot` whose key is `k`, if any. Later
/// entries shadow earlier ones, so installing a rule is a plain push.
pub open spec fn slot_find(slot: Seq<(Seq<u8>, Token)>, k: Seq<u8>) -> Option<Token>
    decreases slot.len(),
{
    if slot.len() == 0 {
        None
    } else if slot.last().0 == k {
        Some(slot.last().1)
    } else {
        slot_find(slot.drop_last(), k)
    }
}

proof fn lemma_slot_find_at(slot: Seq<(Seq<u8>, Token)>, k: Seq<u8>, j: int)
    requires
        0 <= j < slot.len(),
        slot[j].0 == k,
        forall|j2: int| j < j2 < slot.len() ==> (#[trigger] slot[j2]).0 != k,
    ensures
        slot_find(slot, k) == Some(slot[j].1),
    decreases slot.len(),
{
    if j == slot.len() - 1 {
        assert(slot.last() == slot[j]);
    } else {
        assert(slot.last().0 != k);
        lemma_slot_find_at(slot.drop_last(), k, j);
        assert(slot.drop_last()[j] == slot[j]);
    }
}

proof fn lemma_slot_find_sound(slot: Seq<(Seq<u8>, Token)>, k: Seq<u8>)
    ensures
        slot_find(slot, k) matches Some(t) ==> exists|j: int|
            0 <= j < slot.len() && (#[trigger] slot[j]).0 == k && slot[j].1 == t,
    decreases slot.len(),
{
    if slot.len() > 0 && slot.last().0 != k {
        lemma_slot_find_sound(slot.drop_last(), k);
        if slot_find(slot, k) is Some {
            let t = slot_find(slot, k).unwrap();
            let j = choose|j: int|
                0 <= j < slot.drop_last().len() && (#[trigger] slot.drop_last()[j]).0 == k
                    && slot.drop_last()[j].1 == t;
            assert(slot[j] == slot.drop_last()[j]);
        }
    }
}

proof fn lemma_slot_find_push(slot: Seq<(Seq<u8>, Token)>, e: (Seq<u8>, Token), k: Seq<u8>)
    ensures
        slot_find(slot.push(e), k) == (if e.0 == k {
            Some(e.1)
        } else {
            slot_find(slot, k)
        }),
{
    assert(slot.push(e).drop_last() =~= slot);
    assert(slot.push(e).last() == e);
}

/// One encoding-table entry: key length matches its slot, its token is in
/// the vocabulary, and the key is that token's expansion.
spec fn entry_wf(voc: Seq<Seq<u8>>, slot_index: int, e: (Seq<u8>, Token)) -> bool {
    &&& e.0.len() == slot_index + 1
    &&& e.1.0 < voc.len()
    &&& voc[e.1.0 as int] == e.0
}

/// A byte-pair-encoding codec: a frozen vocabulary usable for encoding and
/// decoding.
pub struct BytePairEncodingCodec {
    /// Slot `l` maps byte sequences of length `l + 1` to their token.
    encoding_rules: Vec<Vec<(Vec<u8>, Token)>>,
    /// The expansion of every token id, in id order.
    decoding_rules: Vec<Vec<u8>>,
}

impl BytePairEncodingCodec {
    /// The expansion of every token id, in id order.
    pub closed spec fn voc(&self) -> Seq<Seq<u8>> {
        self.decoding_rules@.map_values(|v: Vec<u8>| v@)
    }

    /// The encoding table, one slot of keyed rules per byte-sequence length.
    pub closed spec fn slots(&self) -> Seq<Seq<(Seq<u8>, Token)>> {
        self.encoding_rules@.map_values(
            |slot: Vec<(Vec<u8>, Token)>| slot@.map_values(|e: (Vec<u8>, Token)| (e.0@, e.1)),
        )
    }

    /// The token the encoding table holds for the byte sequence `k`, if any.
    pub closed spec fn lookup(&self, k: Seq<u8>) -> Option<Token> {
        if 1 <= k.len() <= self.slots().len() {
            slot_find(self.slots()[k.len() - 1], k)
        } else {
            None
        }
    }

    /// The encoding table as a map from byte sequences to tokens.
    pub closed spec fn emap(&self) -> Map<Seq<u8>, Token> {
        Map::new(|k: Seq<u8>| self.lookup(k) is Some, |k: Seq<u8>| self.lookup(k).unwrap())
    }

    /// Well-formedness: the 256 base rules are present, every composite rule
    /// has an expansion of at least two bytes, and the two tables agree --
    /// every encoding entry names a token that decodes back to its key, and
    /// every expansion in the vocabulary is reachable through the encoding
    /// table.
    pub closed spec fn wf(&self) -> bool {
        &&& 256 <= self.voc().len() <= u32::MAX as int + 1
        &&& forall|b: int| 0 <= b < 256 ==> #[trigger] self.voc()[b] == seq![b as u8]
        &&& forall|t: int| 256 <= t < self.voc().len() ==> (#[trigger] self.voc()[t]).len() >= 2
        &&& 1 <= self.slots().len()
        &&& forall|li: int, j: int|
            0 <= li < self.slots().len() && 0 <= j < self.slots()[li].len() ==> entry_wf(
                self.voc(),
                li,
                #[trigger] self.slots()[li][j],
            )
        &&& forall|t: int|
            0 <= t < self.voc().len() ==> 1 <= (#[trigger] self.voc()[t]).len()
                <= self.slots().len() && self.lookup(self.voc()[t]) is Some
    }

    /// A fresh codec: exactly the 256 single-byte rules.
    pub fn new() -> (r: Self)
        ensures
            r.wf(),
            r.voc() == base_expansions(),
            r.emap() == base_encoding_map(),
    {
        let mut decoding_rules: Vec<Vec<u8>> = Vec::new();
        let mut base_slot: Vec<(Vec<u8>, Token)> = Vec::new();
        let mut b: usize = 0;
        while b < 256
            invariant
                b <= 256,
                decoding_rules@.len() == b,
                base_slot@.len() == b,
                forall|i: int| 0 <= i < b ==> (#[trigger] decoding_rules@[i])@ == seq![i as u8],
                forall|i: int|
                    0 <= i < b ==> (#[trigger] base_slot@[i]).0@ == seq![i as u8]
                        && base_slot@[i].1 == Token(i as u32),
            decreases 256 - b,
        {
            let mut key: Vec<u8> = Vec::new();
            key.push(b as u8);
            let mut key_again: Vec<u8> = Vec::new();
            key_again.push(b as u8);
            proof {
                assert(key@ == seq![b as u8]);
                assert(key_again@ == seq![b as u8]);
            }
            base_slot.push((key, Token(b as u32)));
            decoding_rules.push(key_again);
            b += 1;
        }
        let mut encoding_rules: Vec<Vec<(Vec<u8>, Token)>> = Vec::new();
        encoding_rules.push(base_slot);
        let r = BytePairEncodingCodec { encoding_rules, decoding_rules };
        proof {
            r.lemma_fresh_codec_wf();
        }
        r
    }

    proof fn lemma_fresh_codec_wf(&self)
        requires
            self.voc().len() == 256,
            self.slots().len() == 1,
            forall|i: int| 0 <= i < 256 ==> #[trigger] self.voc()[i] == seq![i as u8],
            self.slots()[0].len() == 256,
            forall|i: int|
                0 <= i < 256 ==> (#[trigger] self.slots()[0][i]).0 == seq![i as u8]
                    && self.slots()[0][i].1 == Token(i as u32),
        ensures
            self.wf(),
            self.voc() == base_expansions(),
            self.emap() == base_encoding_map(),
    {
        assert(self.voc() =~= base_expansions());
        assert forall|k: Seq<u8>| k.len() == 1 implies self.lookup(k) == Some(
            Token(k[0] as u32),
        ) by {
            let j = k[0] as int;
            assert(k =~= seq![k[0]]);
            assert(self.slots()[0][j].0 == k);
            assert forall|j2: int| j < j2 < self.slots()[0].len() implies (
            #[trigger] self.slots()[0][j2]).0 != k by {
                if self.slots()[0][j2].0 == k {
                    assert(seq![j2 as u8][0] == k[0]);
                }
            }
            lemma_slot_find_at(self.slots()[0], k, j);
        }
        assert forall|k: Seq<u8>| k.len() != 1 implies self.lookup(k) is None by {}
        assert forall|t: int| 0 <= t < self.voc().len() implies 1 <= (
        #[trigger] self.voc()[t]).len() <= self.slots().len() && self.lookup(
            self.voc()[t],
        ) is Some by {
            assert(self.voc()[t] == seq![t as u8]);
            assert(seq![t as u8].len() == 1);
        }
        assert(self.wf());
        assert(self.emap() =~= base_encoding_map());
    }

    /// The number of rules the vocabulary holds, base rules included.
    pub fn vocab_size(&self) -> (r: usize)
        ensures
            r == self.voc().len(),
    {
        self.decoding_rules.len()
    }

    /// A copy of the expansion of a token known to the vocabulary.
    fn expansion_of(&self, token: Token) -> (r: Vec<u8>)
        requires
            token.0 < self.voc().len(),
        ensures
            r@ == self.voc()[token.0 as int],
    {
        copy_bytes(&self.decoding_rules[token.0 as usize])
    }

    /// The expansion of `token`, or `UnknownToken` if the vocabulary has no
    /// entry for it.
    pub fn decode_token(&self, token: Token) -> (r: Result<Vec<u8>, CodecError>)
        ensures
            match r {
                Ok(b) => token.0 < self.voc().len() && b@ == self.voc()[token.0 as int],
                Err(e) => e == CodecError::UnknownToken && token.0 >= self.voc().len(),
            },
    {
        let index = token.0 as usize;
        if index < self.decoding_rules.len() {
            Ok(copy_bytes(&self.decoding_rules[index]))
        } else {
            Err(CodecError::UnknownToken)
        }
    }

    /// Install one rule: record `bytes` as the expansion of `new_token` and
    /// key the encoding table by `bytes`, growing the slot array as needed.
    fn add_encoding_rule(&mut self, new_token: Token, bytes: Vec<u8>)
        requires
            old(self).wf(),
            bytes@.len() >= 2,
            new_token.0 == old(self).voc().len(),
            old(self).voc().len() <= u32::MAX as int,
        ensures
            final(self).wf(),
            final(self).voc() == old(self).voc().push(bytes@),
            final(self).emap() == old(self).emap().insert(bytes@, new_token),
    {
        let ghost pre = *self;
        while self.encoding_rules.len() < bytes.len()
            invariant
                self.decoding_rules@ == pre.decoding_rules@,
                self.slots().len() >= pre.slots().len(),
                forall|l: int| 0 <= l < pre.slots().len() ==> self.slots()[l] == pre.slots()[l],
                forall|l: int|
                    pre.slots().len() <= l < self.slots().len() ==> (#[trigger] self.slots()[l])
                        =~= Seq::<(Seq<u8>, Token)>::empty(),
            decreases bytes@.len() - self.encoding_rules@.len(),
        {
            let ghost before = *self;
            self.encoding_rules.push(Vec::new());
            proof {
                assert(self.slots().len() == before.slots().len() + 1);
                assert forall|l: int| 0 <= l < before.slots().len() implies self.slots()[l]
                    == before.slots()[l] by {
                    assert(self.encoding_rules@[l] == before.encoding_rules@[l]);
                }
                assert forall|l: int|
                    pre.slots().len() <= l < self.slots().len() implies (#[trigger] self.slots()[l])
                    =~= Seq::<(Seq<u8>, Token)>::empty() by {
                    if l < before.slots().len() {
                        assert(before.slots()[l] =~= Seq::<(Seq<u8>, Token)>::empty());
                        assert(self.slots()[l] == before.slots()[l]);
                    } else {
                        assert(self.slots()[l] =~= Seq::<(Seq<u8>, Token)>::empty());
                    }
                }
            }
        }
        proof {
            assert(self.voc() == pre.voc());
        }
        let ghost grown = *self;
        let expansion = copy_bytes(&bytes);
        self.decoding_rules.push(expansion);
        let slot_index = bytes.len() - 1;
        let ghost entry = (bytes@, new_token);
        self.encoding_rules[slot_index].push((bytes, new_token));
        proof {
            assert(self.voc() =~= grown.voc().push(entry.0));
            assert(self.slots()[slot_index as int] =~= grown.slots()[slot_index as int].push(
                entry,
            ));
            assert(self.slots() =~= grown.slots().update(
                slot_index as int,
                grown.slots()[slot_index as int].push(entry),
            ));
            self.lemma_add_encoding_rule_wf(pre, grown, entry);
        }
    }

    proof fn lemma_add_encoding_rule_wf(
        &self,
        pre: Self,
        grown: Self,
        entry: (Seq<u8>, Token),
    )
        requires
            pre.wf(),
            entry.0.len() >= 2,
            entry.1.0 == pre.voc().len(),
            pre.voc().len() <= u32::MAX as int,
            grown.voc() == pre.voc(),
            grown.slots().len() >= pre.slots().len(),
            grown.slots().len() >= entry.0.len(),
            forall|l: int| 0 <= l < pre.slots().len() ==> grown.slots()[l] == pre.slots()[l],
            forall|l: int|
                pre.slots().len() <= l < grown.slots().len() ==> (#[trigger] grown.slots()[l])
                    =~= Seq::<(Seq<u8>, Token)>::empty(),
            self.voc() == grown.voc().push(entry.0),
            self.slots() == grown.slots().update(entry.0.len() - 1, grown.slots()[entry.0.len() - 1].push(entry)),
        ensures
            self.wf(),
            self.voc() == pre.voc().push(entry.0),
            self.emap() == pre.emap().insert(entry.0, entry.1),
    {
        let bytes = entry.0;
        let new_token = entry.1;
        let si = bytes.len() - 1;
        // lookups in the grown state agree with the old state
        assert forall|k: Seq<u8>| true implies grown.lookup(k) == pre.lookup(k) by {
            if 1 <= k.len() <= grown.slots().len() {
                if k.len() <= pre.slots().len() {
                    assert(grown.slots()[k.len() - 1] == pre.slots()[k.len() - 1]);
                } else {
                    assert(grown.slots()[k.len() - 1] =~= Seq::<(Seq<u8>, Token)>::empty());
                }
            }
        }
        // lookups in the final state: the new key maps to the new token,
        // everything else is unchanged
        assert forall|k: Seq<u8>| true implies self.lookup(k) == (if k == bytes {
            Some(new_token)
        } else {
            grown.lookup(k)
        }) by {
            if 1 <= k.len() <= self.slots().len() {
                if k.len() == bytes.len() {
                    lemma_slot_find_push(grown.slots()[si as int], entry, k);
                } else {
                    assert(self.slots()[k.len() - 1] == grown.slots()[k.len() - 1]);
                }
            } else {
                assert(k.len() != bytes.len());
            }
        }
        assert(self.emap() =~= pre.emap().insert(bytes, new_token));
        // well-formedness of the final state
        assert(self.voc().len() == pre.voc().len() + 1);
        assert(forall|b: int| 0 <= b < 256 ==> #[trigger] self.voc()[b] == seq![b as u8]);
        assert forall|li: int, j: int|
            0 <= li < self.slots().len() && 0 <= j < self.slots()[li].len() implies entry_wf(
            self.voc(),
            li,
            #[trigger] self.slots()[li][j],
        ) by {
            if li == si && j == self.slots()[li].len() - 1 {
                assert(self.slots()[li][j] == entry);
                assert(self.voc()[new_token.0 as int] == bytes);
            } else {
                assert(self.slots()[li][j] == grown.slots()[li][j]);
                if li < pre.slots().len() {
                    assert(entry_wf(pre.voc(), li, grown.slots()[li][j]));
                    assert(self.voc()[grown.slots()[li][j].1.0 as int] == pre.voc()[grown.slots()[li][j].1.0 as int]);
                }
            }
        }
        assert forall|t: int| 0 <= t < self.voc().len() implies 1 <= (
        #[trigger] self.voc()[t]).len() <= self.slots().len() && self.lookup(
            self.voc()[t],
        ) is Some by {
            if t < pre.voc().len() {
                assert(pre.lookup(pre.voc()[t]) is Some);
                assert(self.voc()[t] == pre.voc()[t]);
            } else {
                assert(self.voc()[t] == bytes);
            }
        }
        assert(self.wf());
    }

    /// The longest rule matching a prefix of `bytes[start..]`, and its byte
    /// length. Always succeeds: every single byte is a rule.
    fn find_next_token(&self, bytes: &[u8], start: usize) -> (r: (Token, usize))
        requires
            self.wf(),
            start < bytes@.len(),
        ensures
            1 <= r.1 <= bytes@.len() - start,
            self.lookup(bytes@.subrange(start as int, start as int + r.1 as int)) == Some(r.0),
            forall|l: int|
                r.1 < l <= bytes@.len() - start ==> self.lookup(
                    #[trigger] bytes@.subrange(start as int, start as int + l),
                ) is None,
    {
        let remaining = bytes.len() - start;
        let slots_len = self.encoding_rules.len();
        let mut l: usize = if slots_len < remaining {
            slots_len
        } else {
            remaining
        };
        proof {
            assert forall|l2: int|
                l < l2 <= bytes@.len() - start implies self.lookup(
                #[trigger] bytes@.subrange(start as int, start as int + l2),
            ) is None by {
                assert(bytes@.subrange(start as int, start as int + l2).len() == l2);
            }
        }
        while l >= 1
            invariant
                self.wf(),
                start < bytes@.len(),
                remaining == bytes@.len() - start,
                l <= remaining,
                l <= self.slots().len(),
                forall|l2: int|
                    l < l2 <= bytes@.len() - start ==> self.lookup(
                        #[trigger] bytes@.subrange(start as int, start as int + l2),
                    ) is None,
            decreases l,
        {
            let found = scan_slot(&self.encoding_rules[l - 1], bytes, start, l);
            proof {
                assert(self.slots()[l - 1] == self.encoding_rules@[l - 1]@.map_values(
                    |e: (Vec<u8>, Token)| (e.0@, e.1),
                ));
            }
            match found {
                Some(t) => {
                    return (t, l);
                },
                None => {
                    proof {
                        assert(self.lookup(
                            bytes@.subrange(start as int, start as int + l as int),
                        ) is None);
                    }
                    l -= 1;
                },
            }
        }
        proof {
            let b = bytes@[start as int];
            let k1 = bytes@.subrange(start as int, start as int + 1);
            assert(k1 =~= seq![b]);
            assert(self.voc()[b as int] == seq![(b as int) as u8]);
            assert(self.lookup(self.voc()[b as int]) is Some);
            assert(false);
        }
        vstd::pervasive::unreached()
    }

    /// Encode a byte buffer by greedy longest-match scanning.
    pub fn encode_bytes(&self, bytes: &[u8]) -> (r: Vec<Token>)
        requires
            self.wf(),
        ensures
            r@ == greedy_encoding(self.emap(), bytes@),
    {
        let mut output: Vec<Token> = Vec::new();
        let mut index: usize = 0;
        proof {
            assert(bytes@.skip(0) =~= bytes@);
            assert(Seq::<Token>::empty() + greedy_encoding(self.emap(), bytes@)
                =~= greedy_encoding(self.emap(), bytes@));
        }
        while index < bytes.len()
            invariant
                self.wf(),
                index <= bytes@.len(),
                greedy_encoding(self.emap(), bytes@) == output@ + greedy_encoding(
                    self.emap(),
                    bytes@.skip(index as int),
                ),
            decreases bytes@.len() - index,
        {
            let (next_token, consumed) = self.find_next_token(bytes, index);
            proof {
                let rest = bytes@.skip(index as int);
                let n = consumed as int;
                assert(rest.take(n) =~= bytes@.subrange(index as int, index as int + n));
                assert(self.emap().contains_key(rest.take(n)));
                assert(self.emap()[rest.take(n)] == next_token);
                assert forall|l: int|
                    n < l <= rest.len() implies !self.emap().contains_key(
                    #[trigger] rest.take(l),
                ) by {
                    assert(rest.take(l) =~= bytes@.subrange(index as int, index as int + l));
                }
                lemma_match_len_from_pinned(self.emap(), rest, n, rest.len() as int);
                assert(greedy_encoding(self.emap(), rest) == seq![next_token] + greedy_encoding(
                    self.emap(),
                    rest.skip(n),
                ));
                assert(rest.skip(n) =~= bytes@.skip(index as int + n));
                assert((output@ + seq![next_token]) + greedy_encoding(
                    self.emap(),
                    bytes@.skip(index as int + n),
                ) =~= output@ + (seq![next_token] + greedy_encoding(
                    self.emap(),
                    bytes@.skip(index as int + n),
                )));
            }
            output.push(next_token);
            index += consumed;
        }
        proof {
            assert(bytes@.skip(index as int) =~= Seq::<u8>::empty());
            assert(greedy_encoding(self.emap(), Seq::<u8>::empty()) =~= Seq::<Token>::empty());
            assert(output@ + Seq::<Token>::empty() =~= output@);
        }
        output
    }

    /// Decode a token sequence into the concatenation of the tokens'
    /// expansions. Fails with `UnknownToken` exactly when some token has no
    /// entry in the decode table.
    pub fn decode_bytes(&self, tokens: &[Token]) -> (r: Result<Vec<u8>, CodecError>)
        ensures
            match r {
                Ok(b) => all_tokens_known(self.voc(), tokens@) && b@ == concat_expansions(
                    self.voc(),
                    tokens@,
                ),
                Err(e) => e == CodecError::UnknownToken && !all_tokens_known(self.voc(), tokens@),
            },
    {
        let mut out: Vec<u8> = Vec::new();
        let mut i: usize = 0;
        proof {
            assert(tokens@.take(0) =~= Seq::<Token>::empty());
        }
        while i < tokens.len()
            invariant
                i <= tokens@.len(),
                forall|j: int| 0 <= j < i ==> (#[trigger] tokens@[j]).0 < self.voc().len(),
                out@ == concat_expansions(self.voc(), tokens@.take(i as int)),
            decreases tokens@.len() - i,
        {
            let t = tokens[i];
            if t.0 as usize >= self.decoding_rules.len() {
                proof {
                    assert((tokens@[i as int]).0 >= self.voc().len());
                }
                return Err(CodecError::UnknownToken);
            }
            let mut expansion = self.expansion_of(t);
            out.append(&mut expansion);
            proof {
                assert(tokens@.take(i + 1) =~= tokens@.take(i as int).push(tokens@[i as int]));
                lemma_concat_expansions_push(self.voc(), tokens@.take(i as int), tokens@[i as int]);
            }
            i += 1;
        }
        proof {
            assert(tokens@.take(tokens@.len() as int) =~= tokens@);
        }
        Ok(out)
    }
}

/// Relies on `String::from_utf8`: it yields the string holding exactly the
/// given bytes when they are valid UTF-8, and fails exactly when they are
/// not.
#[verifier::external_body]
fn bytes_to_string(bytes: Vec<u8>) -> (r: Option<String>)
    ensures
        match r {
            Some(s) => valid_utf8(bytes@) && s@ == decode_utf8(bytes@),
            None => !valid_utf8(bytes@),
        },
{
    String::from_utf8(bytes).ok()
}

impl Codec for BytePairEncodingCodec {
    open spec fn valid(&self) -> bool {
        self.wf()
    }

    open spec fn expansions(&self) -> Seq<Seq<u8>> {
        self.voc()
    }

    open spec fn encoding(&self, bytes: Seq<u8>) -> Seq<Token> {
        greedy_encoding(self.emap(), bytes)
    }

    fn encode(&self, input: &str) -> Vec<Token> {
        self.encode_bytes(input.as_bytes())
    }

    fn decode(&self, input: &[Token]) -> Result<String, CodecError> {
        match self.decode_bytes(input) {
            Err(e) => Err(e),
            Ok(bytes) => match bytes_to_string(bytes) {
                Some(s) => Ok(s),
                None => Err(CodecError::InvalidInput),
            },
        }
    }
}

/// The latest entry of `slot` whose key equals `bytes[start..start + len]`,
/// if any.
fn scan_slot(slot: &Vec<(Vec<u8>, Token)>, bytes: &[u8], start: usize, len: usize) -> (r: Option<
    Token,
>)
    requires
        1 <= len,
        start + len <= bytes@.len(),
    ensures
        r == slot_find(
            slot@.map_values(|e: (Vec<u8>, Token)| (e.0@, e.1)),
            bytes@.subrange(start as int, start as int + len as int),
        ),
{
    let ghost sslot = slot@.map_values(|e: (Vec<u8>, Token)| (e.0@, e.1));
    let ghost key = bytes@.subrange(start as int, start as int + len as int);
    let mut j: usize = 0;
    let mut found: Option<Token> = None;
    while j < slot.len()
        invariant
            j <= slot@.len(),
            1 <= len,
            start + len <= bytes@.len(),
            sslot == slot@.map_values(|e: (Vec<u8>, Token)| (e.0@, e.1)),
            key == bytes@.subrange(start as int, start as int + len as int),
            found == slot_find(sslot.take(j as int), key),
        decreases slot@.len() - j,
    {
        proof {
            assert(sslot.take(j + 1).drop_last() =~= sslot.take(j as int));
            assert(sslot.take(j + 1).last() == sslot[j as int]);
            assert(sslot[j as int] == (slot@[j as int].0@, slot@[j as int].1));
        }
        if key_matches(&slot[j].0, bytes, start, len) {
            found = Some(slot[j].1);
        }
        j += 1;
    }
    proof {
        assert(sslot.take(j as int) =~= sslot);
    }
    found
}

/// Whether `key` equals `bytes[start..start + len]`.
fn key_matches(key: &Vec<u8>, bytes: &[u8], start: usize, len: usize) -> (r: bool)
    requires
        start + len <= bytes@.len(),
    ensures
        r == (key@ == bytes@.subrange(start as int, start as int + len as int)),
{
    let ghost target = bytes@.subrange(start as int, start as int + len as int);
    if key.len() != len {
        proof {
            assert(target.len() == len);
        }
        return false;
    }
    let bytes_len = bytes.len();
    let mut i: usize = 0;
    while i < len
        invariant
            i <= len,
            key@.len() == len,
            start + len <= bytes@.len(),
            bytes_len == bytes@.len(),
            target == bytes@.subrange(start as int, start as int + len as int),
            forall|j: int| 0 <= j < i ==> key@[j] == target[j],
        decreases len - i,
    {
        if key[i] != bytes[start + i] {
            proof {
                assert(target[i as int] == bytes@[start + i]);
            }
            return false;
        }
        i += 1;
    }
    proof {
        assert(key@ =~= target);
    }
    true
}

/// The count recorded for the pair `p` in a pair-count table, if any. Later
/// entries shadow earlier ones.
spec fn pairs_lookup(entries: Seq<((Token, Token), usize)>, p: (Token, Token)) -> Option<usize>
    decreases entries.len(),
{
    if entries.len() == 0 {
        None
    } else if entries.last().0 == p {
        Some(entries.last().1)
    } else {
        pairs_lookup(entries.drop_last(), p)
    }
}

proof fn lemma_pairs_lookup_push(
    entries: Seq<((Token, Token), usize)>,
    e: ((Token, Token), usize),
    p: (Token, Token),
)
    ensures
        pairs_lookup(entries.push(e), p) == (if e.0 == p {
            Some(e.1)
        } else {
            pairs_lookup(entries, p)
        }),
{
    assert(entries.push(e).drop_last() =~= entries);
    assert(entries.push(e).last() == e);
}

/// Whether `table` records exactly the pair counts of the first `n`
/// positions of `stream`.
spec fn counts_match_upto(
    table: Seq<((Token, Token), usize)>,
    stream: Seq<Token>,
    n: int,
) -> bool {
    forall|p: (Token, Token)|
        match #[trigger] pairs_lookup(table, p) {
            Some(c) => c == pair_count_upto(stream, p, n),
            None => pair_count_upto(stream, p, n) == 0,
        }
}

/// Whether `table` records exactly the adjacent-pair counts of `stream`.
spec fn counts_match(table: Seq<((Token, Token), usize)>, stream: Seq<Token>) -> bool {
    forall|p: (Token, Token)|
        match #[trigger] pairs_lookup(table, p) {
            Some(c) => c == pair_count(stream, p),
            None => pair_count(stream, p) == 0,
        }
}

/// The count recorded for `p`, if any.
fn get_count(counts: &Vec<((Token, Token), usize)>, p: (Token, Token)) -> (r: Option<usize>)
    ensures
        r == pairs_lookup(counts@, p),
{
    let mut j: usize = 0;
    let mut found: Option<usize> = None;
    while j < counts.len()
        invariant
            j <= counts@.len(),
            found == pairs_lookup(counts@.take(j as int), p),
        decreases counts@.len() - j,
    {
        proof {
            assert(counts@.take(j + 1).drop_last() =~= counts@.take(j as int));
            assert(counts@.take(j + 1).last() == counts@[j as int]);
        }
        if counts[j].0.0 == p.0 && counts[j].0.1 == p.1 {
            found = Some(counts[j].1);
        }
        j += 1;
    }
    proof {
        assert(counts@.take(j as int) =~= counts@);
    }
    found
}

/// Count the adjacent pairs of the stream: each of the `len - 1` window
/// positions contributes one occurrence of its pair.
fn count_pairs(tokens: &Vec<Token>) -> (r: Vec<((Token, Token), usize)>)
    ensures
        counts_match(r@, tokens@),
{
    let mut counts: Vec<((Token, Token), usize)> = Vec::new();
    if tokens.len() < 2 {
        return counts;
    }
    let n_pairs = tokens.len() - 1;
    let mut i: usize = 0;
    while i < n_pairs
        invariant
            tokens@.len() >= 2,
            n_pairs == tokens@.len() - 1,
            i <= n_pairs,
            counts_match_upto(counts@, tokens@, i as int),
        decreases n_pairs - i,
    {
        let p = (tokens[i], tokens[i + 1]);
        let current = match get_count(&counts, p) {
            Some(c) => c,
            None => 0,
        };
        proof {
            assert(pair_at(tokens@, i as int) == p);
            lemma_pair_count_upto_bound(tokens@, p, i as int);
        }
        let ghost before = counts@;
        counts.push((p, current + 1));
        proof {
            let e = (p, (current + 1) as usize);
            assert(counts@ == before.push(e));
            assert forall|q: (Token, Token)|
                true implies match #[trigger] pairs_lookup(counts@, q) {
                Some(c) => c == pair_count_upto(tokens@, q, i + 1),
                None => pair_count_upto(tokens@, q, i + 1) == 0,
            } by {
                lemma_pairs_lookup_push(before, e, q);
                assert(pair_count_upto(tokens@, q, i + 1) == pair_count_upto(tokens@, q, i as int)
                    + (if pair_at(tokens@, i as int) == q {
                    1nat
                } else {
                    0nat
                }));
            }
        }
        i += 1;
    }
    counts
}

/// The pair a merge round replaces: maximal count, ties broken in favour of
/// the pair whose first occurrence in the stream is earliest.
fn top_pair(tokens: &Vec<Token>, counts: &Vec<((Token, Token), usize)>) -> (r: (Token, Token))
    requires
        tokens@.len() >= 2,
        counts_match(counts@, tokens@),
    ensures
        r == winning_pair(tokens@),
{
    let first = (tokens[0], tokens[1]);
    proof {
        lemma_pair_count_at(tokens@, 0);
        assert(pair_at(tokens@, 0) == first);
    }
    let mut best_idx: usize = 0;
    let mut best_pair = first;
    let mut best_count = match get_count(counts, first) {
        Some(c) => c,
        None => {
            proof {
                assert(false);
            }
            vstd::pervasive::unreached()
        },
    };
    let mut i: usize = 1;
    let n_pairs = tokens.len() - 1;
    while i < n_pairs
        invariant
            tokens@.len() >= 2,
            n_pairs == tokens@.len() - 1,
            counts_match(counts@, tokens@),
            best_idx < i <= n_pairs,
            best_pair == pair_at(tokens@, best_idx as int),
            best_count == pair_count(tokens@, best_pair),
            forall|j: int|
                0 <= j < i ==> pair_count(tokens@, #[trigger] pair_at(tokens@, j)) <= best_count,
            forall|j: int|
                0 <= j < best_idx ==> pair_count(tokens@, #[trigger] pair_at(tokens@, j))
                    < best_count,
        decreases n_pairs - i,
    {
        let p = (tokens[i], tokens[i + 1]);
        proof {
            lemma_pair_count_at(tokens@, i as int);
            assert(pair_at(tokens@, i as int) == p);
        }
        let c = match get_count(counts, p) {
            Some(c) => c,
            None => {
                proof {
                    assert(false);
                }
                vstd::pervasive::unreached()
            },
        };
        if c > best_count {
            best_idx = i;
            best_pair = p;
            best_count = c;
        }
        i += 1;
    }
    proof {
        assert(is_top_pair_at(tokens@, best_idx as int));
        lemma_winner_pinned(tokens@, best_idx as int);
    }
    best_pair
}

/// Rewrite the stream left to right, replacing each non-overlapping
/// occurrence of the pair `p` by `new_token`.
fn rewrite_pair(tokens: &Vec<Token>, p: (Token, Token), new_token: Token) -> (r: Vec<Token>)
    ensures
        r@ == rewrite_stream(tokens@, p, new_token),
{
    let mut out: Vec<Token> = Vec::new();
    let mut i: usize = 0;
    proof {
        assert(tokens@.skip(0) =~= tokens@);
        assert(Seq::<Token>::empty() + rewrite_stream(tokens@, p, new_token) =~= rewrite_stream(
            tokens@,
            p,
            new_token,
        ));
    }
    while i < tokens.len()
        invariant
            i <= tokens@.len(),
            rewrite_stream(tokens@, p, new_token) == out@ + rewrite_stream(
                tokens@.skip(i as int),
                p,
                new_token,
            ),
        decreases tokens@.len() - i,
    {
        let ghost rest = tokens@.skip(i as int);
        let ghost out_before = out@;
        if i + 1 < tokens.len() && tokens[i] == p.0 && tokens[i + 1] == p.1 {
            proof {
                assert(rest.len() >= 2 && rest[0] == p.0 && rest[1] == p.1);
                assert(rewrite_stream(rest, p, new_token) == seq![new_token] + rewrite_stream(
                    rest.skip(2),
                    p,
                    new_token,
                ));
                assert(rest.skip(2) =~= tokens@.skip(i + 2));
                assert((out_before + seq![new_token]) + rewrite_stream(
                    tokens@.skip(i + 2),
                    p,
                    new_token,
                ) =~= out_before + (seq![new_token] + rewrite_stream(
                    tokens@.skip(i + 2),
                    p,
                    new_token,
                )));
            }
            out.push(new_token);
            i += 2;
        } else {
            proof {
                assert(rest.len() >= 1);
                assert(rest[0] == tokens@[i as int]);
                assert(!(rest.len() >= 2 && rest[0] == p.0 && rest[1] == p.1));
                assert(rewrite_stream(rest, p, new_token) == seq![rest[0]] + rewrite_stream(
                    rest.skip(1),
                    p,
                    new_token,
                ));
                assert(rest.skip(1) =~= tokens@.skip(i + 1));
                assert((out_before + seq![tokens@[i as int]]) + rewrite_stream(
                    tokens@.skip(i + 1),
                    p,
                    new_token,
                ) =~= out_before + (seq![tokens@[i as int]] + rewrite_stream(
                    tokens@.skip(i + 1),
                    p,
                    new_token,
                )));
            }
            out.push(tokens[i]);
            i += 1;
        }
    }
    proof {
        assert(tokens@.skip(i as int) =~= Seq::<Token>::empty());
        assert(rewrite_stream(Seq::<Token>::empty(), p, new_token) == Seq::<Token>::empty());
        assert(out@ + Seq::<Token>::empty() =~= out@);
    }
    out
}

/// Lower a corpus to its token stream: one base token per byte.
fn tokens_of_bytes(bytes: &[u8]) -> (r: Vec<Token>)
    ensures
        r@ == byte_tokens(bytes@),
{
    let mut r: Vec<Token> = Vec::new();
    let mut i: usize = 0;
    proof {
        assert(r@ =~= byte_tokens(bytes@.take(0)));
    }
    while i < bytes.len()
        invariant
            i <= bytes@.len(),
            r@ == byte_tokens(bytes@.take(i as int)),
        decreases bytes@.len() - i,
    {
        let t = Token(bytes[i] as u32);
        proof {
            assert(byte_tokens(bytes@.take(i + 1)) =~= byte_tokens(bytes@.take(i as int)).push(t));
        }
        r.push(t);
        i += 1;
    }
    proof {
        assert(bytes@.take(i as int) =~= bytes@);
    }
    r
}

impl Default for BytePairEncodingCodec {
    fn default() -> (r: Self)
        ensures
            r.wf(),
            r.voc() == base_expansions(),
            r.emap() == base_encoding_map(),
    {
        Self::new()
    }
}

impl Clone for BytePairEncodingCodec {
    /// A deep copy with the same tables, hence the same views.
    fn clone(&self) -> (r: Self)
        ensures
            r.voc() == self.voc(),
            r.slots() == self.slots(),
            r.emap() == self.emap(),
            r.wf() <==> self.wf(),
    {
        let mut decoding_rules: Vec<Vec<u8>> = Vec::new();
        let mut i: usize = 0;
        while i < self.decoding_rules.len()
            invariant
                i <= self.decoding_rules@.len(),
                decoding_rules@.len() == i,
                forall|j: int|
                    0 <= j < i ==> (#[trigger] decoding_rules@[j])@ == self.decoding_rules@[j]@,
            decreases self.decoding_rules@.len() - i,
        {
            let entry = copy_bytes(&self.decoding_rules[i]);
            decoding_rules.push(entry);
            i += 1;
        }
        let mut encoding_rules: Vec<Vec<(Vec<u8>, Token)>> = Vec::new();
        let mut li: usize = 0;
        while li < self.encoding_rules.len()
            invariant
                li <= self.encoding_rules@.len(),
                encoding_rules@.len() == li,
                forall|l2: int, j: int|
                    0 <= l2 < li && 0 <= j < encoding_rules@[l2]@.len() ==> (
                    #[trigger] encoding_rules@[l2]@[j]).0@ == self.encoding_rules@[l2]@[j].0@
                        && encoding_rules@[l2]@[j].1 == self.encoding_rules@[l2]@[j].1,
                forall|l2: int|
                    0 <= l2 < li ==> (#[trigger] encoding_rules@[l2])@.len()
                        == self.encoding_rules@[l2]@.len(),
            decreases self.encoding_rules@.len() - li,
        {
            let src_slot = &self.encoding_rules[li];
            let mut slot: Vec<(Vec<u8>, Token)> = Vec::new();
            let mut j: usize = 0;
            while j < src_slot.len()
                invariant
                    j <= src_slot@.len(),
                    slot@.len() == j,
                    forall|j2: int|
                        0 <= j2 < j ==> (#[trigger] slot@[j2]).0@ == src_slot@[j2].0@
                            && slot@[j2].1 == src_slot@[j2].1,
                decreases src_slot@.len() - j,
            {
                let key = copy_bytes(&src_slot[j].0);
                let tok = src_slot[j].1;
                slot.push((key, tok));
                j += 1;
            }
            encoding_rules.push(slot);
            li += 1;
        }
        let r = BytePairEncodingCodec { encoding_rules, decoding_rules };
        proof {
            assert(r.voc() =~= self.voc());
            assert forall|l2: int| 0 <= l2 < r.slots().len() implies r.slots()[l2]
                =~= self.slots()[l2] by {}
            assert(r.slots() =~= self.slots());
            assert forall|k: Seq<u8>| true implies r.lookup(k) == self.lookup(k) by {}
            assert(r.emap() =~= self.emap());
        }
        r
    }
}

/// A fresh vector holding the same bytes.
fn copy_bytes(v: &Vec<u8>) -> (r: Vec<u8>)
    ensures
        r@ == v@,
{
    let mut r: Vec<u8> = Vec::new();
    let mut i: usize = 0;
    while i < v.len()
        invariant
            i <= v@.len(),
            r@ == v@.take(i as int),
        decreases v@.len() - i,
    {
        r.push(v[i]);
        proof {
            assert(r@ =~= v@.take(i + 1));
        }
        i += 1;
    }
    proof {
        assert(r@ =~= v@);
    }
    r
}

/// A trainer: a vocabulary under construction and the id the next merge will
/// receive.
pub struct BytePairEncodingCodecTrainer {
    current_token_id: u32,
    codec: BytePairEncodingCodec,
}

impl BytePairEncodingCodecTrainer {
    /// The trainer's invariant: its codec is well-formed and the next id is
    /// the current vocabulary size.
    pub closed spec fn wf(&self) -> bool {
        &&& self.codec.wf()
        &&& self.current_token_id == self.codec.voc().len()
    }

    /// The expansions of the vocabulary built so far.
    pub closed spec fn voc(&self) -> Seq<Seq<u8>> {
        self.codec.voc()
    }

    /// The encoding table built so far.
    pub closed spec fn emap(&self) -> Map<Seq<u8>, Token> {
        self.codec.emap()
    }

    /// A fresh trainer: the base vocabulary and next id 256.
    pub fn new() -> (r: Self)
        ensures
            r.wf(),
            r.voc() == base_expansions(),
            r.emap() == base_encoding_map(),
    {
        BytePairEncodingCodecTrainer {
            current_token_id: INITIAL_VOCABULARY_SIZE,
            codec: BytePairEncodingCodec::new(),
        }
    }

    /// The codec over the vocabulary accumulated so far.
    pub fn get_codec(&self) -> (r: BytePairEncodingCodec)
        requires
            self.wf(),
        ensures
            r.wf(),
            r.voc() == self.voc(),
            r.emap() == self.emap(),
    {
        self.codec.clone()
    }

    /// Run exactly `additional_merges` merge rounds over `input`, growing
    /// the vocabulary by one rule per round as the model `train_result`
    /// describes. Fails with `NoPairsAvailable` as soon as a round finds a
    /// stream of fewer than two tokens; the rounds already completed stay
    /// installed.
    pub fn train(&mut self, input: &str, additional_merges: usize) -> (r: Result<(), CodecError>)
        requires
            old(self).wf(),
            old(self).voc().len() + additional_merges <= u32::MAX as int,
        ensures
            final(self).wf(),
            ({
                let stream0 = byte_tokens(encode_utf8(input@));
                match train_result(
                    old(self).voc(),
                    old(self).emap(),
                    stream0,
                    additional_merges as nat,
                ) {
                    Some(st) => r is Ok && final(self).voc() == st.0 && final(self).emap()
                        == st.1,
                    None => {
                        &&& r == Err::<(), CodecError>(CodecError::NoPairsAvailable)
                        &&& exists|j: nat|
                            {
                                &&& j < additional_merges as nat
                                &&& (#[trigger] train_result(
                                    old(self).voc(),
                                    old(self).emap(),
                                    stream0,
                                    j,
                                )) matches Some(st2) && st2.2.len() < 2 && final(self).voc()
                                    == st2.0 && final(self).emap() == st2.1
                            }
                    },
                }
            }),
    {
        let ghost voc0 = self.voc();
        let ghost emap0 = self.emap();
        let mut tokens = tokens_of_bytes(input.as_bytes());
        let ghost stream0 = tokens@;
        proof {
            assert(stream0 == byte_tokens(encode_utf8(input@)));
            assert forall|j: int| 0 <= j < tokens@.len() implies (#[trigger] tokens@[j]).0
                < self.voc().len() by {
                assert(tokens@[j] == Token(encode_utf8(input@)[j] as u32));
            }
        }
        let mut merges_done: usize = 0;
        while merges_done < additional_merges
            invariant
                voc0 == old(self).voc(),
                emap0 == old(self).emap(),
                stream0 == byte_tokens(encode_utf8(input@)),
                self.wf(),
                merges_done <= additional_merges,
                self.voc().len() == voc0.len() + merges_done,
                voc0.len() + additional_merges <= u32::MAX as int,
                train_result(voc0, emap0, stream0, merges_done as nat) == Some(
                    (self.voc(), self.emap(), tokens@),
                ),
                all_tokens_known(self.voc(), tokens@),
            decreases additional_merges - merges_done,
        {
            if tokens.len() < 2 {
                proof {
                    lemma_train_result_stuck(
                        voc0,
                        emap0,
                        stream0,
                        merges_done as nat,
                        additional_merges as nat,
                    );
                    assert((#[trigger] train_result(voc0, emap0, stream0, merges_done as nat))
                        matches Some(st2) && st2.2.len() < 2 && self.voc() == st2.0 && self.emap()
                        == st2.1);
                    assert(exists|j: nat|
                        {
                            &&& j < additional_merges as nat
                            &&& (#[trigger] train_result(voc0, emap0, stream0, j)) matches Some(
                                st2,
                            ) && st2.2.len() < 2 && self.voc() == st2.0 && self.emap() == st2.1
                        });
                }
                return Err(CodecError::NoPairsAvailable);
            }
            let counts = count_pairs(&tokens);
            let top = top_pair(&tokens, &counts);
            proof {
                lemma_winner_props(tokens@);
                assert(top == pair_at(tokens@, winner_index(tokens@)));
                assert(tokens@[winner_index(tokens@)].0 < self.voc().len());
                assert(tokens@[winner_index(tokens@) + 1].0 < self.voc().len());
            }
            let new_token = Token(self.current_token_id);
            let mut expansion = self.codec.expansion_of(top.0);
            let mut right = self.codec.expansion_of(top.1);
            expansion.append(&mut right);
            let rewritten = rewrite_pair(&tokens, top, new_token);
            let ghost pre_voc = self.voc();
            let ghost pre_emap = self.emap();
            let ghost pre_stream = tokens@;
            self.codec.add_encoding_rule(new_token, expansion);
            self.current_token_id = self.current_token_id + 1;
            tokens = rewritten;
            merges_done += 1;
            proof {
                assert(train_step(pre_voc, pre_emap, pre_stream) == (
                    self.voc(),
                    self.emap(),
                    tokens@,
                ));
                lemma_train_result_snoc(voc0, emap0, stream0, (merges_done - 1) as nat);
                lemma_rewrite_stream_elements(pre_stream, winning_pair(pre_stream), new_token);
                assert forall|j: int| 0 <= j < tokens@.len() implies (#[trigger] tokens@[j]).0
                    < self.voc().len() by {
                    if tokens@[j] != new_token {
                        let i2 = choose|i: int|
                            0 <= i < pre_stream.len() && pre_stream[i] == tokens@[j];
                        assert(pre_stream[i2].0 < pre_voc.len());
                    }
                }
            }
        }
        Ok(())
    }
}

impl Default for BytePairEncodingCodecTrainer {
    fn default() -> (r: Self)
        ensures
            r.wf(),
            r.voc() == base_expansions(),
            r.emap() == base_encoding_map(),
    {
        Self::new()
    }
}

proof fn lemma_lookup_sound(codec: &BytePairEncodingCodec, k: Seq<u8>)
    requires
        codec.wf(),
    ensures
        codec.lookup(k) matches Some(t) ==> t.0 < codec.voc().len() && codec.voc()[t.0 as int]
            == k,
{
    if codec.lookup(k) is Some {
        let slot = codec.slots()[k.len() - 1];
        lemma_slot_find_sound(slot, k);
        let t = codec.lookup(k).unwrap();
        let j = choose|j: int| 0 <= j < slot.len() && (#[trigger] slot[j]).0 == k && slot[j].1 == t;
        assert(entry_wf(codec.voc(), k.len() - 1, slot[j]));
    }
}

/// Round-trip identity: decoding the greedy encoding of any byte sequence
/// yields exactly those bytes, and every produced token is in the
/// vocabulary. With the contracts of `encode` and `decode` this gives
/// `decode(encode(s)) == Ok(s)` for every string `s`.
pub proof fn lemma_round_trip(codec: &BytePairEncodingCodec, bytes: Seq<u8>)
    requires
        codec.wf(),
    ensures
        all_tokens_known(codec.voc(), greedy_encoding(codec.emap(), bytes)),
        concat_expansions(codec.voc(), greedy_encoding(codec.emap(), bytes)) == bytes,
    decreases bytes.len(),
{
    let emap = codec.emap();
    let voc = codec.voc();
    let enc = greedy_encoding(emap, bytes);
    if bytes.len() == 0 {
        assert(concat_expansions(voc, enc) =~= bytes);
    } else {
        let b = bytes[0];
        assert(voc[b as int] == seq![(b as int) as u8]);
        assert(codec.lookup(voc[b as int]) is Some);
        assert(bytes.take(1) =~= seq![b]);
        assert(emap.contains_key(bytes.take(1)));
        lemma_match_len_from_props(emap, bytes, bytes.len() as int);
        let l = match_len(emap, bytes);
        assert(l >= 1);
        let k = bytes.take(l);
        let t = emap[k];
        assert(codec.lookup(k) == Some(t));
        lemma_lookup_sound(codec, k);
        assert(voc[t.0 as int] == k);
        assert(enc == seq![t] + greedy_encoding(emap, bytes.skip(l)));
        lemma_round_trip(codec, bytes.skip(l));
        assert(enc[0] == t);
        assert(enc.drop_first() =~= greedy_encoding(emap, bytes.skip(l)));
        assert(concat_expansions(voc, enc) == voc[t.0 as int] + concat_expansions(
            voc,
            enc.drop_first(),
        ));
        assert(bytes.take(l) + bytes.skip(l) =~= bytes);
        assert forall|i: int| 0 <= i < enc.len() implies (#[trigger] enc[i]).0 < voc.len() by {
            if i > 0 {
                assert(enc[i] == enc.drop_first()[i - 1]);
            }
        }
    }
}

/// Round-trip identity over text: for every string, the bytes behind the
/// tokens that `encode` produces are valid UTF-8 and decode to exactly that
/// string, so `decode(encode(s))` returns `Ok(s)`.
pub proof fn lemma_string_round_trip(codec: &BytePairEncodingCodec, s: Seq<char>)
    requires
        codec.wf(),
    ensures
        ({
            let tokens = greedy_encoding(codec.emap(), encode_utf8(s));
            &&& all_tokens_known(codec.voc(), tokens)
            &&& valid_utf8(concat_expansions(codec.voc(), tokens))
            &&& decode_utf8(concat_expansions(codec.voc(), tokens)) == s
        }),
{
    lemma_round_trip(codec, encode_utf8(s));
    vstd::utf8::encode_utf8_valid_utf8(s);
    vstd::utf8::encode_utf8_decode_utf8(s);
}

/// Byte-length conservation: the expansion lengths of the tokens that
/// `encode` produces sum to exactly the byte length of the input.
pub proof fn lemma_byte_length_conservation(codec: &BytePairEncodingCodec, bytes: Seq<u8>)
    requires
        codec.wf(),
    ensures
        expansion_len_sum(codec.voc(), greedy_encoding(codec.emap(), bytes)) == bytes.len(),
{
    lemma_round_trip(codec, bytes);
    lemma_concat_expansions_len(codec.voc(), greedy_encoding(codec.emap(), bytes));
}

/// Prefix-stable encoding bound: no codec encodes a byte sequence into
/// more tokens than it has bytes.
pub proof fn lemma_encoding_no_longer_than_input(codec: &BytePairEncodingCodec, bytes: Seq<u8>)
    requires
        codec.wf(),
    ensures
        greedy_encoding(codec.emap(), bytes).len() <= bytes.len(),
{
    lemma_round_trip(codec, bytes);
    lemma_concat_expansions_len(codec.voc(), greedy_encoding(codec.emap(), bytes));
    lemma_expansion_len_sum_lower(codec.voc(), greedy_encoding(codec.emap(), bytes));
}

/// Base coverage: a codec holding only the 256 base rules encodes any byte
/// sequence one byte per token, and every produced token id is below 256.
pub proof fn lemma_base_coverage(codec: &BytePairEncodingCodec, bytes: Seq<u8>)
    requires
        codec.wf(),
        codec.voc().len() == 256,
    ensures
        greedy_encoding(codec.emap(), bytes).len() == bytes.len(),
        forall|i: int|
            0 <= i < bytes.len() ==> (#[trigger] greedy_encoding(codec.emap(), bytes)[i]).0 < 256,
    decreases bytes.len(),
{
    let emap = codec.emap();
    let voc = codec.voc();
    let enc = greedy_encoding(emap, bytes);
    if bytes.len() > 0 {
        let b = bytes[0];
        assert(voc[b as int] == seq![(b as int) as u8]);
        assert(codec.lookup(voc[b as int]) is Some);
        assert(bytes.take(1) =~= seq![b]);
        assert(emap.contains_key(bytes.take(1)));
        assert forall|l2: int| 1 < l2 <= bytes.len() implies !emap.contains_key(
            #[trigger] bytes.take(l2),
        ) by {
            if emap.contains_key(bytes.take(l2)) {
                lemma_lookup_sound(codec, bytes.take(l2));
                let t = emap[bytes.take(l2)];
                assert(voc[t.0 as int] == bytes.take(l2));
                assert(voc[t.0 as int] == seq![(t.0 as int) as u8]);
            }
        }
        lemma_match_len_from_pinned(emap, bytes, 1, bytes.len() as int);
        let t = emap[bytes.take(1)];
        assert(codec.lookup(bytes.take(1)) == Some(t));
        lemma_lookup_sound(codec, bytes.take(1));
        assert(enc == seq![t] + greedy_encoding(emap, bytes.skip(1)));
        lemma_base_coverage(codec, bytes.skip(1));
        assert forall|i: int| 0 <= i < bytes.len() implies (#[trigger] enc[i]).0 < 256 by {
            if i > 0 {
                assert(enc[i] == greedy_encoding(emap, bytes.skip(1))[i - 1]);
            }
        }
    }
}

} // verus!
