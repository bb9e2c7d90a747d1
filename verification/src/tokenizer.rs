use std::collections::HashMap;
use vstd::prelude::*;
use vstd::utf8::*;
use vstd::string::StringSliceAdditionalSpecFns;
use crate::trie::{values_view, TRIE};
use crate::vocab::{parse_vocab_line, parse_vocab_line_spec};

verus! {

broadcast use vstd::std_specs::hash::group_hash_axioms;

/// `s[i..j]` is a non-empty token of `ids`.
pub open spec fn is_token_at(ids: Map<Seq<u8>, i64>, s: Seq<u8>, i: int, j: int) -> bool {
    &&& 0 <= i < j <= s.len()
    &&& ids.contains_key(s.subrange(i, j))
}

/// The end of the longest token of `ids` that starts at `i` in `s` and ends at
/// or before `j`; `i` where there is none.
pub open spec fn longest_token_end(ids: Map<Seq<u8>, i64>, s: Seq<u8>, i: int, j: int) -> int
    decreases j - i,
{
    if j <= i {
        i
    } else if is_token_at(ids, s, i, j) {
        j
    } else {
        longest_token_end(ids, s, i, j - 1)
    }
}

/// The end of the longest token of `ids` that starts at `i` in `s`; `i` where
/// there is none.
pub open spec fn next_token_end(ids: Map<Seq<u8>, i64>, s: Seq<u8>, i: int) -> int {
    longest_token_end(ids, s, i, s.len() as int)
}

/// Taking the longest token again and again from position `i` on reaches the
/// end of `s`: it never meets a position where no token starts.
pub open spec fn greedy_encodes(ids: Map<Seq<u8>, i64>, s: Seq<u8>, i: int) -> bool
    decreases s.len() - i,
{
    if i >= s.len() {
        true
    } else {
        let e = next_token_end(ids, s, i);
        if i < e <= s.len() {
            greedy_encodes(ids, s, e)
        } else {
            false
        }
    }
}

/// The ids of the tokens taken by longest match from position `i` on.
pub open spec fn greedy_tokens(ids: Map<Seq<u8>, i64>, s: Seq<u8>, i: int) -> Seq<i64>
    decreases s.len() - i,
{
    if i >= s.len() {
        Seq::empty()
    } else {
        let e = next_token_end(ids, s, i);
        if i < e <= s.len() {
            seq![ids[s.subrange(i, e)]] + greedy_tokens(ids, s, e)
        } else {
            Seq::empty()
        }
    }
}

/// The bytes of the tokens with the given ids, one after the other.
pub open spec fn decode_spec(vocab: Map<i64, Seq<u8>>, tokens: Seq<i64>) -> Seq<u8>
    decreases tokens.len(),
{
    if tokens.len() == 0 {
        Seq::empty()
    } else {
        decode_spec(vocab, tokens.drop_last()) + vocab[tokens.last()]
    }
}

/// Every id in `tokens` names a token of `vocab`.
pub open spec fn all_known(vocab: Map<i64, Seq<u8>>, tokens: Seq<i64>) -> bool {
    forall|i: int| 0 <= i < tokens.len() ==> vocab.contains_key(#[trigger] tokens[i])
}

/// Every token of `ids` has an id whose bytes in `vocab` are the token itself.
pub open spec fn consistent(vocab: Map<i64, Seq<u8>>, ids: Map<Seq<u8>, i64>) -> bool {
    forall|p: Seq<u8>| #[trigger] ids.contains_key(p) ==> vocab.contains_key(ids[p]) && vocab[ids[p]] == p
}

/// What `decode` gives for bytes that are not UTF-8.
pub open spec fn invalid_utf8_text() -> Seq<char> {
    seq!['<', 'i', 'n', 'v', 'a', 'l', 'i', 'd', ' ', 'u', 't', 'f', '8', '>']
}

/// The result of `longest_token_end` is `i` or a token end, and no token
/// ends later (up to `j`).
pub proof fn lemma_longest_token_end(ids: Map<Seq<u8>, i64>, s: Seq<u8>, i: int, j: int)
    requires
        0 <= i,
        j <= s.len(),
    ensures
        i <= longest_token_end(ids, s, i, j),
        longest_token_end(ids, s, i, j) == i || (is_token_at(ids, s, i, longest_token_end(ids, s, i, j))
            && longest_token_end(ids, s, i, j) <= j),
        forall|k: int| i < k <= j && #[trigger] is_token_at(ids, s, i, k) ==> k <= longest_token_end(ids, s, i, j),
    decreases j - i,
{
    if j > i && !is_token_at(ids, s, i, j) {
        lemma_longest_token_end(ids, s, i, j - 1);
    }
}

/// The bytes of `<|endoftext|>`, the text of id 0 unless the vocabulary
/// gives id 0 another one.
pub open spec fn end_of_text() -> Seq<u8> {
    seq![60u8, 124u8, 101u8, 110u8, 100u8, 111u8, 102u8, 116u8, 101u8, 120u8, 116u8, 124u8, 62u8]
}

/// The view of vocabulary entries: ids with the bytes of their tokens.
pub open spec fn entries_view(entries: Seq<(i64, Vec<u8>)>) -> Seq<(i64, Seq<u8>)> {
    entries.map_values(|e: (i64, Vec<u8>)| (e.0, e.1@))
}

/// The bytes of every id after reading `entries` in order: id 0 starts as
/// `<|endoftext|>`, and a later entry for an id replaces an earlier one.
pub open spec fn vocab_of(entries: Seq<(i64, Seq<u8>)>) -> Map<i64, Seq<u8>>
    decreases entries.len(),
{
    if entries.len() == 0 {
        map![0i64 => end_of_text()]
    } else {
        vocab_of(entries.drop_last()).insert(entries.last().0, entries.last().1)
    }
}

/// The id of every token after reading `entries` in order: entries with id 0
/// are left out, and a later entry for the same bytes replaces an earlier one.
pub open spec fn ids_of(entries: Seq<(i64, Seq<u8>)>) -> Map<Seq<u8>, i64>
    decreases entries.len(),
{
    if entries.len() == 0 {
        Map::empty()
    } else if entries.last().0 != 0 {
        ids_of(entries.drop_last()).insert(entries.last().1, entries.last().0)
    } else {
        ids_of(entries.drop_last())
    }
}

/// No id is given two different byte strings.
pub open spec fn ids_unambiguous(entries: Seq<(i64, Seq<u8>)>) -> bool {
    forall|i: int, j: int|
        0 <= i < entries.len() && 0 <= j < entries.len() && #[trigger] entries[i].0 == #[trigger] entries[j].0
            ==> entries[i].1 == entries[j].1
}

/// Reading an entry in front of the others changes the ids only where no
/// later entry gives the same bytes.
proof fn lemma_ids_of_prepend(e: (i64, Seq<u8>), rest: Seq<(i64, Seq<u8>)>)
    ensures
        ids_of(seq![e] + rest) == if e.0 != 0 && !ids_of(rest).contains_key(e.1) {
            ids_of(rest).insert(e.1, e.0)
        } else {
            ids_of(rest)
        },
    decreases rest.len(),
{
    let all = seq![e] + rest;
    if rest.len() == 0 {
        assert(all.drop_last() =~= Seq::<(i64, Seq<u8>)>::empty());
        assert(all.last() == e);
        assert(ids_of(rest) == Map::<Seq<u8>, i64>::empty());
        assert(ids_of(all.drop_last()) == Map::<Seq<u8>, i64>::empty());
    } else {
        assert(all.drop_last() =~= seq![e] + rest.drop_last());
        assert(all.last() == rest.last());
        assert(all.len() > 0);
        lemma_ids_of_prepend(e, rest.drop_last());
        let r = rest.last();
        let init = rest.drop_last();
        assert(ids_of(all) == if r.0 != 0 {
            ids_of(seq![e] + init).insert(r.1, r.0)
        } else {
            ids_of(seq![e] + init)
        });
        assert(ids_of(rest) == if r.0 != 0 {
            ids_of(init).insert(r.1, r.0)
        } else {
            ids_of(init)
        });
        if r.0 != 0 {
            if e.1 == r.1 {
                assert(ids_of(all) =~= ids_of(rest));
                assert(ids_of(rest).contains_key(e.1));
            } else {
                assert(ids_of(all) =~= (if e.0 != 0 && !ids_of(rest).contains_key(e.1) {
                    ids_of(rest).insert(e.1, e.0)
                } else {
                    ids_of(rest)
                }));
            }
        }
    }
}

/// Every token's id comes from an entry with that id and those bytes.
proof fn lemma_ids_of_source(entries: Seq<(i64, Seq<u8>)>, p: Seq<u8>)
    requires
        ids_of(entries).contains_key(p),
    ensures
        exists|k: int|
            0 <= k < entries.len() && entries[k].0 == ids_of(entries)[p] && entries[k].1 == p
                && #[trigger] entries[k].0 != 0,
    decreases entries.len(),
{
    let last = entries.last();
    if last.0 != 0 && last.1 == p {
        assert(entries[entries.len() - 1].0 != 0);
    } else {
        lemma_ids_of_source(entries.drop_last(), p);
        let k = choose|k: int|
            0 <= k < entries.drop_last().len() && entries.drop_last()[k].0 == ids_of(
                entries.drop_last(),
            )[p] && entries.drop_last()[k].1 == p && #[trigger] entries.drop_last()[k].0 != 0;
        assert(entries[k] == entries.drop_last()[k]);
        assert(entries[k].0 != 0);
    }
}

/// Law: where no id is given two different byte strings, every token of the
/// vocabulary has an id whose bytes are that token.
pub proof fn lemma_vocab_consistent(entries: Seq<(i64, Seq<u8>)>)
    requires
        ids_unambiguous(entries),
    ensures
        consistent(vocab_of(entries), ids_of(entries)),
    decreases entries.len(),
{
    if entries.len() > 0 {
        let init = entries.drop_last();
        let r = entries.last();
        assert(ids_unambiguous(init)) by {
            assert forall|i: int, j: int|
                0 <= i < init.len() && 0 <= j < init.len() && #[trigger] init[i].0 == #[trigger] init[j].0
                    implies init[i].1 == init[j].1 by {
                assert(init[i] == entries[i]);
                assert(init[j] == entries[j]);
            }
        }
        lemma_vocab_consistent(init);
        assert forall|p: Seq<u8>| #[trigger] ids_of(entries).contains_key(p) implies vocab_of(
            entries,
        ).contains_key(ids_of(entries)[p]) && vocab_of(entries)[ids_of(entries)[p]] == p by {
            if !(r.0 != 0 && r.1 == p) {
                assert(ids_of(init).contains_key(p));
                let i = ids_of(init)[p];
                if i == r.0 {
                    lemma_ids_of_source(init, p);
                    let k = choose|k: int|
                        0 <= k < init.len() && init[k].0 == ids_of(init)[p] && init[k].1 == p
                            && #[trigger] init[k].0 != 0;
                    assert(entries[k] == init[k]);
                    assert(entries[entries.len() - 1] == r);
                    assert(entries[k].0 == entries[entries.len() - 1].0);
                }
            }
        }
    }
}

/// Law: decoding a concatenation of id lists gives the concatenation of
/// their decodings.
pub proof fn lemma_decode_concat(vocab: Map<i64, Seq<u8>>, a: Seq<i64>, b: Seq<i64>)
    ensures
        decode_spec(vocab, a + b) == decode_spec(vocab, a) + decode_spec(vocab, b),
    decreases b.len(),
{
    if b.len() == 0 {
        assert(a + b =~= a);
        assert(decode_spec(vocab, a) + decode_spec(vocab, b) =~= decode_spec(vocab, a));
    } else {
        assert((a + b).drop_last() =~= a + b.drop_last());
        assert((a + b).last() == b.last());
        lemma_decode_concat(vocab, a, b.drop_last());
        assert(decode_spec(vocab, a + b) =~= decode_spec(vocab, a) + decode_spec(vocab, b));
    }
}

/// Decoding the longest-match ids of `s[i..]` gives `s[i..]` back.
proof fn lemma_greedy_roundtrip(vocab: Map<i64, Seq<u8>>, ids: Map<Seq<u8>, i64>, s: Seq<u8>, i: int)
    requires
        consistent(vocab, ids),
        greedy_encodes(ids, s, i),
        0 <= i <= s.len(),
    ensures
        all_known(vocab, greedy_tokens(ids, s, i)),
        decode_spec(vocab, greedy_tokens(ids, s, i)) == s.subrange(i, s.len() as int),
    decreases s.len() - i,
{
    if i >= s.len() {
        assert(s.subrange(i, s.len() as int) =~= Seq::<u8>::empty());
    } else {
        let e = next_token_end(ids, s, i);
        lemma_longest_token_end(ids, s, i, s.len() as int);
        lemma_greedy_roundtrip(vocab, ids, s, e);
        let p = s.subrange(i, e);
        let id = ids[p];
        let rest = greedy_tokens(ids, s, e);
        assert(ids.contains_key(p));
        assert(greedy_tokens(ids, s, i) == seq![id] + rest);
        lemma_decode_concat(vocab, seq![id], rest);
        assert(seq![id].drop_last() =~= Seq::<i64>::empty());
        assert(seq![id].last() == id);
        assert(decode_spec(vocab, Seq::<i64>::empty()) =~= Seq::<u8>::empty());
        assert(decode_spec(vocab, seq![id]) == decode_spec(vocab, seq![id].drop_last()) + vocab[id]);
        assert(decode_spec(vocab, seq![id]) =~= vocab[id]);
        assert(p + s.subrange(e, s.len() as int) =~= s.subrange(i, s.len() as int));
        assert forall|k: int| 0 <= k < greedy_tokens(ids, s, i).len() implies vocab.contains_key(
            #[trigger] greedy_tokens(ids, s, i)[k],
        ) by {
            if k > 0 {
                assert(greedy_tokens(ids, s, i)[k] == rest[k - 1]);
            }
        }
    }
}

/// Law: where every token's id decodes to that token, decoding the ids that
/// longest-match encoding gives for `s` gives `s` back, and every one of those
/// ids can be decoded.
pub proof fn lemma_decode_encode(vocab: Map<i64, Seq<u8>>, ids: Map<Seq<u8>, i64>, s: Seq<u8>)
    requires
        consistent(vocab, ids),
        greedy_encodes(ids, s, 0),
    ensures
        all_known(vocab, greedy_tokens(ids, s, 0)),
        decode_spec(vocab, greedy_tokens(ids, s, 0)) == s,
{
    lemma_greedy_roundtrip(vocab, ids, s, 0);
    assert(s.subrange(0, s.len() as int) =~= s);
}

/// Law: where every token's id decodes to that token, the ids that
/// longest-match encoding gives for the UTF-8 bytes of `text` decode to valid
/// UTF-8 whose text is `text` again; so `decode` gives back the text that
/// `encode` was given.
pub proof fn lemma_text_roundtrip(vocab: Map<i64, Seq<u8>>, ids: Map<Seq<u8>, i64>, text: Seq<char>)
    requires
        consistent(vocab, ids),
        greedy_encodes(ids, encode_utf8(text), 0),
    ensures
        all_known(vocab, greedy_tokens(ids, encode_utf8(text), 0)),
        valid_utf8(decode_spec(vocab, greedy_tokens(ids, encode_utf8(text), 0))),
        decode_utf8(decode_spec(vocab, greedy_tokens(ids, encode_utf8(text), 0))) == text,
{
    lemma_decode_encode(vocab, ids, encode_utf8(text));
    encode_utf8_valid_utf8(text);
    encode_utf8_decode_utf8(text);
}

/// `s[a..b]` is a token of `ids` with id `t`, and no longer token of `ids`
/// starts at `a`.
pub open spec fn is_longest_token(ids: Map<Seq<u8>, i64>, s: Seq<u8>, a: int, b: int, t: i64) -> bool {
    &&& 0 <= a < b <= s.len()
    &&& ids.contains_key(s.subrange(a, b))
    &&& t == ids[s.subrange(a, b)]
    &&& forall|j: int| b < j <= s.len() ==> !#[trigger] ids.contains_key(s.subrange(a, j))
}

/// The cut points of longest-match encoding from `i` on, where it reaches
/// the end of `s`.
proof fn lemma_greedy_cuts(ids: Map<Seq<u8>, i64>, s: Seq<u8>, i: int) -> (cuts: Seq<int>)
    requires
        0 <= i <= s.len(),
        greedy_encodes(ids, s, i),
    ensures
        cuts.len() == greedy_tokens(ids, s, i).len() + 1,
        cuts[0] == i,
        cuts[cuts.len() - 1] == s.len(),
        forall|k: int|
            0 <= k < greedy_tokens(ids, s, i).len() ==> is_longest_token(
                ids,
                s,
                cuts[k],
                cuts[k + 1],
                #[trigger] greedy_tokens(ids, s, i)[k],
            ),
    decreases s.len() - i,
{
    if i >= s.len() {
        seq![i]
    } else {
        let e = next_token_end(ids, s, i);
        lemma_longest_token_end(ids, s, i, s.len() as int);
        let rest = lemma_greedy_cuts(ids, s, e);
        let cuts = seq![i] + rest;
        let toks = greedy_tokens(ids, s, i);
        let rest_toks = greedy_tokens(ids, s, e);
        assert(toks == seq![ids[s.subrange(i, e)]] + rest_toks);
        assert forall|j: int| e < j <= s.len() implies !#[trigger] ids.contains_key(s.subrange(i, j)) by {
            if ids.contains_key(s.subrange(i, j)) {
                assert(is_token_at(ids, s, i, j));
            }
        }
        assert forall|k: int| 0 <= k < toks.len() implies is_longest_token(
            ids,
            s,
            cuts[k],
            cuts[k + 1],
            #[trigger] toks[k],
        ) by {
            if k > 0 {
                assert(toks[k] == rest_toks[k - 1]);
                assert(cuts[k] == rest[k - 1]);
                assert(cuts[k + 1] == rest[k]);
            } else {
                assert(cuts[1] == rest[0]);
            }
        }
        cuts
    }
}

/// Law: longest-match encoding cuts `s` into consecutive tokens from its
/// start to its end, each the longest token of `ids` that starts where the
/// previous one ended, and gives their ids in order: the returned cut points
/// `cuts` start at 0, end at `s.len()`, and the `k`-th id is the id of
/// `s[cuts[k]..cuts[k + 1]]`, which no longer token starting at `cuts[k]`
/// beats.
pub proof fn lemma_encode_longest_match(ids: Map<Seq<u8>, i64>, s: Seq<u8>) -> (cuts: Seq<int>)
    requires
        greedy_encodes(ids, s, 0),
    ensures
        cuts.len() == greedy_tokens(ids, s, 0).len() + 1,
        cuts[0] == 0,
        cuts[cuts.len() - 1] == s.len(),
        forall|k: int|
            0 <= k < greedy_tokens(ids, s, 0).len() ==> is_longest_token(
                ids,
                s,
                cuts[k],
                cuts[k + 1],
                #[trigger] greedy_tokens(ids, s, 0)[k],
            ),
{
    lemma_greedy_cuts(ids, s, 0)
}

/// Law: where every single byte is a token, longest-match encoding never gets
/// stuck, whatever the bytes.
pub proof fn lemma_bytes_cover(ids: Map<Seq<u8>, i64>, s: Seq<u8>, i: int)
    requires
        forall|b: u8| #[trigger] ids.contains_key(seq![b]),
        0 <= i,
    ensures
        greedy_encodes(ids, s, i),
    decreases s.len() - i,
{
    if i < s.len() {
        assert(s.subrange(i, i + 1) =~= seq![s[i]]);
        assert(is_token_at(ids, s, i, i + 1));
        lemma_longest_token_end(ids, s, i, s.len() as int);
        lemma_bytes_cover(ids, s, next_token_end(ids, s, i));
    }
}

/// Every line reads as a vocabulary entry.
pub open spec fn lines_ok(lines: Seq<String>) -> bool {
    forall|i: int| 0 <= i < lines.len() ==> (#[trigger] parse_vocab_line_spec(encode_utf8(lines[i]@))) is Some
}

/// The vocabulary entries that the lines read as.
pub open spec fn parsed_lines(lines: Seq<String>) -> Seq<(i64, Seq<u8>)> {
    Seq::new(lines.len(), |i: int| parse_vocab_line_spec(encode_utf8(lines[i]@)).unwrap())
}

/// Law: for a vocabulary in which no id is given two different byte strings
/// and every single byte is a token, every byte string encodes without
/// getting stuck, and decoding its ids gives it back.
pub proof fn lemma_vocab_roundtrip(entries: Seq<(i64, Seq<u8>)>, s: Seq<u8>)
    requires
        ids_unambiguous(entries),
        forall|b: u8| #[trigger] ids_of(entries).contains_key(seq![b]),
    ensures
        greedy_encodes(ids_of(entries), s, 0),
        all_known(vocab_of(entries), greedy_tokens(ids_of(entries), s, 0)),
        decode_spec(vocab_of(entries), greedy_tokens(ids_of(entries), s, 0)) == s,
{
    lemma_vocab_consistent(entries);
    lemma_bytes_cover(ids_of(entries), s, 0);
    lemma_decode_encode(vocab_of(entries), ids_of(entries), s);
}

/// Well-formedness of a tokenizer: every node of its trie has a slot for
/// every byte, and the trie holds, at the path of every token, that token
/// with its id and nothing else, and no value anywhere else.
pub open spec fn tokenizer_trie_ok(root: TRIE, ids: Map<Seq<u8>, i64>) -> bool {
    &&& root.wf()
    &&& forall|p: Seq<u8>|
        #[trigger] root.values_at(p) == if ids.contains_key(p) {
            set![(p, ids[p])]
        } else {
            Set::empty()
        }
}

/// A non-empty stretch leads to a trie node that holds values exactly when it
/// is a token.
proof fn lemma_match_is_token(root: TRIE, ids: Map<Seq<u8>, i64>, s: Seq<u8>, i: int, j: int)
    requires
        tokenizer_trie_ok(root, ids),
    ensures
        root.is_match(s, i, j) <==> is_token_at(ids, s, i, j),
{
    if 0 <= i < j <= s.len() {
        let p = s.subrange(i, j);
        assert(root.values_at(p) == if ids.contains_key(p) {
            set![(p, ids[p])]
        } else {
            Set::<(Seq<u8>, i64)>::empty()
        });
        let one = set![(p, ids[p])];
        assert(one.contains((p, ids[p])));
        match root.node_at(p) {
            Some(n) => {
                let vs = values_view(n.values@);
                if n.values@.len() > 0 {
                    assert(vs.to_set().contains(vs[0]));
                    assert(ids.contains_key(p));
                } else {
                    assert(vs.to_set() =~= Set::<(Seq<u8>, i64)>::empty());
                    assert(!ids.contains_key(p));
                }
            },
            None => {
                assert(!ids.contains_key(p));
            },
        }
    }
}

/// A tokenizer: the bytes of every id, and a trie of the tokens by which
/// text is split into ids, taking the longest token each time.
#[allow(non_camel_case_types)]
pub struct TRIE_TOKENIZER {
    idx2token: HashMap<i64, Vec<u8>>,
    root: TRIE,
    ids: Ghost<Map<Seq<u8>, i64>>,
}

impl TRIE_TOKENIZER {
    #[verifier::type_invariant]
    spec fn inv(self) -> bool {
        &&& tokenizer_trie_ok(self.root, self.ids@)
        &&& self.root.ch is None
    }

    /// The trie by which text is split into tokens.
    pub closed spec fn trie(&self) -> TRIE {
        self.root
    }

    /// The trie by which text is split into tokens: its root records no
    /// byte, and at the path of every token it holds that token with its id
    /// and nothing else, while every other node holds nothing.
    pub fn root(&self) -> (res: &TRIE)
        ensures
            *res == self.trie(),
            tokenizer_trie_ok(*res, self.ids()),
            res.ch is None,
    {
        proof {
            use_type_invariant(self);
        }
        &self.root
    }

    /// The bytes of every id.
    pub closed spec fn vocab(&self) -> Map<i64, Seq<u8>> {
        self.idx2token@.map_values(|v: Vec<u8>| v@)
    }

    /// The id of every token that text is split into.
    pub closed spec fn ids(&self) -> Map<Seq<u8>, i64> {
        self.ids@
    }

    /// A tokenizer for the vocabulary file whose lines are `lines`, each line
    /// read as `parse_vocab_line` reads it; see `from_vocab`.
    pub fn new(lines: &Vec<String>) -> (res: Self)
        requires
            lines_ok(lines@),
        ensures
            res.vocab() == vocab_of(parsed_lines(lines@)),
            res.ids() == ids_of(parsed_lines(lines@)),
            tokenizer_trie_ok(res.trie(), res.ids()),
            res.trie().ch is None,
    {
        let mut entries: Vec<(i64, Vec<u8>)> = Vec::new();
        let mut i: usize = 0;
        while i < lines.len()
            invariant
                i <= lines@.len(),
                lines_ok(lines@),
                entries@.len() == i,
                forall|j: int| 0 <= j < i ==> (entries@[j].0, entries@[j].1@) == #[trigger] parsed_lines(lines@)[j],
            decreases lines@.len() - i,
        {
            let line = lines[i].as_str();
            let parsed = parse_vocab_line(line);
            assert(parse_vocab_line_spec(encode_utf8(lines@[i as int]@)) is Some);
            match parsed {
                Some(entry) => {
                    entries.push(entry);
                },
                None => {},
            }
            i = i + 1;
        }
        assert(entries_view(entries@) =~= parsed_lines(lines@));
        Self::from_vocab(&entries)
    }

    /// A tokenizer for the vocabulary `entries` read in order: id 0 starts
    /// as `<|endoftext|>`; every entry gives its id its bytes, a later entry
    /// replacing an earlier one; every entry with an id other than 0 makes its
    /// bytes a token with that id, a later entry for the same bytes replacing
    /// an earlier one.
    pub fn from_vocab(entries: &Vec<(i64, Vec<u8>)>) -> (res: Self)
        ensures
            res.vocab() == vocab_of(entries_view(entries@)),
            res.ids() == ids_of(entries_view(entries@)),
            tokenizer_trie_ok(res.trie(), res.ids()),
            res.trie().ch is None,
    {
        let ghost ev = entries_view(entries@);
        let mut idx2token: HashMap<i64, Vec<u8>> = HashMap::new();
        idx2token.insert(0, end_of_text_bytes());
        let mut i: usize = 0;
        proof {
            assert(ev.subrange(0, 0) =~= Seq::<(i64, Seq<u8>)>::empty());
            assert(idx2token@.map_values(|v: Vec<u8>| v@) =~= vocab_of(ev.subrange(0, 0)));
        }
        while i < entries.len()
            invariant
                ev == entries_view(entries@),
                i <= entries@.len(),
                idx2token@.map_values(|v: Vec<u8>| v@) == vocab_of(ev.subrange(0, i as int)),
            decreases entries@.len() - i,
        {
            let id = entries[i].0;
            let bytes = vstd::slice::slice_to_vec(entries[i].1.as_slice());
            idx2token.insert(id, bytes);
            proof {
                assert(ev.subrange(0, i + 1).drop_last() =~= ev.subrange(0, i as int));
                assert(ev.subrange(0, i + 1).last() == ev[i as int]);
                assert(idx2token@.map_values(|v: Vec<u8>| v@) =~= vocab_of(ev.subrange(0, i + 1)));
            }
            i = i + 1;
        }
        assert(ev.subrange(0, i as int) =~= ev);

        let mut root = TRIE::new(None);
        let ghost mut ids: Map<Seq<u8>, i64> = Map::empty();
        proof {
            assert forall|p: Seq<u8>| #[trigger] root.values_at(p) == if ids.contains_key(p) {
                set![(p, ids[p])]
            } else {
                Set::<(Seq<u8>, i64)>::empty()
            } by {
                if p.len() == 0 {
                    assert(values_view(root.values@) =~= Seq::<(Seq<u8>, i64)>::empty());
                } else {
                    assert(!root.present(p));
                }
            }
            assert(ev.subrange(entries@.len() as int, entries@.len() as int)
                =~= Seq::<(i64, Seq<u8>)>::empty());
        }
        let mut k: usize = entries.len();
        while k > 0
            invariant
                ev == entries_view(entries@),
                k <= entries@.len(),
                tokenizer_trie_ok(root, ids),
                root.ch is None,
                ids == ids_of(ev.subrange(k as int, entries@.len() as int)),
            decreases k,
        {
            k = k - 1;
            let id = entries[k].0;
            let key = entries[k].1.as_slice();
            let ghost p = key@;
            proof {
                assert(ev[k as int] == (id, p));
                assert(ev.subrange(k as int, entries@.len() as int) =~= seq![ev[k as int]]
                    + ev.subrange(k + 1, entries@.len() as int));
                lemma_ids_of_prepend(ev[k as int], ev.subrange(k + 1, entries@.len() as int));
                assert(key@.subrange(0, key@.len() as int) =~= p);
                lemma_match_is_token(root, ids, p, 0, p.len() as int);
            }
            if id != 0 {
                let (end, _node, vals) = root.find_longest(key, 0);
                proof {
                    assert(root.values_at(p) == if ids.contains_key(p) {
                        set![(p, ids[p])]
                    } else {
                        Set::<(Seq<u8>, i64)>::empty()
                    });
                    let one = set![(p, ids[p])];
                    assert(one.contains((p, ids[p])));
                    if p.len() == 0 {
                        assert(p =~= Seq::<u8>::empty());
                        assert(root.node_at(p) == Some(root));
                        assert(end == 0);
                        assert(*vals == root.values);
                        let vs = values_view(root.values@);
                        if vals.len() > 0 {
                            assert(vs.to_set().contains(vs[0]));
                        } else {
                            assert(vs =~= Seq::<(Seq<u8>, i64)>::empty());
                            assert(vs.to_set() =~= Set::<(Seq<u8>, i64)>::empty());
                        }
                    } else {
                        if ids.contains_key(p) {
                            assert(is_token_at(ids, p, 0, p.len() as int));
                            assert(root.is_match(p, 0, p.len() as int));
                        }
                        if end == key.len() {
                            assert(root.is_match(p, 0, p.len() as int));
                        }
                    }
                    assert((end == key.len() && vals.len() > 0) == ids.contains_key(p));
                }
                if !(end == key.len() && vals.len() > 0) {
                    let ghost before = root;
                    let value = vstd::slice::slice_to_vec(key);
                    let _ = root.add(key, 0, Some((value, id)));
                    proof {
                        let ids_before = ids;
                        ids = ids.insert(p, id);
                        assert forall|q: Seq<u8>| #[trigger] root.values_at(q) == if ids.contains_key(q) {
                            set![(q, ids[q])]
                        } else {
                            Set::<(Seq<u8>, i64)>::empty()
                        } by {
                            assert(before.values_at(q) == if ids_before.contains_key(q) {
                                set![(q, ids_before[q])]
                            } else {
                                Set::<(Seq<u8>, i64)>::empty()
                            });
                            if q == p {
                                assert(Set::<(Seq<u8>, i64)>::empty().insert((p, id)) =~= set![(p, id)]);
                            }
                        }
                    }
                }
            }
        }
        proof {
            assert(ev.subrange(0, entries@.len() as int) =~= ev);
        }
        TRIE_TOKENIZER { idx2token, root, ids: Ghost(ids) }
    }

    /// Splits `src` into tokens, each time taking the longest token that
    /// starts where the previous one ended, and returns their ids.
    pub fn encode_bytes(&self, src: &[u8]) -> (res: Vec<i64>)
        requires
            greedy_encodes(self.ids(), src@, 0),
        ensures
            res@ == greedy_tokens(self.ids(), src@, 0),
    {
        proof {
            use_type_invariant(self);
        }
        let ghost ids = self.ids@;
        let mut idx: usize = 0;
        let mut tokens: Vec<i64> = Vec::new();
        while idx < src.len()
            invariant
                tokenizer_trie_ok(self.root, ids),
                ids == self.ids@,
                idx <= src@.len(),
                greedy_encodes(ids, src@, idx as int),
                tokens@ + greedy_tokens(ids, src@, idx as int) == greedy_tokens(ids, src@, 0),
            decreases src@.len() - idx,
        {
            let ghost e = next_token_end(ids, src@, idx as int);
            let (next_idx, node, values) = self.root.find_longest(src, idx);
            proof {
                lemma_longest_token_end(ids, src@, idx as int, src@.len() as int);
                assert(is_token_at(ids, src@, idx as int, e));
                lemma_match_is_token(self.root, ids, src@, idx as int, e);
                lemma_match_is_token(self.root, ids, src@, idx as int, next_idx as int);
                let p = src@.subrange(idx as int, next_idx as int);
                assert(self.root.values_at(p) == set![(p, ids[p])]);
                let vs = values_view(values@);
                assert(vs.to_set().contains(vs[0]));
            }
            let token = values[0].1;
            tokens.push(token);
            proof {
                assert(seq![token] + greedy_tokens(ids, src@, next_idx as int) == greedy_tokens(
                    ids,
                    src@,
                    idx as int,
                ));
                assert(tokens@ + greedy_tokens(ids, src@, next_idx as int) =~= greedy_tokens(
                    ids,
                    src@,
                    0,
                ));
            }
            idx = next_idx;
        }
        proof {
            assert(tokens@ =~= tokens@ + greedy_tokens(ids, src@, idx as int));
        }
        tokens
    }

    /// Whether longest-match encoding of `src` reaches its end, that is,
    /// whether `encode_bytes` can be called on it.
    pub fn can_encode_bytes(&self, src: &[u8]) -> (res: bool)
        ensures
            res == greedy_encodes(self.ids(), src@, 0),
    {
        proof {
            use_type_invariant(self);
        }
        let ghost ids = self.ids@;
        let mut idx: usize = 0;
        while idx < src.len()
            invariant
                tokenizer_trie_ok(self.root, ids),
                ids == self.ids@,
                idx <= src@.len(),
                greedy_encodes(ids, src@, 0) == greedy_encodes(ids, src@, idx as int),
            decreases src@.len() - idx,
        {
            let (next_idx, _node, _values) = self.root.find_longest(src, idx);
            proof {
                let e = next_token_end(ids, src@, idx as int);
                lemma_longest_token_end(ids, src@, idx as int, src@.len() as int);
                if e > idx {
                    lemma_match_is_token(self.root, ids, src@, idx as int, e);
                }
                lemma_match_is_token(self.root, ids, src@, idx as int, next_idx as int);
            }
            if next_idx == idx {
                return false;
            }
            idx = next_idx;
        }
        true
    }

    /// Whether every id in `tokens` has bytes, that is, whether
    /// `decode_bytes` can be called on them.
    pub fn knows_all(&self, tokens: &[i64]) -> (res: bool)
        ensures
            res == all_known(self.vocab(), tokens@),
    {
        let mut i: usize = 0;
        while i < tokens.len()
            invariant
                i <= tokens@.len(),
                forall|j: int| 0 <= j < i ==> self.vocab().contains_key(#[trigger] tokens@[j]),
            decreases tokens@.len() - i,
        {
            if !self.idx2token.contains_key(&tokens[i]) {
                return false;
            }
            i = i + 1;
        }
        true
    }

    /// The bytes of the tokens with the given ids, one after the other.
    pub fn decode_bytes(&self, tokens: &[i64]) -> (res: Vec<u8>)
        requires
            all_known(self.vocab(), tokens@),
        ensures
            res@ == decode_spec(self.vocab(), tokens@),
    {
        let mut out: Vec<u8> = Vec::new();
        let mut i: usize = 0;
        while i < tokens.len()
            invariant
                i <= tokens@.len(),
                all_known(self.vocab(), tokens@),
                out@ == decode_spec(self.vocab(), tokens@.subrange(0, i as int)),
            decreases tokens@.len() - i,
        {
            let t = tokens[i];
            assert(self.vocab().contains_key(tokens@[i as int]));
            let bytes = self.idx2token.get(&t).unwrap();
            let ghost before = out@;
            let mut k: usize = 0;
            while k < bytes.len()
                invariant
                    k <= bytes@.len(),
                    out@ == before + bytes@.subrange(0, k as int),
                decreases bytes@.len() - k,
            {
                out.push(bytes[k]);
                assert(out@ =~= before + bytes@.subrange(0, k + 1));
                k = k + 1;
            }
            proof {
                assert(bytes@.subrange(0, k as int) =~= bytes@);
                assert(tokens@.subrange(0, i + 1).drop_last() =~= tokens@.subrange(0, i as int));
            }
            i = i + 1;
        }
        assert(tokens@.subrange(0, i as int) =~= tokens@);
        out
    }

    /// Splits the UTF-8 bytes of `src` into tokens; see `encode_bytes`.
    pub fn encode(&self, src: &str) -> (res: Vec<i64>)
        requires
            greedy_encodes(self.ids(), src.spec_bytes(), 0),
        ensures
            res@ == greedy_tokens(self.ids(), src.spec_bytes(), 0),
    {
        self.encode_bytes(src.as_bytes())
    }

    /// The text of the tokens with the given ids; where their bytes are not
    /// UTF-8, the text `<invalid utf8>`.
    pub fn decode(&self, tokens: &[i64]) -> (res: String)
        requires
            all_known(self.vocab(), tokens@),
        ensures
            valid_utf8(decode_spec(self.vocab(), tokens@)) ==> res@ == decode_utf8(
                decode_spec(self.vocab(), tokens@),
            ),
            !valid_utf8(decode_spec(self.vocab(), tokens@)) ==> res@ == invalid_utf8_text(),
    {
        let bytes = self.decode_bytes(tokens);
        match string_from_utf8(bytes) {
            Some(s) => s,
            None => {
                let fallback = "<invalid utf8>";
                proof {
                    reveal_strlit("<invalid utf8>");
                }
                let s = fallback.to_owned();
                assert(s@ =~= invalid_utf8_text());
                s
            },
        }
    }
}

/// The bytes of `<|endoftext|>`.
fn end_of_text_bytes() -> (res: Vec<u8>)
    ensures
        res@ == end_of_text(),
{
    let v: Vec<u8> = vec![60u8, 124u8, 101u8, 110u8, 100u8, 111u8, 102u8, 116u8, 101u8, 120u8, 116u8, 124u8, 62u8];
    assert(v@ =~= end_of_text());
    v
}

/// `String::from_utf8`: the bytes as text where they are UTF-8, and `None`
/// where they are not.
#[verifier::external_body]
fn string_from_utf8(bytes: Vec<u8>) -> (res: Option<String>)
    ensures
        res is Some <==> valid_utf8(bytes@),
        res matches Some(s) ==> s@ == decode_utf8(bytes@),
{
    String::from_utf8(bytes).ok()
}

} // verus!
