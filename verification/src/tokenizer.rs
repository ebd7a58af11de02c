//! The trained model: an ordered vocabulary (index is position), the merge
//! rules in order of discovery, the reserved-token table, and a trie over
//! the vocabulary that answers both exact and longest-prefix lookups.

use vstd::prelude::*;

use crate::token_config::TokenConfig;
use crate::token_config::slot_count;
use crate::trie::TrieNode;
use crate::text::lower_seq;
use crate::BpeError;

verus! {

/// Whether `w` is a member of the vocabulary `voc`.
pub open spec fn in_vocab(voc: Seq<Seq<char>>, w: Seq<char>) -> bool {
    exists|i: int| 0 <= i < voc.len() && voc[i] == w
}

/// A merge rule `(a, b)` is sound for `voc`: both halves and their
/// concatenation `a + b` are members.
pub open spec fn rule_ok(voc: Seq<Seq<char>>, a: Seq<char>, b: Seq<char>) -> bool {
    in_vocab(voc, a) && in_vocab(voc, b) && in_vocab(voc, a + b)
}

pub struct Tokenizer {
    pub vocabulary_trie: TrieNode,
    pub vocabulary: Vec<String>,
    pub merge_rules: Vec<(String, String)>,
    pub config: TokenConfig,
}

impl Tokenizer {
    /// The vocabulary as a sequence of character sequences; a token's index
    /// is its position here.
    pub open spec fn vocab(self) -> Seq<Seq<char>> {
        Seq::new(self.vocabulary@.len(), |i: int| self.vocabulary@[i]@)
    }

    /// The merge rules as pairs of character sequences.
    pub open spec fn rules(self) -> Seq<(Seq<char>, Seq<char>)> {
        Seq::new(
            self.merge_rules@.len(),
            |i: int| (self.merge_rules@[i].0@, self.merge_rules@[i].1@),
        )
    }

    /// Model invariant: unique non-empty tokens, a trie that is exactly the
    /// inverse of the vocabulary's positions, sound merge rules, and a
    /// reserved table whose every slot points at its own value.
    pub open spec fn wf(self) -> bool {
        &&& forall|i: int, j: int|
            0 <= i < j < self.vocab().len() ==> self.vocab()[i] != self.vocab()[j]
        &&& forall|i: int| 0 <= i < self.vocab().len() ==> self.vocab()[i].len() >= 1
        &&& forall|i: int|
            0 <= i < self.vocab().len() ==> self.vocabulary_trie.lookup(#[trigger] self.vocab()[i])
                == Some(i as usize)
        &&& forall|w: Seq<char>|
            #[trigger] self.vocabulary_trie.lookup(w) is Some
                ==> 0 <= self.vocabulary_trie.lookup(w)->0 < self.vocab().len()
                && self.vocab()[self.vocabulary_trie.lookup(w)->0 as int] == w
        &&& forall|k: int|
            0 <= k < slot_count() ==> (#[trigger] self.config.indices_view()[k] as int)
                < self.vocab().len() && self.vocab()[self.config.indices_view()[k] as int]
                == self.config.values_view()[k]
        &&& forall|r: int|
            0 <= r < self.rules().len() ==> rule_ok(
                self.vocab(),
                (#[trigger] self.rules()[r]).0,
                self.rules()[r].1,
            )
    }

    /// Assemble a model from parts that are already known to be coherent.
    /// The trie is built from the vocabulary.
    pub fn new(
        vocabulary: Vec<String>,
        merge_rules: Vec<(String, String)>,
        config: TokenConfig,
    ) -> (r: Tokenizer)
        requires
            forall|i: int, j: int|
                0 <= i < j < vocabulary@.len() ==> vocabulary@[i]@ != vocabulary@[j]@,
            forall|i: int| 0 <= i < vocabulary@.len() ==> vocabulary@[i]@.len() >= 1,
            forall|k: int|
                0 <= k < slot_count() ==> (#[trigger] config.indices_view()[k] as int)
                    < vocabulary@.len() && vocabulary@[config.indices_view()[k] as int]@
                    == config.values_view()[k],
            forall|r: int|
                0 <= r < merge_rules@.len() ==> rule_ok(
                    Seq::new(vocabulary@.len(), |i: int| vocabulary@[i]@),
                    (#[trigger] merge_rules@[r]).0@,
                    merge_rules@[r].1@,
                ),
        ensures
            r.wf(),
            r.vocabulary@ == vocabulary@,
            r.merge_rules@ == merge_rules@,
            r.config == config,
    {
        let mut t = Tokenizer {
            vocabulary_trie: TrieNode::new(),
            vocabulary,
            merge_rules,
            config,
        };
        t.build_trie();
        t
    }

    /// Rebuild the trie so that it maps each vocabulary member to its
    /// position and nothing else.
    pub fn build_trie(&mut self)
        requires
            forall|i: int, j: int|
                0 <= i < j < old(self).vocab().len() ==> old(self).vocab()[i]
                    != old(self).vocab()[j],
        ensures
            final(self).vocabulary@ == old(self).vocabulary@,
            final(self).merge_rules@ == old(self).merge_rules@,
            final(self).config == old(self).config,
            forall|i: int|
                0 <= i < final(self).vocab().len() ==> final(self).vocabulary_trie.lookup(
                    #[trigger] final(self).vocab()[i],
                ) == Some(i as usize),
            forall|w: Seq<char>|
                #[trigger] final(self).vocabulary_trie.lookup(w) is Some
                    ==> 0 <= final(self).vocabulary_trie.lookup(w)->0 < final(self).vocab().len()
                    && final(self).vocab()[final(self).vocabulary_trie.lookup(w)->0 as int] == w,
    {
        let ghost voc = self.vocab();
        let mut trie = TrieNode::new();
        let mut i: usize = 0;
        while i < self.vocabulary.len()
            invariant
                i <= self.vocabulary@.len(),
                voc == self.vocab(),
                voc.len() == self.vocabulary@.len(),
                forall|a: int, b: int| 0 <= a < b < voc.len() ==> voc[a] != voc[b],
                forall|j: int| 0 <= j < i ==> trie.lookup(#[trigger] voc[j]) == Some(j as usize),
                forall|w: Seq<char>|
                    #[trigger] trie.lookup(w) is Some ==> 0 <= trie.lookup(w)->0 < i
                        && voc[trie.lookup(w)->0 as int] == w,
            decreases self.vocabulary@.len() - i,
        {
            let ghost pre = trie;
            trie.insert(self.vocabulary[i].as_str(), i);
            proof {
                assert(self.vocabulary@[i as int]@ == voc[i as int]);
                assert forall|j: int| 0 <= j < i + 1 implies trie.lookup(#[trigger] voc[j]) == Some(
                    j as usize,
                ) by {
                    if j < i {
                        assert(voc[j] != voc[i as int]);
                        assert(trie.lookup(voc[j]) == pre.lookup(voc[j]));
                    } else {
                        assert(trie.lookup(voc[i as int]) == Some(i as usize));
                    }
                }
            }
            i += 1;
        }
        self.vocabulary_trie = trie;
    }

    /// The vocabulary as an owned list; position is index.
    pub fn get_vocabulary(&self) -> (r: Vec<String>)
        ensures
            r@.len() == self.vocabulary@.len(),
            forall|i: int| 0 <= i < r@.len() ==> r@[i] == self.vocabulary@[i],
    {
        let mut out: Vec<String> = Vec::new();
        let mut i: usize = 0;
        while i < self.vocabulary.len()
            invariant
                i <= self.vocabulary@.len(),
                out@.len() == i,
                forall|j: int| 0 <= j < i ==> out@[j] == self.vocabulary@[j],
            decreases self.vocabulary@.len() - i,
        {
            out.push(self.vocabulary[i].clone());
            i += 1;
        }
        out
    }

    /// The number of tokens in the vocabulary.
    pub fn vocab_size(&self) -> (r: usize)
        ensures
            r == self.vocab().len(),
    {
        self.vocabulary.len()
    }

    /// The merge rules, in order of discovery.
    pub fn get_merge_rules(&self) -> (r: Vec<(String, String)>)
        ensures
            r@.len() == self.merge_rules@.len(),
            forall|i: int| 0 <= i < r@.len() ==> r@[i] == self.merge_rules@[i],
    {
        let mut out: Vec<(String, String)> = Vec::new();
        let mut i: usize = 0;
        while i < self.merge_rules.len()
            invariant
                i <= self.merge_rules@.len(),
                out@.len() == i,
                forall|j: int| 0 <= j < i ==> out@[j] == self.merge_rules@[j],
            decreases self.merge_rules@.len() - i,
        {
            let pair = (self.merge_rules[i].0.clone(), self.merge_rules[i].1.clone());
            out.push(pair);
            i += 1;
        }
        out
    }

    /// An owned copy of the reserved-token table.
    pub fn get_config(&self) -> (r: TokenConfig)
        ensures
            r == self.config,
    {
        self.config.duplicate()
    }

    /// The token at `index`, if `index` is within the vocabulary.
    pub fn get_token(&self, index: usize) -> (r: Option<String>)
        ensures
            match r {
                Some(s) => index < self.vocab().len() && s@ == self.vocab()[index as int],
                None => index >= self.vocab().len(),
            },
    {
        if index < self.vocabulary.len() {
            Some(self.vocabulary[index].clone())
        } else {
            None
        }
    }

    /// The index of `token`, if `token` is in the vocabulary.
    pub fn get_index(&self, token: &str) -> (r: Option<usize>)
        requires
            self.wf(),
        ensures
            match r {
                Some(idx) => idx < self.vocab().len() && self.vocab()[idx as int] == token@,
                None => !in_vocab(self.vocab(), token@),
            },
    {
        let chars = crate::text::str_to_chars(token);
        let r = self.vocabulary_trie.get(&chars);
        proof {
            if r is None {
                assert forall|i: int| 0 <= i < self.vocab().len() implies self.vocab()[i]
                    != token@ by {
                    if self.vocab()[i] == token@ {
                        assert(self.vocabulary_trie.lookup(self.vocab()[i]) == Some(i as usize));
                    }
                }
            }
        }
        r
    }

    /// The tokens at the given indices. Every index must be in the
    /// vocabulary; otherwise the whole call fails with `UnknownIndex`.
    pub fn get_tokens(&self, indices: &Vec<usize>) -> (r: Result<Vec<String>, BpeError>)
        ensures
            match r {
                Ok(ts) => ts@.len() == indices@.len() && (forall|k: int|
                    0 <= k < indices@.len() ==> (#[trigger] indices@[k] as int)
                        < self.vocab().len() && ts@[k]@ == self.vocab()[indices@[k] as int]),
                Err(e) => e == BpeError::UnknownIndex && (exists|k: int|
                    0 <= k < indices@.len() && (#[trigger] indices@[k] as int)
                        >= self.vocab().len()),
            },
    {
        let mut out: Vec<String> = Vec::new();
        let mut i: usize = 0;
        while i < indices.len()
            invariant
                i <= indices@.len(),
                out@.len() == i,
                forall|k: int|
                    0 <= k < i ==> (#[trigger] indices@[k] as int) < self.vocab().len()
                        && out@[k]@ == self.vocab()[indices@[k] as int],
            decreases indices@.len() - i,
        {
            let idx = indices[i];
            if idx >= self.vocabulary.len() {
                return Err(BpeError::UnknownIndex);
            }
            out.push(self.vocabulary[idx].clone());
            i += 1;
        }
        Ok(out)
    }

    /// The indices of the given tokens. Every token must be in the
    /// vocabulary; otherwise the whole call fails with `UnknownToken`.
    pub fn get_indices(&self, tokens: &Vec<String>) -> (r: Result<Vec<usize>, BpeError>)
        requires
            self.wf(),
        ensures
            match r {
                Ok(ids) => ids@.len() == tokens@.len() && (forall|k: int|
                    0 <= k < tokens@.len() ==> (#[trigger] ids@[k] as int) < self.vocab().len()
                        && self.vocab()[ids@[k] as int] == tokens@[k]@),
                Err(e) => e == BpeError::UnknownToken && (exists|k: int|
                    0 <= k < tokens@.len() && !in_vocab(self.vocab(), #[trigger] tokens@[k]@)),
            },
    {
        let mut out: Vec<usize> = Vec::new();
        let mut i: usize = 0;
        while i < tokens.len()
            invariant
                self.wf(),
                i <= tokens@.len(),
                out@.len() == i,
                forall|k: int|
                    0 <= k < i ==> (#[trigger] out@[k] as int) < self.vocab().len()
                        && self.vocab()[out@[k] as int] == tokens@[k]@,
            decreases tokens@.len() - i,
        {
            match self.get_index(tokens[i].as_str()) {
                Some(idx) => {
                    out.push(idx);
                },
                None => {
                    return Err(BpeError::UnknownToken);
                },
            }
            i += 1;
        }
        Ok(out)
    }

    /// Lowercase normalization: each scalar is lowercased on its own;
    /// nothing else changes.
    pub fn clean_text(text: &str) -> (r: String)
        ensures
            r@ == lower_seq(text@),
    {
        let chars = crate::text::str_to_chars(text);
        let lowered = crate::text::lower_chars(&chars);
        crate::text::chars_to_string(&lowered)
    }
}

/// The views of a list of owned strings.
pub open spec fn views_of(ts: Seq<String>) -> Seq<Seq<char>> {
    Seq::new(ts.len(), |i: int| ts[i]@)
}

/// The greatest `l` with `1 <= l <= upto` such that `text[pos..pos+l]` is
/// in the trie, if any.
pub open spec fn best_len(t: TrieNode, text: Seq<char>, pos: int, upto: int) -> Option<int>
    decreases upto,
{
    if upto < 1 {
        None
    } else if t.lookup(text.subrange(pos, pos + upto)) is Some {
        Some(upto)
    } else {
        best_len(t, text, pos, upto - 1)
    }
}

/// `best_len` finds a match iff one exists, and nothing longer matches.
pub proof fn lemma_best_len(t: TrieNode, text: Seq<char>, pos: int, upto: int)
    ensures
        match best_len(t, text, pos, upto) {
            Some(l) => 1 <= l <= upto && t.lookup(text.subrange(pos, pos + l)) is Some && (
            forall|l2: int|
                l < l2 <= upto ==> #[trigger] t.lookup(text.subrange(pos, pos + l2)) is None),
            None => forall|l2: int|
                1 <= l2 <= upto ==> #[trigger] t.lookup(text.subrange(pos, pos + l2)) is None,
        },
    decreases upto,
{
    if upto >= 1 {
        lemma_best_len(t, text, pos, upto - 1);
    }
}

impl Tokenizer {
    /// The index stream produced by greedy longest-prefix matching from
    /// `pos`: the longest vocabulary prefix's index, or the unknown index
    /// when no prefix of length at least one matches. The clamp on `step`
    /// only keeps the recursion well-founded; `best_len` never returns a
    /// length outside `1..=upto`.
    pub open spec fn encode_from(self, text: Seq<char>, pos: int) -> Seq<usize>
        decreases text.len() - pos,
    {
        if pos < 0 || pos >= text.len() {
            Seq::empty()
        } else {
            match best_len(self.vocabulary_trie, text, pos, text.len() - pos) {
                Some(l) => {
                    let step = if l < 1 {
                        1
                    } else if l > text.len() - pos {
                        text.len() - pos
                    } else {
                        l
                    };
                    seq![self.vocabulary_trie.lookup(text.subrange(pos, pos + step))->0]
                        + self.encode_from(text, pos + step)
                },
                None => seq![self.config.unknown.index] + self.encode_from(text, pos + 1),
            }
        }
    }

    /// What encoding `text` yields: lowercase it, then match greedily.
    pub open spec fn encode(self, text: Seq<char>) -> Seq<usize> {
        self.encode_from(lower_seq(text), 0)
    }

    /// The tokens named by `idxs` from position `k` on, skipping indices
    /// outside the vocabulary.
    pub open spec fn valid_tokens_from(self, idxs: Seq<usize>, k: int) -> Seq<Seq<char>>
        decreases idxs.len() - k,
    {
        if k < 0 || k >= idxs.len() {
            Seq::empty()
        } else {
            let rest = self.valid_tokens_from(idxs, k + 1);
            if (idxs[k] as int) < self.vocab().len() {
                seq![self.vocab()[idxs[k] as int]] + rest
            } else {
                rest
            }
        }
    }

    /// Concatenate tokens from position `k` on. The end-of-sentence token
    /// contributes a single space when the next token is not reserved, and
    /// nothing when it is; every other token contributes its own text.
    pub open spec fn decode_tokens(self, toks: Seq<Seq<char>>, k: int) -> Seq<char>
        decreases toks.len() - k,
    {
        if k < 0 || k >= toks.len() {
            Seq::empty()
        } else {
            let piece = if toks[k] == self.config.eos.value@ {
                if k + 1 < toks.len() && self.config.is_reserved_view(toks[k + 1]) {
                    Seq::<char>::empty()
                } else {
                    seq![' ']
                }
            } else {
                toks[k]
            };
            piece + self.decode_tokens(toks, k + 1)
        }
    }

    /// What decoding `idxs` yields.
    pub open spec fn decode(self, idxs: Seq<usize>) -> Seq<char> {
        self.decode_tokens(self.valid_tokens_from(idxs, 0), 0)
    }

    /// Segment `input_text` into token indices: lowercase it, then emit the
    /// longest vocabulary prefix at each position, or the unknown reserved
    /// index (advancing one scalar) where none matches.
    pub fn tokenize(&self, input_text: &str) -> (r: Vec<usize>)
        requires
            self.wf(),
        ensures
            r@ == self.encode(input_text@),
    {
        let text = Tokenizer::clean_text(input_text);
        let chars = crate::text::str_to_chars(text.as_str());
        let ghost t = chars@;
        proof {
            assert(t == lower_seq(input_text@));
        }
        let mut out: Vec<usize> = Vec::new();
        let mut pos: usize = 0;
        while pos < chars.len()
            invariant
                self.wf(),
                pos <= t.len(),
                t == chars@,
                self.encode_from(t, 0) == out@ + self.encode_from(t, pos as int),
            decreases t.len() - pos,
        {
            let ghost old_out = out@;
            let ghost old_pos = pos as int;
            proof {
                lemma_best_len(self.vocabulary_trie, t, pos as int, t.len() - pos);
            }
            match self.vocabulary_trie.find_longest_prefix(&chars, pos) {
                Some((l, idx)) => {
                    proof {
                        let b = best_len(self.vocabulary_trie, t, old_pos, t.len() - old_pos);
                        assert(b == Some(l as int)) by {
                            match b {
                                Some(bl) => {
                                    if bl < l {
                                        assert(self.vocabulary_trie.lookup(
                                            t.subrange(old_pos, old_pos + l),
                                        ) is None);
                                    }
                                    if bl > l {
                                        assert(self.vocabulary_trie.lookup(
                                            t.subrange(old_pos, old_pos + bl),
                                        ) is None);
                                    }
                                },
                                None => {
                                    assert(self.vocabulary_trie.lookup(
                                        t.subrange(old_pos, old_pos + l),
                                    ) is None);
                                },
                            }
                        }
                        assert(self.encode_from(t, old_pos) == seq![idx] + self.encode_from(
                            t,
                            old_pos + l,
                        ));
                    }
                    out.push(idx);
                    pos += l;
                },
                None => {
                    proof {
                        assert(self.encode_from(t, old_pos) == seq![self.config.unknown.index]
                            + self.encode_from(t, old_pos + 1));
                    }
                    out.push(self.config.unknown.index);
                    pos += 1;
                },
            }
            proof {
                assert(out@ =~= old_out + seq![out@[out@.len() - 1]]);
                assert((old_out + seq![out@[out@.len() - 1]]) + self.encode_from(t, pos as int)
                    =~= old_out + (seq![out@[out@.len() - 1]] + self.encode_from(t, pos as int)));
            }
        }
        proof {
            assert(self.encode_from(t, pos as int) =~= Seq::<usize>::empty());
            assert(out@ + self.encode_from(t, pos as int) =~= out@);
        }
        out
    }

    /// Reconstruct text from token indices. Indices outside the vocabulary
    /// are skipped; the end-of-sentence token becomes a space unless the
    /// next surviving token is reserved; every other token contributes its
    /// text unchanged.
    pub fn detokenize(&self, indices: &Vec<usize>) -> (r: String)
        requires
            self.wf(),
        ensures
            r@ == self.decode(indices@),
    {
        let ghost idxs = indices@;
        let mut tokens: Vec<String> = Vec::new();
        let mut i: usize = 0;
        while i < indices.len()
            invariant
                self.wf(),
                i <= idxs.len(),
                idxs == indices@,
                self.valid_tokens_from(idxs, 0) == views_of(tokens@) + self.valid_tokens_from(
                    idxs,
                    i as int,
                ),
            decreases idxs.len() - i,
        {
            let ghost old_tokens = tokens@;
            let idx = indices[i];
            if idx < self.vocabulary.len() {
                tokens.push(self.vocabulary[idx].clone());
                proof {
                    assert(views_of(tokens@) =~= views_of(old_tokens) + seq![
                        self.vocab()[idx as int],
                    ]);
                    assert(self.valid_tokens_from(idxs, i as int) == seq![
                        self.vocab()[idx as int],
                    ] + self.valid_tokens_from(idxs, i + 1));
                    assert((views_of(old_tokens) + seq![self.vocab()[idx as int]])
                        + self.valid_tokens_from(idxs, i + 1) =~= views_of(old_tokens) + (seq![
                        self.vocab()[idx as int],
                    ] + self.valid_tokens_from(idxs, i + 1)));
                }
            } else {
                proof {
                    assert(self.valid_tokens_from(idxs, i as int) == self.valid_tokens_from(
                        idxs,
                        i + 1,
                    ));
                }
            }
            i += 1;
        }
        proof {
            assert(self.valid_tokens_from(idxs, i as int) =~= Seq::<Seq<char>>::empty());
            assert(views_of(tokens@) + self.valid_tokens_from(idxs, i as int) =~= views_of(
                tokens@,
            ));
        }
        let ghost toks = views_of(tokens@);
        let mut result = String::new();
        let mut k: usize = 0;
        while k < tokens.len()
            invariant
                self.wf(),
                k <= tokens@.len(),
                toks == views_of(tokens@),
                toks.len() == tokens@.len(),
                self.decode_tokens(toks, 0) == result@ + self.decode_tokens(toks, k as int),
            decreases tokens@.len() - k,
        {
            let ghost old_result = result@;
            let ghost piece = self.decode_piece(toks, k as int);
            if !self.config.is_eos(tokens[k].as_str()) {
                result.append(tokens[k].as_str());
                proof {
                    assert(piece == toks[k as int]);
                }
            } else {
                let next_is_special = if k + 1 < tokens.len() {
                    self.config.is_special_token(tokens[k + 1].as_str())
                } else {
                    false
                };
                if !next_is_special {
                    result.append(" ");
                    proof {
                        reveal_strlit(" ");
                        assert(" "@ =~= seq![' ']);
                        assert(piece =~= seq![' ']);
                    }
                } else {
                    proof {
                        assert(piece =~= Seq::<char>::empty());
                        assert(result@ =~= old_result + piece);
                    }
                }
            }
            proof {
                assert(result@ == old_result + piece);
                assert(self.decode_tokens(toks, k as int) == piece + self.decode_tokens(
                    toks,
                    k + 1,
                ));
                assert((old_result + piece) + self.decode_tokens(toks, k + 1) =~= old_result + (
                piece + self.decode_tokens(toks, k + 1)));
            }
            k += 1;
        }
        proof {
            assert(self.decode_tokens(toks, k as int) =~= Seq::<char>::empty());
            assert(result@ + self.decode_tokens(toks, k as int) =~= result@);
        }
        result
    }

    /// The text contributed by the token at position `k`.
    pub open spec fn decode_piece(self, toks: Seq<Seq<char>>, k: int) -> Seq<char> {
        if toks[k] == self.config.eos.value@ {
            if k + 1 < toks.len() && self.config.is_reserved_view(toks[k + 1]) {
                Seq::<char>::empty()
            } else {
                seq![' ']
            }
        } else {
            toks[k]
        }
    }
}

/// The views of a list of merge-rule pairs.
pub open spec fn rule_views(ms: Seq<(String, String)>) -> Seq<(Seq<char>, Seq<char>)> {
    Seq::new(ms.len(), |i: int| (ms[i].0@, ms[i].1@))
}

/// What a model snapshot must satisfy to be loadable: unique non-empty
/// tokens, sound merge rules, and reserved slots that point at their own
/// values.
pub open spec fn snapshot_ok(
    voc: Seq<Seq<char>>,
    rules: Seq<(Seq<char>, Seq<char>)>,
    config: TokenConfig,
) -> bool {
    &&& forall|i: int, j: int| 0 <= i < j < voc.len() ==> voc[i] != voc[j]
    &&& forall|i: int| 0 <= i < voc.len() ==> (#[trigger] voc[i]).len() >= 1
    &&& forall|r: int|
        0 <= r < rules.len() ==> rule_ok(voc, (#[trigger] rules[r]).0, rules[r].1)
    &&& forall|k: int|
        0 <= k < slot_count() ==> (#[trigger] config.indices_view()[k] as int) < voc.len()
            && voc[config.indices_view()[k] as int] == config.values_view()[k]
}

impl Tokenizer {
    /// Assemble a model from untrusted snapshot parts, checking every
    /// invariant at run time: duplicate or empty tokens, merge rules with
    /// members missing from the vocabulary, and reserved slots that do not
    /// point at their own values are all rejected as `InvalidSnapshot`.
    #[verifier::loop_isolation(false)]
    pub fn from_snapshot(
        vocabulary: Vec<String>,
        merge_rules: Vec<(String, String)>,
        config: TokenConfig,
    ) -> (r: Result<Tokenizer, BpeError>)
        ensures
            match r {
                Ok(m) => {
                    &&& m.wf()
                    &&& m.vocabulary@ == vocabulary@
                    &&& m.merge_rules@ == merge_rules@
                    &&& m.config == config
                    &&& snapshot_ok(
                        Seq::new(vocabulary@.len(), |i: int| vocabulary@[i]@),
                        rule_views(merge_rules@),
                        config,
                    )
                },
                Err(e) => e == BpeError::InvalidSnapshot && !snapshot_ok(
                    Seq::new(vocabulary@.len(), |i: int| vocabulary@[i]@),
                    rule_views(merge_rules@),
                    config,
                ),
            },
    {
        let ghost voc = Seq::new(vocabulary@.len(), |i: int| vocabulary@[i]@);
        let ghost rls = rule_views(merge_rules@);
        let mut trie = crate::trie::TrieNode::new();
        let mut i: usize = 0;
        while i < vocabulary.len()
            invariant
                i <= vocabulary@.len(),
                forall|a: int, b: int| 0 <= a < b < i ==> voc[a] != voc[b],
                forall|a: int| 0 <= a < i ==> (#[trigger] voc[a]).len() >= 1,
                forall|j: int| 0 <= j < i ==> trie.lookup(#[trigger] voc[j]) == Some(j as usize),
                forall|w: Seq<char>|
                    #[trigger] trie.lookup(w) is Some ==> 0 <= trie.lookup(w)->0 < i
                        && voc[trie.lookup(w)->0 as int] == w,
            decreases vocabulary@.len() - i,
        {
            if vocabulary[i].as_str().is_empty() {
                proof {
                    assert(voc[i as int].len() == 0);
                }
                return Err(BpeError::InvalidSnapshot);
            }
            let chars = crate::text::str_to_chars(vocabulary[i].as_str());
            if trie.get(&chars).is_some() {
                proof {
                    let j = trie.lookup(voc[i as int])->0;
                    assert(voc[j as int] == voc[i as int]);
                }
                return Err(BpeError::InvalidSnapshot);
            }
            let ghost pre = trie;
            trie.insert(vocabulary[i].as_str(), i);
            proof {
                assert forall|j: int| 0 <= j < i + 1 implies trie.lookup(#[trigger] voc[j]) == Some(
                    j as usize,
                ) by {
                    if j < i {
                        assert(voc[j] != voc[i as int]) by {
                            if voc[j] == voc[i as int] {
                                assert(pre.lookup(voc[j]) == Some(j as usize));
                            }
                        }
                        assert(trie.lookup(voc[j]) == pre.lookup(voc[j]));
                    }
                }
                assert forall|a: int, b: int| 0 <= a < b < i + 1 implies voc[a] != voc[b] by {
                    if b == i {
                        if voc[a] == voc[i as int] {
                            assert(pre.lookup(voc[a]) == Some(a as usize));
                        }
                    }
                }
            }
            i += 1;
        }
        let mut rr: usize = 0;
        while rr < merge_rules.len()
            invariant
                rr <= merge_rules@.len(),
                forall|q: int| 0 <= q < rr ==> rule_ok(voc, (#[trigger] rls[q]).0, rls[q].1),
            decreases merge_rules@.len() - rr,
        {
            let a_chars = crate::text::str_to_chars(merge_rules[rr].0.as_str());
            let b_chars = crate::text::str_to_chars(merge_rules[rr].1.as_str());
            let cat = merge_rules[rr].0.clone().concat(merge_rules[rr].1.as_str());
            let cat_chars = crate::text::str_to_chars(cat.as_str());
            let ok_a = trie.get(&a_chars).is_some();
            let ok_b = trie.get(&b_chars).is_some();
            let ok_cat = trie.get(&cat_chars).is_some();
            if !(ok_a && ok_b && ok_cat) {
                proof {
                    assert(!rule_ok(voc, rls[rr as int].0, rls[rr as int].1)) by {
                        if in_vocab(voc, rls[rr as int].0) {
                            let q = choose|q: int|
                                0 <= q < voc.len() && voc[q] == rls[rr as int].0;
                            assert(trie.lookup(voc[q]) == Some(q as usize));
                        }
                        if in_vocab(voc, rls[rr as int].1) {
                            let q = choose|q: int|
                                0 <= q < voc.len() && voc[q] == rls[rr as int].1;
                            assert(trie.lookup(voc[q]) == Some(q as usize));
                        }
                        if in_vocab(voc, rls[rr as int].0 + rls[rr as int].1) {
                            let cat_v = rls[rr as int].0 + rls[rr as int].1;
                            let q = choose|q: int| 0 <= q < voc.len() && voc[q] == cat_v;
                            assert(trie.lookup(voc[q]) == Some(q as usize));
                        }
                    }
                }
                return Err(BpeError::InvalidSnapshot);
            }
            proof {
                assert(rule_ok(voc, rls[rr as int].0, rls[rr as int].1)) by {
                    let ja = trie.lookup(a_chars@)->0;
                    assert(voc[ja as int] == rls[rr as int].0);
                    let jb = trie.lookup(b_chars@)->0;
                    assert(voc[jb as int] == rls[rr as int].1);
                    let jc = trie.lookup(cat_chars@)->0;
                    assert(voc[jc as int] == rls[rr as int].0 + rls[rr as int].1);
                }
            }
            rr += 1;
        }
        let values = config.get_values();
        let indices = config.get_indices();
        let mut k: usize = 0;
        while k < values.len()
            invariant
                k <= slot_count(),
                values@.len() == slot_count(),
                indices@.len() == slot_count(),
                forall|q: int| 0 <= q < slot_count() ==> #[trigger] values@[q]@
                    == config.values_view()[q],
                indices@ == config.indices_view(),
                forall|q: int|
                    0 <= q < k ==> (#[trigger] config.indices_view()[q] as int) < voc.len()
                        && voc[config.indices_view()[q] as int] == config.values_view()[q],
            decreases slot_count() - k,
        {
            let v_chars = crate::text::str_to_chars(values[k].as_str());
            let slot_ok = match trie.get(&v_chars) {
                Some(t) => t == indices[k],
                None => false,
            };
            if !slot_ok {
                proof {
                    assert(!((config.indices_view()[k as int] as int) < voc.len()
                        && voc[config.indices_view()[k as int] as int]
                        == config.values_view()[k as int])) by {
                        let idx = config.indices_view()[k as int];
                        if (idx as int) < voc.len() && voc[idx as int]
                            == config.values_view()[k as int] {
                            assert(trie.lookup(voc[idx as int]) == Some(idx));
                        }
                    }
                }
                return Err(BpeError::InvalidSnapshot);
            }
            proof {
                let t = trie.lookup(v_chars@)->0;
                assert(voc[t as int] == config.values_view()[k as int]);
            }
            k += 1;
        }
        let m = Tokenizer { vocabulary_trie: trie, vocabulary, merge_rules, config };
        proof {
            assert(m.vocab() =~= voc);
            assert forall|q: int|
                0 <= q < m.rules().len() implies rule_ok(
                m.vocab(),
                (#[trigger] m.rules()[q]).0,
                m.rules()[q].1,
            ) by {
                assert(m.rules()[q] == rls[q]);
            }
        }
        Ok(m)
    }

    /// Pad or truncate each sequence to exactly `max_len` indices, filling
    /// with the padding index zero.
    pub fn pad_sequences(&self, sequences: &Vec<Vec<usize>>, max_len: usize) -> (r: Vec<
        Vec<usize>,
    >)
        ensures
            r@.len() == sequences@.len(),
            forall|k: int|
                0 <= k < r@.len() ==> (#[trigger] r@[k])@.len() == max_len && (forall|t: int|
                    0 <= t < max_len ==> r@[k]@[t] == (if t < sequences@[k]@.len() {
                        sequences@[k]@[t]
                    } else {
                        0usize
                    })),
    {
        let mut out: Vec<Vec<usize>> = Vec::new();
        let mut k: usize = 0;
        while k < sequences.len()
            invariant
                k <= sequences@.len(),
                out@.len() == k,
                forall|q: int|
                    0 <= q < k ==> (#[trigger] out@[q])@.len() == max_len && (forall|t: int|
                        0 <= t < max_len ==> out@[q]@[t] == (if t < sequences@[q]@.len() {
                            sequences@[q]@[t]
                        } else {
                            0usize
                        })),
            decreases sequences@.len() - k,
        {
            let row = &sequences[k];
            let mut padded: Vec<usize> = Vec::new();
            let mut t: usize = 0;
            while t < max_len
                invariant
                    t <= max_len,
                    padded@.len() == t,
                    forall|u: int|
                        0 <= u < t ==> padded@[u] == (if u < row@.len() {
                            row@[u]
                        } else {
                            0usize
                        }),
                decreases max_len - t,
            {
                if t < row.len() {
                    padded.push(row[t]);
                } else {
                    padded.push(0);
                }
                t += 1;
            }
            out.push(padded);
            k += 1;
        }
        out
    }
}

} // verus!
