//! The library's quantified guarantees, stated and proved once over the
//! model's specification functions.

use vstd::prelude::*;

use crate::token_config::slot_count;
use crate::tokenizer::Tokenizer;
use crate::tokenizer::in_vocab;
use crate::tokenizer::rule_views;
use crate::tokenizer::snapshot_ok;
use crate::text::lower_seq;

verus! {

/// A well-formed model's vocabulary holds no duplicate strings.
pub proof fn lemma_vocabulary_unique(m: Tokenizer)
    requires
        m.wf(),
    ensures
        forall|i: int, j: int| 0 <= i < j < m.vocab().len() ==> m.vocab()[i] != m.vocab()[j],
{
}

/// Every merge rule's halves are vocabulary members, and so is their
/// concatenation.
pub proof fn lemma_rules_in_vocabulary(m: Tokenizer)
    requires
        m.wf(),
    ensures
        forall|r: int|
            0 <= r < m.rules().len() ==> in_vocab(m.vocab(), (#[trigger] m.rules()[r]).0)
                && in_vocab(m.vocab(), m.rules()[r].1) && in_vocab(
                m.vocab(),
                m.rules()[r].0 + m.rules()[r].1,
            ),
{
}

/// The token-to-index and index-to-token maps are mutually inverse: looking
/// up the token at a valid index finds that index, and looking up any
/// vocabulary member finds a valid index that names it.
pub proof fn lemma_token_index_bijection(m: Tokenizer)
    requires
        m.wf(),
    ensures
        forall|i: int|
            0 <= i < m.vocab().len() ==> m.vocabulary_trie.lookup(#[trigger] m.vocab()[i]) == Some(
                i as usize,
            ),
        forall|w: Seq<char>|
            #[trigger] in_vocab(m.vocab(), w) ==> m.vocabulary_trie.lookup(w) is Some
                && (m.vocabulary_trie.lookup(w)->0 as int) < m.vocab().len()
                && m.vocab()[m.vocabulary_trie.lookup(w)->0 as int] == w,
{
    assert forall|w: Seq<char>| #[trigger] in_vocab(m.vocab(), w) implies m.vocabulary_trie.lookup(
        w,
    ) is Some && (m.vocabulary_trie.lookup(w)->0 as int) < m.vocab().len()
        && m.vocab()[m.vocabulary_trie.lookup(w)->0 as int] == w by {
        let i = choose|i: int| 0 <= i < m.vocab().len() && m.vocab()[i] == w;
        assert(m.vocabulary_trie.lookup(m.vocab()[i]) == Some(i as usize));
    }
}

/// A well-formed model's own parts form a valid snapshot, so saving a model
/// and reloading what was saved reconstructs it: same vocabulary order,
/// same rule list, same reserved table.
pub proof fn lemma_snapshot_round_trip(m: Tokenizer)
    requires
        m.wf(),
    ensures
        snapshot_ok(m.vocab(), rule_views(m.merge_rules@), m.config),
{
    assert(Seq::new(m.vocabulary@.len(), |i: int| m.vocabulary@[i]@) =~= m.vocab());
    assert forall|r: int|
        0 <= r < rule_views(m.merge_rules@).len() implies crate::tokenizer::rule_ok(
        m.vocab(),
        (#[trigger] rule_views(m.merge_rules@)[r]).0,
        rule_views(m.merge_rules@)[r].1,
    ) by {
        assert(m.rules()[r] == rule_views(m.merge_rules@)[r]);
        assert(crate::tokenizer::rule_ok(m.vocab(), (m.rules()[r]).0, m.rules()[r].1));
    }
}

/// The concatenation of a list of token texts.
pub open spec fn concat_all(toks: Seq<Seq<char>>) -> Seq<char>
    decreases toks.len(),
{
    if toks.len() == 0 {
        Seq::empty()
    } else {
        toks[0] + concat_all(toks.drop_first())
    }
}

/// The texts of the tokens named by `idxs`.
pub open spec fn toks_of(m: Tokenizer, idxs: Seq<usize>) -> Seq<Seq<char>> {
    Seq::new(idxs.len(), |k: int| m.vocab()[idxs[k] as int])
}

/// When every index is valid, nothing is skipped: the surviving tokens are
/// exactly the named ones.
proof fn lemma_valid_tokens_total(m: Tokenizer, idxs: Seq<usize>, k: int)
    requires
        0 <= k <= idxs.len(),
        forall|q: int| 0 <= q < idxs.len() ==> (#[trigger] idxs[q] as int) < m.vocab().len(),
    ensures
        m.valid_tokens_from(idxs, k) == toks_of(m, idxs).skip(k),
    decreases idxs.len() - k,
{
    if k == idxs.len() {
        assert(m.valid_tokens_from(idxs, k) =~= toks_of(m, idxs).skip(k));
    } else {
        lemma_valid_tokens_total(m, idxs, k + 1);
        assert(m.valid_tokens_from(idxs, k) =~= toks_of(m, idxs).skip(k)) by {
            assert(m.valid_tokens_from(idxs, k) == seq![m.vocab()[idxs[k] as int]]
                + m.valid_tokens_from(idxs, k + 1));
        }
    }
}

/// With no end-of-sentence token present, decoding is plain concatenation.
proof fn lemma_decode_concat(m: Tokenizer, toks: Seq<Seq<char>>, k: int)
    requires
        0 <= k <= toks.len(),
        forall|q: int| k <= q < toks.len() ==> #[trigger] toks[q] != m.config.eos.value@,
    ensures
        m.decode_tokens(toks, k) == concat_all(toks.skip(k)),
    decreases toks.len() - k,
{
    if k == toks.len() {
        assert(toks.skip(k) =~= Seq::<Seq<char>>::empty());
    } else {
        lemma_decode_concat(m, toks, k + 1);
        assert(toks.skip(k).drop_first() =~= toks.skip(k + 1));
        assert(toks.skip(k)[0] == toks[k]);
        assert(concat_all(toks.skip(k)) == toks[k] + concat_all(toks.skip(k + 1)));
        assert(m.decode_tokens(toks, k) == toks[k] + m.decode_tokens(toks, k + 1));
    }
}

/// When every scalar of the text from `pos` on is in the vocabulary as a
/// single-character token, the encoder always finds a match, every emitted
/// index is valid, and the matched tokens concatenate back to the text.
proof fn lemma_encode_concat(m: Tokenizer, t: Seq<char>, pos: int)
    requires
        m.wf(),
        0 <= pos <= t.len(),
        forall|j: int| pos <= j < t.len() ==> in_vocab(m.vocab(), seq![#[trigger] t[j]]),
    ensures
        forall|k: int|
            0 <= k < m.encode_from(t, pos).len() ==> (#[trigger] m.encode_from(t, pos)[k] as int)
                < m.vocab().len(),
        concat_all(toks_of(m, m.encode_from(t, pos))) == t.skip(pos),
    decreases t.len() - pos,
{
    let enc = m.encode_from(t, pos);
    if pos == t.len() {
        assert(enc =~= Seq::<usize>::empty());
        assert(toks_of(m, enc) =~= Seq::<Seq<char>>::empty());
        assert(t.skip(pos) =~= Seq::<char>::empty());
    } else {
        crate::tokenizer::lemma_best_len(m.vocabulary_trie, t, pos, t.len() - pos);
        let b = crate::tokenizer::best_len(m.vocabulary_trie, t, pos, t.len() - pos);
        assert(in_vocab(m.vocab(), seq![t[pos]]));
        let i1 = choose|i: int| 0 <= i < m.vocab().len() && m.vocab()[i] == seq![t[pos]];
        assert(m.vocabulary_trie.lookup(m.vocab()[i1]) == Some(i1 as usize));
        assert(t.subrange(pos, pos + 1) =~= seq![t[pos]]);
        assert(b is Some) by {
            if b is None {
                assert(m.vocabulary_trie.lookup(t.subrange(pos, pos + 1)) is None);
            }
        }
        let l = b->0;
        assert(1 <= l <= t.len() - pos);
        let idx = m.vocabulary_trie.lookup(t.subrange(pos, pos + l))->0;
        assert((idx as int) < m.vocab().len() && m.vocab()[idx as int] == t.subrange(pos, pos + l));
        assert(enc == seq![idx] + m.encode_from(t, pos + l));
        lemma_encode_concat(m, t, pos + l);
        let enc1 = m.encode_from(t, pos + l);
        assert forall|k: int| 0 <= k < enc.len() implies (#[trigger] enc[k] as int)
            < m.vocab().len() by {
            if k > 0 {
                assert(enc[k] == enc1[k - 1]);
            }
        }
        assert(toks_of(m, enc).drop_first() =~= toks_of(m, enc1));
        assert(toks_of(m, enc)[0] == m.vocab()[idx as int]);
        assert(concat_all(toks_of(m, enc)) == m.vocab()[idx as int] + concat_all(
            toks_of(m, enc1),
        ));
        assert(t.skip(pos) =~= t.subrange(pos, pos + l) + t.skip(pos + l));
    }
}

/// A position at which no vocabulary member begins is encoded as the
/// unknown reserved index, and the scan advances by exactly one scalar.
pub proof fn lemma_unknown_scalar(m: Tokenizer, t: Seq<char>, pos: int)
    requires
        m.wf(),
        0 <= pos < t.len(),
        forall|l: int|
            1 <= l <= t.len() - pos ==> !in_vocab(m.vocab(), #[trigger] t.subrange(pos, pos + l)),
    ensures
        m.encode_from(t, pos) == seq![m.config.unknown.index] + m.encode_from(t, pos + 1),
{
    crate::tokenizer::lemma_best_len(m.vocabulary_trie, t, pos, t.len() - pos);
    match crate::tokenizer::best_len(m.vocabulary_trie, t, pos, t.len() - pos) {
        Some(l) => {
            assert(m.vocabulary_trie.lookup(t.subrange(pos, pos + l)) is Some);
            let idx = m.vocabulary_trie.lookup(t.subrange(pos, pos + l))->0;
            assert(m.vocab()[idx as int] == t.subrange(pos, pos + l));
            assert(in_vocab(m.vocab(), t.subrange(pos, pos + l)));
            assert(false);
        },
        None => {},
    }
}

/// Round trip: when every scalar of the lowercased text is in the
/// vocabulary as a single-character token, and the encoding contains no
/// index of the end-of-sentence token, decoding the encoding returns the
/// lowercased text exactly.
pub proof fn lemma_encode_decode_round_trip(m: Tokenizer, text: Seq<char>)
    requires
        m.wf(),
        forall|j: int|
            0 <= j < lower_seq(text).len() ==> in_vocab(
                m.vocab(),
                seq![#[trigger] lower_seq(text)[j]],
            ),
        forall|k: int|
            0 <= k < m.encode(text).len() ==> m.vocab()[#[trigger] m.encode(text)[k] as int]
                != m.config.eos.value@,
    ensures
        m.decode(m.encode(text)) == lower_seq(text),
{
    let t = lower_seq(text);
    let enc = m.encode(text);
    assert(enc == m.encode_from(t, 0));
    lemma_encode_concat(m, t, 0);
    assert(t.skip(0) =~= t);
    lemma_valid_tokens_total(m, enc, 0);
    let toks = toks_of(m, enc);
    assert(m.valid_tokens_from(enc, 0) == toks.skip(0));
    assert(toks.skip(0) =~= toks);
    assert forall|q: int| 0 <= q < toks.len() implies #[trigger] toks[q]
        != m.config.eos.value@ by {
        assert(toks[q] == m.vocab()[enc[q] as int]);
    }
    lemma_decode_concat(m, toks, 0);
    assert(m.decode(enc) == m.decode_tokens(m.valid_tokens_from(enc, 0), 0));
}

} // verus!
