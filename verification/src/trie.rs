//! A character-keyed prefix tree over the vocabulary. Terminal nodes carry
//! the index of the token they spell, so the trie is at once the
//! longest-prefix matcher and the string-to-index map. Edge keys are stored
//! as the character's scalar value.

use vstd::prelude::*;

verus! {

/// One outgoing edge of a trie node, keyed by a character's scalar value.
pub struct TrieEdge {
    pub key: u32,
    pub node: TrieNode,
}

/// A prefix-tree node. `terminal` holds the index of the token spelled by
/// the path from the root to this node, if that path is a full token.
pub struct TrieNode {
    pub children: Vec<TrieEdge>,
    pub terminal: Option<usize>,
}

/// The first edge keyed `k`, scanning in order.
pub open spec fn first_child(children: Seq<TrieEdge>, k: u32) -> Option<TrieNode>
    decreases children.len(),
{
    if children.len() == 0 {
        None
    } else if children[0].key == k {
        Some(children[0].node)
    } else {
        first_child(children.drop_first(), k)
    }
}

impl TrieNode {
    /// The token index stored for the word `w`, if `w` is in the trie.
    pub open spec fn lookup(self, w: Seq<char>) -> Option<usize>
        decreases w.len(),
    {
        if w.len() == 0 {
            self.terminal
        } else {
            match first_child(self.children@, w[0] as u32) {
                Some(n) => n.lookup(w.drop_first()),
                None => None,
            }
        }
    }

    /// The node reached by walking the path `p`, if the path exists.
    pub open spec fn subtrie(self, p: Seq<char>) -> Option<TrieNode>
        decreases p.len(),
    {
        if p.len() == 0 {
            Some(self)
        } else {
            match first_child(self.children@, p[0] as u32) {
                Some(n) => n.subtrie(p.drop_first()),
                None => None,
            }
        }
    }

    /// An empty trie: no word has an index.
    pub fn new() -> (r: TrieNode)
        ensures
            forall|w: Seq<char>| r.lookup(w) is None,
    {
        let r = TrieNode { children: Vec::new(), terminal: None };
        assert forall|w: Seq<char>| r.lookup(w) is None by {
            if w.len() != 0 {
                assert(first_child(r.children@, w[0] as u32) is None);
            }
        }
        r
    }

    /// The position of the first edge keyed `k`, if any.
    fn find_child(&self, k: u32) -> (r: Option<usize>)
        ensures
            match r {
                Some(j) => j < self.children@.len() && self.children@[j as int].key == k
                    && first_child(self.children@, k) == Some(self.children@[j as int].node)
                    && (forall|i: int| 0 <= i < j ==> self.children@[i].key != k),
                None => first_child(self.children@, k) is None && (forall|i: int|
                    0 <= i < self.children@.len() ==> self.children@[i].key != k),
            },
    {
        let mut j: usize = 0;
        while j < self.children.len()
            invariant
                j <= self.children@.len(),
                forall|i: int| 0 <= i < j ==> self.children@[i].key != k,
            decreases self.children@.len() - j,
        {
            if self.children[j].key == k {
                proof {
                    lemma_first_child_found(self.children@, k, j as int);
                }
                return Some(j);
            }
            j += 1;
        }
        proof {
            lemma_first_child_none(self.children@, k);
        }
        None
    }

    /// Record `word` in the trie with token index `index`. Every other
    /// word keeps the index it had.
    pub fn insert(&mut self, word: &str, index: usize)
        ensures
            forall|x: Seq<char>|
                final(self).lookup(x) == (if x == word@ {
                    Some(index)
                } else {
                    old(self).lookup(x)
                }),
    {
        let w = crate::text::str_to_chars(word);
        self.insert_at(&w, 0, index);
        proof {
            assert(w@.skip(0) =~= word@);
        }
    }

    /// Record the suffix `w[i..]` below this node.
    fn insert_at(&mut self, w: &Vec<char>, i: usize, index: usize)
        requires
            i <= w@.len(),
        ensures
            forall|x: Seq<char>|
                final(self).lookup(x) == (if x == w@.skip(i as int) {
                    Some(index)
                } else {
                    old(self).lookup(x)
                }),
        decreases w@.len() - i,
    {
        if i == w.len() {
            self.terminal = Some(index);
            assert forall|x: Seq<char>|
                self.lookup(x) == (if x == w@.skip(i as int) {
                    Some(index)
                } else {
                    old(self).lookup(x)
                }) by {
                if x.len() == 0 {
                    assert(x =~= w@.skip(i as int));
                } else {
                    assert(self.children@ == old(self).children@);
                    assert(x != w@.skip(i as int));
                    assert(self.lookup(x) == old(self).lookup(x));
                }
            }
        } else {
            let c = w[i];
            let k = c as u32;
            let ghost tail = w@.skip(i as int);
            proof {
                assert(tail[0] == c);
                assert(tail.drop_first() =~= w@.skip(i + 1));
            }
            match self.find_child(k) {
                Some(j) => {
                    let ghost old_children = self.children@;
                    let mut edge = self.children.remove(j);
                    let ghost old_node = edge.node;
                    edge.node.insert_at(w, i + 1, index);
                    let ghost new_node = edge.node;
                    self.children.insert(j, edge);
                    proof {
                        assert(self.children@ =~= old_children.update(
                            j as int,
                            TrieEdge { key: old_children[j as int].key, node: new_node },
                        ));
                        assert forall|x: Seq<char>|
                            self.lookup(x) == (if x == w@.skip(i as int) {
                                Some(index)
                            } else {
                                old(self).lookup(x)
                            }) by {
                            if x.len() == 0 {
                                assert(x != w@.skip(i as int));
                            } else if x[0] as u32 == k {
                                lemma_char_cast_injective(x[0], c);
                                assert(x[0] == c);
                                lemma_first_child_update(old_children, j as int, new_node, k);
                                assert(first_child(self.children@, x[0] as u32) == Some(new_node));
                                assert(first_child(old_children, x[0] as u32) == Some(old_node));
                                assert(new_node.lookup(x.drop_first()) == (if x.drop_first()
                                    == w@.skip(i + 1) {
                                    Some(index)
                                } else {
                                    old_node.lookup(x.drop_first())
                                }));
                                if x == w@.skip(i as int) {
                                    assert(x.drop_first() =~= w@.skip(i + 1));
                                } else {
                                    assert(x.drop_first() != w@.skip(i + 1)) by {
                                        if x.drop_first() == w@.skip(i + 1) {
                                            assert(x =~= seq![x[0]] + x.drop_first());
                                            assert(tail =~= seq![tail[0]] + tail.drop_first());
                                            assert(x =~= w@.skip(i as int));
                                        }
                                    }
                                }
                            } else {
                                lemma_first_child_update(
                                    old_children,
                                    j as int,
                                    new_node,
                                    x[0] as u32,
                                );
                                assert(first_child(self.children@, x[0] as u32) == first_child(
                                    old_children,
                                    x[0] as u32,
                                ));
                                assert(x != w@.skip(i as int)) by {
                                    if x == w@.skip(i as int) {
                                        assert(x[0] == c);
                                    }
                                }
                            }
                        }
                    }
                },
                None => {
                    let ghost old_children = self.children@;
                    let tail_node = TrieNode::make_chain(w, i + 1, index);
                    let ghost tn = tail_node;
                    self.children.push(TrieEdge { key: k, node: tail_node });
                    proof {
                        let e = TrieEdge { key: k, node: tn };
                        assert(self.children@ =~= old_children.push(e));
                        assert forall|x: Seq<char>|
                            self.lookup(x) == (if x == w@.skip(i as int) {
                                Some(index)
                            } else {
                                old(self).lookup(x)
                            }) by {
                            if x.len() == 0 {
                                assert(x != w@.skip(i as int));
                            } else if x[0] as u32 == k {
                                lemma_char_cast_injective(x[0], c);
                                assert(x[0] == c);
                                lemma_first_child_push(old_children, e, k);
                                assert(first_child(old_children, x[0] as u32) is None);
                                assert(first_child(self.children@, x[0] as u32) == Some(tn));
                                assert(old(self).lookup(x) is None);
                                assert(tn.lookup(x.drop_first()) == (if x.drop_first() == w@.skip(
                                    i + 1,
                                ) {
                                    Some(index)
                                } else {
                                    None::<usize>
                                }));
                                if x == w@.skip(i as int) {
                                    assert(x.drop_first() =~= w@.skip(i + 1));
                                } else {
                                    assert(x.drop_first() != w@.skip(i + 1)) by {
                                        if x.drop_first() == w@.skip(i + 1) {
                                            assert(x =~= seq![x[0]] + x.drop_first());
                                            assert(tail =~= seq![tail[0]] + tail.drop_first());
                                            assert(x =~= w@.skip(i as int));
                                        }
                                    }
                                }
                            } else {
                                lemma_first_child_push(old_children, e, x[0] as u32);
                                assert(first_child(self.children@, x[0] as u32) == first_child(
                                    old_children,
                                    x[0] as u32,
                                ));
                                assert(x != w@.skip(i as int)) by {
                                    if x == w@.skip(i as int) {
                                        assert(x[0] == c);
                                    }
                                }
                            }
                        }
                    }
                },
            }
        }
    }

    /// A fresh chain of nodes spelling `w[i..]`, ending in a terminal
    /// carrying `index`. No other word is present.
    fn make_chain(w: &Vec<char>, i: usize, index: usize) -> (r: TrieNode)
        requires
            i <= w@.len(),
        ensures
            forall|x: Seq<char>|
                r.lookup(x) == (if x == w@.skip(i as int) {
                    Some(index)
                } else {
                    None::<usize>
                }),
        decreases w@.len() - i,
    {
        if i == w.len() {
            let r = TrieNode { children: Vec::new(), terminal: Some(index) };
            assert forall|x: Seq<char>|
                r.lookup(x) == (if x == w@.skip(i as int) {
                    Some(index)
                } else {
                    None::<usize>
                }) by {
                if x.len() == 0 {
                    assert(x =~= w@.skip(i as int));
                } else {
                    assert(x != w@.skip(i as int));
                    assert(first_child(r.children@, x[0] as u32) is None);
                }
            }
            r
        } else {
            let c = w[i];
            let k = c as u32;
            let tail_node = TrieNode::make_chain(w, i + 1, index);
            let ghost tn = tail_node;
            let mut ch: Vec<TrieEdge> = Vec::new();
            ch.push(TrieEdge { key: k, node: tail_node });
            let r = TrieNode { children: ch, terminal: None };
            assert forall|x: Seq<char>|
                r.lookup(x) == (if x == w@.skip(i as int) {
                    Some(index)
                } else {
                    None::<usize>
                }) by {
                let tail = w@.skip(i as int);
                assert(tail.len() > 0);
                assert(tail[0] == c);
                assert(tail.drop_first() =~= w@.skip(i + 1));
                assert(r.children@.len() == 1);
                assert(r.children@[0] == TrieEdge { key: k, node: tn });
                if x.len() == 0 {
                    assert(x != tail);
                    assert(r.lookup(x) is None);
                } else if x[0] as u32 == k {
                    lemma_char_cast_injective(x[0], c);
                    assert(x[0] == c);
                    assert(first_child(r.children@, x[0] as u32) == Some(tn));
                    assert(r.lookup(x) == tn.lookup(x.drop_first()));
                    if x == tail {
                        assert(x.drop_first() =~= w@.skip(i + 1));
                    } else {
                        assert(x.drop_first() != w@.skip(i + 1)) by {
                            if x.drop_first() == w@.skip(i + 1) {
                                assert(x =~= seq![x[0]] + x.drop_first());
                                assert(tail =~= seq![tail[0]] + tail.drop_first());
                                assert(x =~= tail);
                            }
                        }
                    }
                } else {
                    assert(x != tail) by {
                        if x == tail {
                            assert(x[0] == c);
                        }
                    }
                    assert(r.children@.drop_first() =~= Seq::<TrieEdge>::empty());
                    assert(first_child(r.children@.drop_first(), x[0] as u32) is None);
                    assert(first_child(r.children@, x[0] as u32) is None);
                    assert(r.lookup(x) is None);
                }
            }
            r
        }
    }

    /// The token index stored for exactly the word `w`, if any.
    pub fn get(&self, w: &Vec<char>) -> (r: Option<usize>)
        ensures
            r == self.lookup(w@),
    {
        let mut cur: &TrieNode = self;
        let mut i: usize = 0;
        loop
            invariant
                i <= w@.len(),
                self.subtrie(w@.subrange(0, i as int)) == Some(*cur),
            decreases w@.len() - i,
        {
            if i >= w.len() {
                proof {
                    assert(w@.subrange(0, i as int) =~= w@);
                    self.lemma_lookup_subtrie(w@);
                }
                return cur.terminal;
            }
            let c = w[i];
            let ghost p = w@.subrange(0, i as int);
            proof {
                assert(p.push(c) =~= w@.subrange(0, i + 1));
                self.lemma_subtrie_snoc(p, c);
            }
            match cur.find_child(c as u32) {
                Some(j) => {
                    cur = &cur.children[j].node;
                    i += 1;
                },
                None => {
                    proof {
                        let p1 = p.push(c);
                        assert(self.subtrie(p1) is None);
                        assert(w@ =~= p1 + w@.subrange(i + 1, w@.len() as int));
                        self.lemma_subtrie_concat(p1, w@.subrange(i + 1, w@.len() as int));
                        self.lemma_lookup_subtrie(w@);
                    }
                    return None;
                },
            }
        }
    }

    /// The longest vocabulary member that is a prefix of `text[from..]`,
    /// as its character length and its token index. `None` when no member
    /// of length at least one is such a prefix.
    pub fn find_longest_prefix(&self, text: &Vec<char>, from: usize) -> (r: Option<(usize, usize)>)
        requires
            from <= text@.len(),
        ensures
            match r {
                Some(m) => 1 <= m.0 <= text@.len() - from && self.lookup(
                    text@.subrange(from as int, from + m.0),
                ) == Some(m.1) && (forall|l: int|
                    m.0 < l <= text@.len() - from ==> #[trigger] self.lookup(
                        text@.subrange(from as int, from as int + l),
                    ) is None),
                None => forall|l: int|
                    1 <= l <= text@.len() - from ==> #[trigger] self.lookup(
                        text@.subrange(from as int, from as int + l),
                    ) is None,
            },
    {
        let mut best: Option<(usize, usize)> = None;
        let mut cur: &TrieNode = self;
        let mut k: usize = from;
        loop
            invariant
                from <= k <= text@.len(),
                self.subtrie(text@.subrange(from as int, k as int)) == Some(*cur),
                match best {
                    None => forall|l: int|
                        1 <= l <= k - from ==> #[trigger] self.lookup(
                            text@.subrange(from as int, from as int + l),
                        ) is None,
                    Some(m) => 1 <= m.0 <= k - from && self.lookup(
                        text@.subrange(from as int, from + m.0),
                    ) == Some(m.1) && (forall|l: int|
                        m.0 < l <= k - from ==> #[trigger] self.lookup(
                            text@.subrange(from as int, from as int + l),
                        ) is None),
                },
            decreases text@.len() - k,
        {
            if k >= text.len() {
                return best;
            }
            let c = text[k];
            let ghost p = text@.subrange(from as int, k as int);
            proof {
                assert(p.push(c) =~= text@.subrange(from as int, k + 1));
                self.lemma_subtrie_snoc(p, c);
            }
            match cur.find_child(c as u32) {
                Some(j) => {
                    cur = &cur.children[j].node;
                    k += 1;
                    proof {
                        let p1 = text@.subrange(from as int, k as int);
                        self.lemma_lookup_subtrie(p1);
                    }
                    if let Some(idx) = cur.terminal {
                        best = Some((k - from, idx));
                    }
                },
                None => {
                    proof {
                        let p1 = p.push(c);
                        assert(self.subtrie(p1) is None);
                        assert forall|l: int| k - from < l <= text@.len()
                            - from implies #[trigger] self.lookup(
                            text@.subrange(from as int, from as int + l),
                        ) is None by {
                            let q = text@.subrange(from as int, from as int + l);
                            assert(q =~= p1 + text@.subrange(k + 1, from as int + l));
                            self.lemma_subtrie_concat(p1, text@.subrange(k + 1, from as int + l));
                            self.lemma_lookup_subtrie(q);
                        }
                    }
                    return best;
                },
            }
        }
    }

    /// Walking `p` and then `q` is walking `p + q`.
    proof fn lemma_subtrie_concat(self, p: Seq<char>, q: Seq<char>)
        ensures
            self.subtrie(p + q) == (match self.subtrie(p) {
                Some(n) => n.subtrie(q),
                None => None,
            }),
        decreases p.len(),
    {
        if p.len() == 0 {
            assert(p + q =~= q);
        } else {
            assert((p + q)[0] == p[0]);
            match first_child(self.children@, p[0] as u32) {
                Some(n) => {
                    assert((p + q).drop_first() =~= p.drop_first() + q);
                    n.lemma_subtrie_concat(p.drop_first(), q);
                },
                None => {
                    assert((p + q).len() > 0);
                },
            }
        }
    }

    /// Walking one more character steps through `first_child`.
    proof fn lemma_subtrie_snoc(self, p: Seq<char>, c: char)
        ensures
            self.subtrie(p.push(c)) == (match self.subtrie(p) {
                Some(n) => first_child(n.children@, c as u32),
                None => None,
            }),
    {
        assert(p.push(c) =~= p + seq![c]);
        self.lemma_subtrie_concat(p, seq![c]);
        match self.subtrie(p) {
            Some(n) => {
                let q = seq![c];
                assert(q[0] == c);
                assert(q.drop_first() =~= Seq::<char>::empty());
                match first_child(n.children@, c as u32) {
                    Some(m) => {
                        assert(n.subtrie(q) == m.subtrie(q.drop_first()));
                        assert(m.subtrie(q.drop_first()) == Some(m));
                    },
                    None => {
                        assert(n.subtrie(q) is None);
                    },
                }
            },
            None => {},
        }
    }

    /// A word's index is the terminal payload at the end of its path.
    proof fn lemma_lookup_subtrie(self, p: Seq<char>)
        ensures
            self.lookup(p) == (match self.subtrie(p) {
                Some(n) => n.terminal,
                None => None,
            }),
        decreases p.len(),
    {
        if p.len() == 0 {
        } else {
            match first_child(self.children@, p[0] as u32) {
                Some(n) => {
                    n.lemma_lookup_subtrie(p.drop_first());
                },
                None => {},
            }
        }
    }
}

/// Two characters with the same scalar value are the same character.
proof fn lemma_char_cast_injective(a: char, b: char)
    requires
        a as u32 == b as u32,
    ensures
        a == b,
{
}

/// If `j` is the first position keyed `k`, the scan stops there.
proof fn lemma_first_child_found(children: Seq<TrieEdge>, k: u32, j: int)
    requires
        0 <= j < children.len(),
        children[j].key == k,
        forall|i: int| 0 <= i < j ==> children[i].key != k,
    ensures
        first_child(children, k) == Some(children[j].node),
    decreases j,
{
    if j == 0 {
    } else {
        assert(children[0].key != k);
        lemma_first_child_found(children.drop_first(), k, j - 1);
        assert(children.drop_first()[j - 1] == children[j]);
    }
}

/// If no edge is keyed `k`, the scan finds nothing.
proof fn lemma_first_child_none(children: Seq<TrieEdge>, k: u32)
    requires
        forall|i: int| 0 <= i < children.len() ==> children[i].key != k,
    ensures
        first_child(children, k) is None,
    decreases children.len(),
{
    if children.len() == 0 {
    } else {
        assert forall|i: int| 0 <= i < children.drop_first().len() implies children.drop_first(
        )[i].key != k by {
            assert(children.drop_first()[i] == children[i + 1]);
        }
        lemma_first_child_none(children.drop_first(), k);
    }
}

/// Replacing the node of the first edge with a given key changes the scan
/// result for that key alone.
proof fn lemma_first_child_update(children: Seq<TrieEdge>, j: int, n: TrieNode, k: u32)
    requires
        0 <= j < children.len(),
        forall|i: int| 0 <= i < j ==> children[i].key != children[j].key,
    ensures
        first_child(children.update(j, TrieEdge { key: children[j].key, node: n }), k) == (
        if k == children[j].key {
            Some(n)
        } else {
            first_child(children, k)
        }),
    decreases j,
{
    let e = TrieEdge { key: children[j].key, node: n };
    let updated = children.update(j, e);
    if j == 0 {
        assert(updated[0] == e);
        if k != children[0].key {
            assert(updated.drop_first() =~= children.drop_first());
        }
    } else {
        assert forall|i: int| 0 <= i < j - 1 implies #[trigger] children.drop_first()[i].key
            != children.drop_first()[j - 1].key by {
            assert(children.drop_first()[i] == children[i + 1]);
            assert(children.drop_first()[j - 1] == children[j]);
        }
        assert(children.drop_first()[j - 1] == children[j]);
        lemma_first_child_update(children.drop_first(), j - 1, n, k);
        assert(updated[0] == children[0]);
        assert(updated.drop_first() =~= children.drop_first().update(
            j - 1,
            TrieEdge { key: children.drop_first()[j - 1].key, node: n },
        ));
        if k == children[0].key {
            assert(k != children[j].key);
        }
    }
}

/// Appending an edge leaves existing scan results in place and adds a
/// result only for a key that was absent.
proof fn lemma_first_child_push(children: Seq<TrieEdge>, e: TrieEdge, k: u32)
    ensures
        first_child(children.push(e), k) == (if first_child(children, k) is Some {
            first_child(children, k)
        } else if e.key == k {
            Some(e.node)
        } else {
            None
        }),
    decreases children.len(),
{
    let pushed = children.push(e);
    if children.len() == 0 {
        assert(pushed.len() == 1);
        assert(pushed[0] == e);
        assert(first_child(children, k) is None);
        if e.key == k {
            assert(first_child(pushed, k) == Some(e.node));
        } else {
            assert(pushed.drop_first() =~= Seq::<TrieEdge>::empty());
            assert(first_child(pushed.drop_first(), k) is None);
            assert(first_child(pushed, k) is None);
        }
    } else {
        lemma_first_child_push(children.drop_first(), e, k);
        assert(pushed[0] == children[0]);
        assert(pushed.drop_first() =~= children.drop_first().push(e));
        if children[0].key == k {
            assert(first_child(pushed, k) == Some(children[0].node));
            assert(first_child(children, k) == Some(children[0].node));
        } else {
            assert(first_child(pushed, k) == first_child(pushed.drop_first(), k));
            assert(first_child(children, k) == first_child(children.drop_first(), k));
        }
    }
}

} // verus!
