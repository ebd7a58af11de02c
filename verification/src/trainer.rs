//! The BPE training loop: build the initial symbol stream from a corpus,
//! then repeatedly count adjacent pairs, pick a most frequent pair, promote
//! its concatenation to a new token, and rewrite the stream.

use vstd::prelude::*;

use crate::token_config::TokenConfig;
use crate::token_config::reserved_values;
use crate::token_config::slot_count;
use crate::tokenizer::Tokenizer;
use crate::tokenizer::in_vocab;
use crate::tokenizer::rule_ok;
use crate::text::is_space;
use crate::text::lower_char;
use crate::BpeError;

verus! {

/// How many adjacent positions of `s` hold the pair `(a, b)`.
pub open spec fn pair_count(s: Seq<usize>, a: usize, b: usize) -> nat
    decreases s.len(),
{
    if s.len() < 2 {
        0
    } else {
        (if s[0] == a && s[1] == b {
            1nat
        } else {
            0nat
        }) + pair_count(s.drop_first(), a, b)
    }
}

/// Appending one element adds exactly the window that ends at it.
pub proof fn lemma_pair_count_push(u: Seq<usize>, v: usize, a: usize, b: usize)
    ensures
        pair_count(u.push(v), a, b) == pair_count(u, a, b) + (if u.len() >= 1 && u.last() == a && v
            == b {
            1nat
        } else {
            0nat
        }),
    decreases u.len(),
{
    let p = u.push(v);
    if u.len() == 0 {
        assert(p.len() == 1);
    } else if u.len() == 1 {
        assert(p.len() == 2);
        assert(p[0] == u[0]);
        assert(p[1] == v);
        assert(p.drop_first() =~= seq![v]);
        assert(pair_count(p.drop_first(), a, b) == 0);
    } else {
        assert(p[0] == u[0]);
        assert(p[1] == u[1]);
        assert(p.drop_first() =~= u.drop_first().push(v));
        lemma_pair_count_push(u.drop_first(), v, a, b);
        assert(u.drop_first().last() == u.last());
    }
}

/// A pair's count is below the stream's length.
pub proof fn lemma_pair_count_bound(s: Seq<usize>, a: usize, b: usize)
    ensures
        pair_count(s, a, b) <= s.len(),
    decreases s.len(),
{
    if s.len() >= 2 {
        lemma_pair_count_bound(s.drop_first(), a, b);
    }
}

/// A counted pair occurs somewhere in the stream.
pub proof fn lemma_pair_occurs(s: Seq<usize>, a: usize, b: usize)
    requires
        pair_count(s, a, b) >= 1,
    ensures
        exists|i: int| 0 <= i < s.len() - 1 && #[trigger] s[i] == a && s[i + 1] == b,
    decreases s.len(),
{
    if s.len() >= 2 {
        if s[0] == a && s[1] == b {
            assert(s[0int] == a && s[0int + 1] == b);
        } else {
            lemma_pair_occurs(s.drop_first(), a, b);
            let i = choose|i: int|
                0 <= i < s.drop_first().len() - 1 && #[trigger] s.drop_first()[i] == a
                    && s.drop_first()[i + 1] == b;
            assert(s[i + 1] == a && s[i + 2] == b);
        }
    }
}

/// One left-to-right non-overlapping rewrite pass: every adjacent `(f, s)`
/// becomes `nw`, and the scan resumes after the pair.
pub open spec fn merge_seq(s: Seq<usize>, f: usize, sec: usize, nw: usize) -> Seq<usize>
    decreases s.len(),
{
    if s.len() == 0 {
        Seq::empty()
    } else if s.len() >= 2 && s[0] == f && s[1] == sec {
        seq![nw] + merge_seq(s.skip(2), f, sec, nw)
    } else {
        seq![s[0]] + merge_seq(s.skip(1), f, sec, nw)
    }
}

/// How many merges the rewrite pass performs.
pub open spec fn merge_count(s: Seq<usize>, f: usize, sec: usize) -> nat
    decreases s.len(),
{
    if s.len() == 0 {
        0
    } else if s.len() >= 2 && s[0] == f && s[1] == sec {
        1 + merge_count(s.skip(2), f, sec)
    } else {
        merge_count(s.skip(1), f, sec)
    }
}

/// The rewrite shortens the stream by exactly the number of merges.
pub proof fn lemma_merge_len(s: Seq<usize>, f: usize, sec: usize, nw: usize)
    ensures
        merge_seq(s, f, sec, nw).len() + merge_count(s, f, sec) == s.len(),
    decreases s.len(),
{
    if s.len() == 0 {
    } else if s.len() >= 2 && s[0] == f && s[1] == sec {
        lemma_merge_len(s.skip(2), f, sec, nw);
    } else {
        lemma_merge_len(s.skip(1), f, sec, nw);
    }
}

/// Where the pair occurs at all, the rewrite merges at least once.
pub proof fn lemma_merge_count_pos(s: Seq<usize>, f: usize, sec: usize)
    requires
        pair_count(s, f, sec) >= 1,
    ensures
        merge_count(s, f, sec) >= 1,
    decreases s.len(),
{
    if s.len() >= 2 {
        if s[0] == f && s[1] == sec {
        } else {
            assert(s.drop_first() =~= s.skip(1));
            lemma_merge_count_pos(s.skip(1), f, sec);
        }
    }
}

/// The rewrite never merges across a boundary whose left part does not
/// end in `f`: the pass over a concatenation is the concatenation of the
/// passes.
pub proof fn lemma_merge_split(p: Seq<usize>, q: Seq<usize>, f: usize, sec: usize, nw: usize)
    requires
        p.len() == 0 || p.last() != f,
    ensures
        merge_seq(p + q, f, sec, nw) == merge_seq(p, f, sec, nw) + merge_seq(q, f, sec, nw),
    decreases p.len(),
{
    if p.len() == 0 {
        assert(p + q =~= q);
        assert(merge_seq(p, f, sec, nw) =~= Seq::<usize>::empty());
        assert(merge_seq(p, f, sec, nw) + merge_seq(q, f, sec, nw) =~= merge_seq(q, f, sec, nw));
    } else if p.len() >= 2 && p[0] == f && p[1] == sec {
        assert((p + q)[0] == p[0] && (p + q)[1] == p[1]);
        assert((p + q).skip(2) =~= p.skip(2) + q);
        assert(p.skip(2).len() == 0 || p.skip(2).last() == p.last());
        lemma_merge_split(p.skip(2), q, f, sec, nw);
        assert(merge_seq(p + q, f, sec, nw) == seq![nw] + (merge_seq(p.skip(2), f, sec, nw)
            + merge_seq(q, f, sec, nw)));
        assert(merge_seq(p, f, sec, nw) == seq![nw] + merge_seq(p.skip(2), f, sec, nw));
        assert(seq![nw] + (merge_seq(p.skip(2), f, sec, nw) + merge_seq(q, f, sec, nw)) =~= (seq![
            nw,
        ] + merge_seq(p.skip(2), f, sec, nw)) + merge_seq(q, f, sec, nw));
    } else {
        assert((p + q)[0] == p[0]);
        if p.len() == 1 {
            assert(p[0] == p.last());
        }
        assert(!((p + q).len() >= 2 && (p + q)[0] == f && (p + q)[1] == sec)) by {
            if p.len() >= 2 {
                assert((p + q)[1] == p[1]);
            } else {
                assert(p[0] != f);
            }
        }
        assert((p + q).skip(1) =~= p.skip(1) + q);
        assert(p.skip(1).len() == 0 || p.skip(1).last() == p.last());
        lemma_merge_split(p.skip(1), q, f, sec, nw);
        assert(merge_seq(p + q, f, sec, nw) == seq![p[0]] + (merge_seq(p.skip(1), f, sec, nw)
            + merge_seq(q, f, sec, nw)));
        assert(merge_seq(p, f, sec, nw) == seq![p[0]] + merge_seq(p.skip(1), f, sec, nw));
        assert(seq![p[0]] + (merge_seq(p.skip(1), f, sec, nw) + merge_seq(q, f, sec, nw)) =~= (seq![
            p[0],
        ] + merge_seq(p.skip(1), f, sec, nw)) + merge_seq(q, f, sec, nw));
    }
}

/// An `(f, s, s)` triple merges exactly once, anywhere in the stream: the
/// pair becomes the merged index and the trailing `s` survives unchanged,
/// provided the part before the triple does not end in `f` and `s != f`.
pub proof fn lemma_merge_triple(p: Seq<usize>, rest: Seq<usize>, f: usize, sec: usize, nw: usize)
    requires
        p.len() == 0 || p.last() != f,
        sec != f,
    ensures
        merge_seq(p + seq![f, sec, sec] + rest, f, sec, nw) == merge_seq(p, f, sec, nw) + seq![
            nw,
            sec,
        ] + merge_seq(rest, f, sec, nw),
{
    let mid = seq![f, sec, sec];
    assert(p + mid + rest =~= p + (mid + rest));
    lemma_merge_split(p, mid + rest, f, sec, nw);
    assert((mid + rest).len() >= 2 && (mid + rest)[0] == f && (mid + rest)[1] == sec);
    assert((mid + rest).skip(2) =~= seq![sec] + rest);
    assert((seq![sec] + rest)[0] == sec);
    assert(!((seq![sec] + rest).len() >= 2 && (seq![sec] + rest)[0] == f));
    assert((seq![sec] + rest).skip(1) =~= rest);
    assert(merge_seq(seq![sec] + rest, f, sec, nw) == seq![sec] + merge_seq(rest, f, sec, nw));
    assert(merge_seq(mid + rest, f, sec, nw) == seq![nw] + (seq![sec] + merge_seq(
        rest,
        f,
        sec,
        nw,
    )));
    assert(merge_seq(p, f, sec, nw) + (seq![nw] + (seq![sec] + merge_seq(rest, f, sec, nw)))
        =~= merge_seq(p, f, sec, nw) + seq![nw, sec] + merge_seq(rest, f, sec, nw));
}

/// The rewrite emits only `nw` and elements of the input stream.
pub proof fn lemma_merge_bound(s: Seq<usize>, f: usize, sec: usize, nw: usize, bound: int)
    requires
        forall|i: int| 0 <= i < s.len() ==> (#[trigger] s[i] as int) < bound,
        (nw as int) < bound,
    ensures
        forall|i: int|
            0 <= i < merge_seq(s, f, sec, nw).len() ==> (#[trigger] merge_seq(s, f, sec, nw)[i]
                as int) < bound,
    decreases s.len(),
{
    let m = merge_seq(s, f, sec, nw);
    if s.len() == 0 {
    } else if s.len() >= 2 && s[0] == f && s[1] == sec {
        assert(forall|i: int|
            0 <= i < s.skip(2).len() ==> (#[trigger] s.skip(2)[i] as int) < bound);
        lemma_merge_bound(s.skip(2), f, sec, nw, bound);
        assert forall|i: int| 0 <= i < m.len() implies (#[trigger] m[i] as int) < bound by {
            assert(m == seq![nw] + merge_seq(s.skip(2), f, sec, nw));
            if i > 0 {
                assert(m[i] == merge_seq(s.skip(2), f, sec, nw)[i - 1]);
            }
        }
    } else {
        assert(forall|i: int|
            0 <= i < s.skip(1).len() ==> (#[trigger] s.skip(1)[i] as int) < bound);
        lemma_merge_bound(s.skip(1), f, sec, nw, bound);
        assert forall|i: int| 0 <= i < m.len() implies (#[trigger] m[i] as int) < bound by {
            assert(m == seq![s[0]] + merge_seq(s.skip(1), f, sec, nw));
            if i > 0 {
                assert(m[i] == merge_seq(s.skip(1), f, sec, nw)[i - 1]);
            }
        }
    }
}

/// Count every adjacent pair of `stream`. The result maps each pair that
/// occurs to its exact count, with no duplicate keys.
#[verifier::loop_isolation(false)]
pub fn count_pairs(stream: &Vec<usize>) -> (r: Vec<(usize, usize, usize)>)
    ensures
        forall|k1: int, k2: int|
            0 <= k1 < k2 < r@.len() ==> !(r@[k1].0 == r@[k2].0 && r@[k1].1 == r@[k2].1),
        forall|k: int|
            0 <= k < r@.len() ==> (#[trigger] r@[k].2) as nat == pair_count(
                stream@,
                r@[k].0,
                r@[k].1,
            ) && r@[k].2 >= 1,
        forall|a: usize, b: usize|
            #[trigger] pair_count(stream@, a, b) >= 1 ==> exists|k: int|
                0 <= k < r@.len() && (#[trigger] r@[k]).0 == a && r@[k].1 == b,
{
    let ghost s = stream@;
    let mut counts: Vec<(usize, usize, usize)> = Vec::new();
    if stream.len() < 2 {
        proof {
            assert forall|a: usize, b: usize| #[trigger] pair_count(s, a, b) < 1 by {}
        }
        return counts;
    }
    let mut i: usize = 0;
    while i < stream.len() - 1
        invariant
            i + 1 <= s.len(),
            forall|k1: int, k2: int|
                0 <= k1 < k2 < counts@.len() ==> !(counts@[k1].0 == counts@[k2].0 && counts@[k1].1
                    == counts@[k2].1),
            forall|k: int|
                0 <= k < counts@.len() ==> (#[trigger] counts@[k].2) as nat == pair_count(
                    s.take(i + 1),
                    counts@[k].0,
                    counts@[k].1,
                ) && counts@[k].2 >= 1,
            forall|a: usize, b: usize|
                #[trigger] pair_count(s.take(i + 1), a, b) >= 1 ==> exists|k: int|
                    0 <= k < counts@.len() && (#[trigger] counts@[k]).0 == a && counts@[k].1 == b,
        decreases s.len() - i,
    {
        let a = stream[i];
        let b = stream[i + 1];
        let ghost pre = counts@;
        let ghost n = i + 1;
        proof {
            assert(s.take(n + 1) =~= s.take(n).push(s[n as int]));
            assert(s.take(n)[n - 1] == s[n - 1]);
            assert(s.take(n).last() == a);
            assert forall|x: usize, y: usize|
                #[trigger] pair_count(s.take(n + 1), x, y) == pair_count(s.take(n), x, y) + (if x
                    == a && y == b {
                    1nat
                } else {
                    0nat
                }) by {
                lemma_pair_count_push(s.take(n), s[n as int], x, y);
            }
        }
        let mut j: usize = 0;
        let mut found = false;
        while !found && j < counts.len()
            invariant
                j <= counts@.len(),
                !found ==> forall|k: int|
                    0 <= k < j ==> !((#[trigger] counts@[k]).0 == a && counts@[k].1 == b),
                found ==> counts@.len() == pre.len() && j < counts@.len() && counts@[j as int].0
                    == a && counts@[j as int].1 == b && counts@[j as int].2 as nat == pair_count(
                    s.take(i + 2),
                    a,
                    b,
                ) && (forall|k: int| 0 <= k < counts@.len() && k != j ==> counts@[k] == pre[k])
                    && counts@[j as int].0 == pre[j as int].0 && counts@[j as int].1
                    == pre[j as int].1,
                !found ==> counts@ == pre,
                counts@.len() == pre.len(),
            decreases (if found {
                0int
            } else {
                counts@.len() - j + 1
            }),
    {
            if counts[j].0 == a && counts[j].1 == b {
                let e = counts[j];
                proof {
                    lemma_pair_count_bound(s.take(i + 1), a, b);
                }
                counts[j] = (e.0, e.1, e.2 + 1);
                found = true;
            } else {
                j += 1;
            }
        }
        if !found {
            proof {
                assert(pair_count(s.take(i + 1), a, b) == 0) by {
                    if pair_count(s.take(i + 1), a, b) >= 1 {
                        let k = choose|k: int|
                            0 <= k < counts@.len() && (#[trigger] counts@[k]).0 == a
                                && counts@[k].1 == b;
                        assert(false);
                    }
                }
            }
            counts.push((a, b, 1));
        }
        proof {
            if found {
                let j = choose|j: int|
                    0 <= j < counts@.len() && (#[trigger] counts@[j]).0 == a && counts@[j].1 == b
                        && counts@[j].2 as nat == pair_count(s.take(i + 2), a, b) && (forall|
                        k: int,
                    |
                        0 <= k < counts@.len() && k != j ==> counts@[k] == pre[k]) && pre[j].0 == a
                        && pre[j].1 == b;
                assert forall|k1: int, k2: int| 0 <= k1 < k2 < counts@.len() implies !(
                counts@[k1].0 == counts@[k2].0 && counts@[k1].1 == counts@[k2].1) by {
                    assert(counts@[k1].0 == pre[k1].0 && counts@[k1].1 == pre[k1].1);
                    assert(counts@[k2].0 == pre[k2].0 && counts@[k2].1 == pre[k2].1);
                }
                assert forall|k: int| 0 <= k < counts@.len() implies (#[trigger] counts@[k].2)
                    as nat == pair_count(s.take(i + 2), counts@[k].0, counts@[k].1)
                    && counts@[k].2 >= 1 by {
                    if k != j {
                        assert(counts@[k] == pre[k]);
                        assert(!(pre[k].0 == a && pre[k].1 == b));
                        assert(pair_count(s.take(i + 2), pre[k].0, pre[k].1) == pair_count(
                            s.take(i + 1),
                            pre[k].0,
                            pre[k].1,
                        ));
                    }
                }
            } else {
                assert(counts@ == pre.push((a, b, 1usize)));
                assert forall|k1: int, k2: int| 0 <= k1 < k2 < counts@.len() implies !(
                counts@[k1].0 == counts@[k2].0 && counts@[k1].1 == counts@[k2].1) by {
                    assert(counts@[k1] == pre[k1]);
                    if k2 == counts@.len() - 1 {
                        assert(counts@[k2].0 == a && counts@[k2].1 == b);
                        assert(!(pre[k1].0 == a && pre[k1].1 == b));
                    } else {
                        assert(counts@[k2] == pre[k2]);
                    }
                }
                assert forall|k: int| 0 <= k < counts@.len() implies (#[trigger] counts@[k].2)
                    as nat == pair_count(s.take(i + 2), counts@[k].0, counts@[k].1)
                    && counts@[k].2 >= 1 by {
                    if k == counts@.len() - 1 {
                        assert(counts@[k].0 == a && counts@[k].1 == b && counts@[k].2 == 1);
                        assert(pair_count(s.take(i + 2), a, b) == pair_count(s.take(i + 1), a, b)
                            + 1);
                    } else {
                        assert(counts@[k] == pre[k]);
                        assert(!(pre[k].0 == a && pre[k].1 == b));
                        assert(pair_count(s.take(i + 2), pre[k].0, pre[k].1) == pair_count(
                            s.take(i + 1),
                            pre[k].0,
                            pre[k].1,
                        ));
                    }
                }
            }
            assert forall|x: usize, y: usize|
                #[trigger] pair_count(s.take(i + 2), x, y) >= 1 implies exists|k: int|
                0 <= k < counts@.len() && (#[trigger] counts@[k]).0 == x && counts@[k].1 == y by {
                if x == a && y == b {
                    if found {
                        let jj = choose|jj: int|
                            0 <= jj < counts@.len() && (#[trigger] counts@[jj]).0 == a
                                && counts@[jj].1 == b;
                        assert(counts@[jj].0 == x && counts@[jj].1 == y);
                    } else {
                        assert(counts@[counts@.len() - 1].0 == x && counts@[counts@.len() - 1].1
                            == y);
                    }
                } else {
                    assert(pair_count(s.take(i + 1), x, y) >= 1);
                    let k = choose|k: int|
                        0 <= k < pre.len() && (#[trigger] pre[k]).0 == x && pre[k].1 == y;
                    assert(counts@[k].0 == x && counts@[k].1 == y);
                }
            }
        }
        i += 1;
    }
    proof {
        assert(s.take(i + 1) =~= s);
    }
    counts
}

/// A pair whose count no other pair exceeds, or `None` on an empty map.
#[verifier::loop_isolation(false)]
pub fn best_pair(counts: &Vec<(usize, usize, usize)>) -> (r: Option<(usize, usize, usize)>)
    ensures
        match r {
            Some(e) => counts@.len() > 0 && (exists|k: int| 0 <= k < counts@.len() && counts@[k] == e)
                && (forall|k: int| 0 <= k < counts@.len() ==> (#[trigger] counts@[k]).2 <= e.2),
            None => counts@.len() == 0,
        },
{
    if counts.len() == 0 {
        return None;
    }
    let mut best = counts[0];
    let mut k: usize = 1;
    while k < counts.len()
        invariant
            1 <= k <= counts@.len(),
            exists|j: int| 0 <= j < counts@.len() && counts@[j] == best,
            forall|j: int| 0 <= j < k ==> (#[trigger] counts@[j]).2 <= best.2,
        decreases counts@.len() - k,
    {
        if counts[k].2 > best.2 {
            best = counts[k];
        }
        k += 1;
    }
    Some(best)
}

/// Rewrite the stream in one non-overlapping left-to-right pass.
#[verifier::loop_isolation(false)]
pub fn merge_stream(stream: &Vec<usize>, f: usize, sec: usize, nw: usize) -> (r: Vec<usize>)
    ensures
        r@ == merge_seq(stream@, f, sec, nw),
{
    let ghost s = stream@;
    let mut out: Vec<usize> = Vec::new();
    let mut i: usize = 0;
    proof {
        assert(s.skip(0) =~= s);
        assert(Seq::<usize>::empty() + merge_seq(s, f, sec, nw) =~= merge_seq(s, f, sec, nw));
    }
    while i < stream.len()
        invariant
            i <= s.len(),
            merge_seq(s, f, sec, nw) == out@ + merge_seq(s.skip(i as int), f, sec, nw),
        decreases s.len() - i,
    {
        let ghost old_out = out@;
        let ghost suf = s.skip(i as int);
        if i + 1 < stream.len() && stream[i] == f && stream[i + 1] == sec {
            proof {
                assert(suf.len() >= 2);
                assert(suf[0] == f && suf[1] == sec);
                assert(suf.skip(2) =~= s.skip(i + 2));
                assert(merge_seq(suf, f, sec, nw) == seq![nw] + merge_seq(
                    s.skip(i + 2),
                    f,
                    sec,
                    nw,
                ));
            }
            out.push(nw);
            i += 2;
        } else {
            proof {
                assert(suf.len() >= 1);
                assert(suf[0] == s[i as int]);
                assert(suf.skip(1) =~= s.skip(i + 1));
                if suf.len() >= 2 {
                    assert(suf[1] == s[i + 1]);
                }
                assert(merge_seq(suf, f, sec, nw) == seq![s[i as int]] + merge_seq(
                    s.skip(i + 1),
                    f,
                    sec,
                    nw,
                ));
            }
            out.push(stream[i]);
            i += 1;
        }
        proof {
            assert(out@ =~= old_out + seq![out@[out@.len() - 1]]);
            assert((old_out + seq![out@[out@.len() - 1]]) + merge_seq(s.skip(i as int), f, sec, nw)
                =~= old_out + (seq![out@[out@.len() - 1]] + merge_seq(s.skip(i as int), f, sec, nw)));
        }
    }
    proof {
        assert(s.skip(i as int) =~= Seq::<usize>::empty());
        assert(merge_seq(s.skip(i as int), f, sec, nw) =~= Seq::<usize>::empty());
        assert(out@ + merge_seq(s.skip(i as int), f, sec, nw) =~= out@);
    }
    out
}

/// The position of `s` in `list`, scanning in order.
pub fn position_of(list: &Vec<String>, s: &String) -> (r: Option<usize>)
    ensures
        match r {
            Some(t) => t < list@.len() && list@[t as int]@ == s@,
            None => forall|t: int| 0 <= t < list@.len() ==> list@[t]@ != s@,
        },
{
    let mut t: usize = 0;
    while t < list.len()
        invariant
            t <= list@.len(),
            forall|u: int| 0 <= u < t ==> list@[u]@ != s@,
        decreases list@.len() - t,
    {
        if list[t].eq(s) {
            return Some(t);
        }
        t += 1;
    }
    None
}

/// The position of `w` in `voc`; meaningful when `w` is a member and the
/// members are distinct.
pub open spec fn vocab_position(voc: Seq<Seq<char>>, w: Seq<char>) -> int {
    choose|i: int| 0 <= i < voc.len() && voc[i] == w
}

/// The reserved slot of the space token.
pub open spec fn space_slot() -> int {
    6
}

/// One character of corpus initialization. Whitespace only arms a pending
/// word separator; any other scalar is lowercased, assigned its existing or
/// a fresh index, and emitted after a space index if one is pending.
pub open spec fn init_step(
    voc: Seq<Seq<char>>,
    stream: Seq<usize>,
    pending: bool,
    emitted: bool,
    c: char,
) -> (Seq<Seq<char>>, Seq<usize>, bool, bool) {
    let lc = lower_char(c);
    if is_space(lc) {
        (voc, stream, emitted, emitted)
    } else {
        let with_sep = if pending {
            stream + seq![6usize]
        } else {
            stream
        };
        let w = seq![lc];
        if in_vocab(voc, w) {
            (voc, with_sep + seq![vocab_position(voc, w) as usize], false, true)
        } else {
            (voc.push(w), with_sep + seq![voc.len() as usize], false, true)
        }
    }
}

/// The vocabulary, stream, pending-separator flag and emitted-a-word flag
/// after the first `n` characters of `src`, starting from the reserved
/// vocabulary and an empty stream.
pub open spec fn init_fold(src: Seq<char>, n: int) -> (Seq<Seq<char>>, Seq<usize>, bool, bool)
    decreases n,
{
    if n <= 0 {
        (reserved_values(), Seq::empty(), false, false)
    } else {
        let st = init_fold(src, n - 1);
        init_step(st.0, st.1, st.2, st.3, src[n - 1])
    }
}

/// Like `init_step` over a fixed vocabulary with space index `sp`: a
/// scalar outside the vocabulary is an error rather than a fresh token.
pub open spec fn resume_step(
    voc: Seq<Seq<char>>,
    sp: usize,
    stream: Seq<usize>,
    pending: bool,
    emitted: bool,
    c: char,
) -> Option<(Seq<usize>, bool, bool)> {
    let lc = lower_char(c);
    if is_space(lc) {
        Some((stream, emitted, emitted))
    } else {
        let with_sep = if pending {
            stream + seq![sp]
        } else {
            stream
        };
        let w = seq![lc];
        if in_vocab(voc, w) {
            Some((with_sep + seq![vocab_position(voc, w) as usize], false, true))
        } else {
            None
        }
    }
}

/// The stream rebuilt over a loaded vocabulary, or `None` as soon as a
/// corpus scalar is missing from it.
pub open spec fn resume_fold(voc: Seq<Seq<char>>, sp: usize, src: Seq<char>, n: int) -> Option<
    (Seq<usize>, bool, bool),
>
    decreases n,
{
    if n <= 0 {
        Some((Seq::empty(), false, false))
    } else {
        match resume_fold(voc, sp, src, n - 1) {
            Some(st) => resume_step(voc, sp, st.0, st.1, st.2, src[n - 1]),
            None => None,
        }
    }
}

/// In-progress training state: the ordered token list, the merge rules so
/// far, the symbol stream, and the reserved table.
pub struct Trainer {
    pub token_list: Vec<String>,
    pub merge_rules: Vec<(String, String)>,
    pub stream: Vec<usize>,
    pub config: TokenConfig,
}

impl Trainer {
    /// The token list as character sequences; index is position.
    pub open spec fn voc(self) -> Seq<Seq<char>> {
        Seq::new(self.token_list@.len(), |i: int| self.token_list@[i]@)
    }

    /// Trainer invariant: unique non-empty tokens, a stream of valid
    /// indices, every reserved value present, and sound merge rules.
    pub open spec fn wf(self) -> bool {
        &&& forall|i: int, j: int| 0 <= i < j < self.voc().len() ==> self.voc()[i] != self.voc()[j]
        &&& forall|i: int| 0 <= i < self.voc().len() ==> self.voc()[i].len() >= 1
        &&& forall|k: int|
            0 <= k < self.stream@.len() ==> (#[trigger] self.stream@[k] as int) < self.voc().len()
        &&& forall|k: int|
            0 <= k < slot_count() ==> in_vocab(self.voc(), #[trigger] self.config.values_view()[k])
        &&& forall|r: int|
            0 <= r < self.merge_rules@.len() ==> rule_ok(
                self.voc(),
                (#[trigger] self.merge_rules@[r]).0@,
                self.merge_rules@[r].1@,
            )
    }

    /// Start fresh: seed the reserved tokens at indices `0..9`, then scan
    /// the corpus, lowercasing each scalar, assigning indices at first
    /// sight, and separating words by the space index.
    #[verifier::loop_isolation(false)]
    pub fn init_fresh(source: &str) -> (r: Trainer)
        ensures
            r.wf(),
            r.voc() == init_fold(source@, source@.len() as int).0,
            r.stream@ == init_fold(source@, source@.len() as int).1,
            r.merge_rules@.len() == 0,
            r.config.values_view() == reserved_values(),
            r.config.indices_view() =~= Seq::new(slot_count() as nat, |k: int| k as usize),
            r.voc().len() >= slot_count(),
            forall|k: int| 0 <= k < slot_count() ==> r.voc()[k] == reserved_values()[k],
            forall|j: int|
                0 <= j < source@.len() && !is_space(lower_char(#[trigger] source@[j]))
                    ==> in_vocab(r.voc(), seq![lower_char(source@[j])]),
    {
        let config = TokenConfig::new();
        let mut token_list: Vec<String> = config.get_values();
        let mut stream: Vec<usize> = Vec::new();
        let chars = crate::text::str_to_chars(source);
        let ghost src = source@;
        let mut pending = false;
        let mut emitted = false;
        let mut i: usize = 0;
        proof {
            crate::token_config::lemma_reserved_values_distinct();
            assert(Seq::new(token_list@.len(), |t: int| token_list@[t]@) =~= reserved_values());
        }
        while i < chars.len()
            invariant
                i <= src.len(),
                Seq::new(token_list@.len(), |t: int| token_list@[t]@) == init_fold(
                    src,
                    i as int,
                ).0,
                stream@ == init_fold(src, i as int).1,
                pending == init_fold(src, i as int).2,
                emitted == init_fold(src, i as int).3,
                pending ==> emitted,
                token_list@.len() >= slot_count(),
                forall|a: int, b: int|
                    0 <= a < b < token_list@.len() ==> token_list@[a]@ != token_list@[b]@,
                forall|a: int| 0 <= a < token_list@.len() ==> token_list@[a]@.len() >= 1,
                forall|k: int|
                    0 <= k < stream@.len() ==> (#[trigger] stream@[k] as int) < token_list@.len(),
                forall|k: int|
                    0 <= k < slot_count() ==> token_list@[k]@ == reserved_values()[k],
                forall|j: int|
                    0 <= j < i && !is_space(lower_char(#[trigger] src[j])) ==> in_vocab(
                        Seq::new(token_list@.len(), |t: int| token_list@[t]@),
                        seq![lower_char(src[j])],
                    ),
            decreases src.len() - i,
        {
            let ghost voc0 = Seq::new(token_list@.len(), |t: int| token_list@[t]@);
            let ghost st0 = init_fold(src, i as int);
            let c = chars[i];
            let lc = crate::text::lower_char_exec(c);
            proof {
                assert(init_fold(src, i + 1) == init_step(st0.0, st0.1, st0.2, st0.3, src[i as int]));
            }
            if crate::text::is_space_exec(lc) {
                if emitted {
                    pending = true;
                }
            } else {
                if pending {
                    stream.push(config.space.index);
                    pending = false;
                    proof {
                        assert(config.space.index == 6) by {
                            assert(config.indices_view()[space_slot()] == 6usize);
                        }
                        assert(stream@ =~= st0.1 + seq![6usize]);
                    }
                }
                let mut cv: Vec<char> = Vec::new();
                cv.push(lc);
                let w_s = crate::text::chars_to_string(&cv);
                proof {
                    assert(w_s@ =~= seq![lc]);
                }
                match position_of(&token_list, &w_s) {
                    Some(t) => {
                        stream.push(t);
                        proof {
                            assert(in_vocab(voc0, seq![lc])) by {
                                assert(voc0[t as int] == seq![lc]);
                            }
                            let psn = vocab_position(voc0, seq![lc]);
                            assert(voc0[psn] == seq![lc]);
                            assert(psn == t as int);
                        }
                    },
                    None => {
                        proof {
                            assert(!in_vocab(voc0, seq![lc])) by {
                                if in_vocab(voc0, seq![lc]) {
                                    let q = choose|q: int|
                                        0 <= q < voc0.len() && voc0[q] == seq![lc];
                                    assert(token_list@[q]@ != w_s@);
                                }
                            }
                        }
                        stream.push(token_list.len());
                        token_list.push(w_s);
                        proof {
                            assert(Seq::new(token_list@.len(), |t: int| token_list@[t]@)
                                =~= voc0.push(seq![lc]));
                        }
                    },
                }
                emitted = true;
            }
            proof {
                let voc1 = Seq::new(token_list@.len(), |t: int| token_list@[t]@);
                assert(voc1 == init_fold(src, i + 1).0 && stream@ == init_fold(src, i + 1).1
                    && pending == init_fold(src, i + 1).2 && emitted == init_fold(src, i + 1).3);
                assert forall|j: int|
                    0 <= j < i + 1 && !is_space(lower_char(#[trigger] src[j])) implies in_vocab(
                    voc1,
                    seq![lower_char(src[j])],
                ) by {
                    if j < i {
                        let q = choose|q: int|
                            0 <= q < voc0.len() && voc0[q] == seq![lower_char(src[j])];
                        assert(voc1[q] == seq![lower_char(src[j])]);
                    } else {
                        let pj = vocab_position(voc1, seq![lower_char(src[j])]);
                        if in_vocab(voc0, seq![lower_char(src[j])]) {
                            let q = choose|q: int|
                                0 <= q < voc0.len() && voc0[q] == seq![lower_char(src[j])];
                            assert(voc1[q] == seq![lower_char(src[j])]);
                        } else {
                            assert(voc1[voc1.len() - 1] == seq![lower_char(src[j])]);
                        }
                    }
                }
            }
            i += 1;
        }
        let r = Trainer { token_list, merge_rules: Vec::new(), stream, config };
        proof {
            assert(r.voc() =~= Seq::new(r.token_list@.len(), |t: int| r.token_list@[t]@));
            assert forall|k: int|
                0 <= k < slot_count() implies in_vocab(
                r.voc(),
                #[trigger] r.config.values_view()[k],
            ) by {
                assert(r.voc()[k] == reserved_values()[k]);
            }
        }
        r
    }

    /// Resume over a loaded model: adopt its vocabulary, rules and table,
    /// and rebuild the stream. A corpus scalar missing from the vocabulary
    /// fails with `UnknownCharacter`.
    #[verifier::loop_isolation(false)]
    pub fn init_resume(source: &str, base: &Tokenizer) -> (r: Result<Trainer, BpeError>)
        requires
            base.wf(),
        ensures
            match r {
                Ok(t) => {
                    &&& t.wf()
                    &&& t.voc() == base.vocab()
                    &&& t.merge_rules@ == base.merge_rules@
                    &&& t.config == base.config
                    &&& resume_fold(
                        base.vocab(),
                        base.config.space.index,
                        source@,
                        source@.len() as int,
                    ) is Some
                    &&& t.stream@ == (resume_fold(
                        base.vocab(),
                        base.config.space.index,
                        source@,
                        source@.len() as int,
                    )->0).0
                },
                Err(e) => e == BpeError::UnknownCharacter && resume_fold(
                    base.vocab(),
                    base.config.space.index,
                    source@,
                    source@.len() as int,
                ) is None,
            },
    {
        let token_list = base.get_vocabulary();
        let merge_rules = base.get_merge_rules();
        proof {
            assert(merge_rules@ =~= base.merge_rules@);
        }
        let config = base.get_config();
        let ghost voc = base.vocab();
        proof {
            assert(Seq::new(token_list@.len(), |t: int| token_list@[t]@) =~= voc);
        }
        let mut stream: Vec<usize> = Vec::new();
        let chars = crate::text::str_to_chars(source);
        let ghost src = source@;
        let sp = config.space.index;
        proof {
            assert(sp == base.config.indices_view()[space_slot()]);
            assert((sp as int) < voc.len());
        }
        let mut pending = false;
        let mut emitted = false;
        let mut i: usize = 0;
        while i < chars.len()
            invariant
                i <= src.len(),
                resume_fold(voc, sp, src, i as int) is Some,
                stream@ == (resume_fold(voc, sp, src, i as int)->0).0,
                pending == (resume_fold(voc, sp, src, i as int)->0).1,
                emitted == (resume_fold(voc, sp, src, i as int)->0).2,
                pending ==> emitted,
                forall|k: int|
                    0 <= k < stream@.len() ==> (#[trigger] stream@[k] as int) < voc.len(),
            decreases src.len() - i,
        {
            let ghost st0 = resume_fold(voc, sp, src, i as int)->0;
            let c = chars[i];
            let lc = crate::text::lower_char_exec(c);
            proof {
                assert(resume_fold(voc, sp, src, i + 1) == resume_step(
                    voc,
                    sp,
                    st0.0,
                    st0.1,
                    st0.2,
                    src[i as int],
                ));
            }
            if crate::text::is_space_exec(lc) {
                if emitted {
                    pending = true;
                }
            } else {
                let mut cv: Vec<char> = Vec::new();
                cv.push(lc);
                let w_s = crate::text::chars_to_string(&cv);
                proof {
                    assert(w_s@ =~= seq![lc]);
                }
                match base.get_index(w_s.as_str()) {
                    Some(t) => {
                        if pending {
                            stream.push(sp);
                            pending = false;
                            proof {
                                assert(stream@ =~= st0.0 + seq![sp]);
                            }
                        }
                        stream.push(t);
                        proof {
                            let psn = vocab_position(voc, seq![lc]);
                            assert(in_vocab(voc, seq![lc])) by {
                                assert(voc[t as int] == seq![lc]);
                            }
                            assert(voc[psn] == seq![lc]);
                            assert(psn == t as int);
                        }
                    },
                    None => {
                        proof {
                            assert(!in_vocab(voc, seq![lc]));
                            assert(resume_fold(voc, sp, src, i + 1) is None);
                            lemma_resume_fold_none(voc, sp, src, i + 1, src.len() as int);
                        }
                        return Err(BpeError::UnknownCharacter);
                    },
                }
                emitted = true;
            }
            i += 1;
        }
        let r = Trainer { token_list, merge_rules, stream, config };
        proof {
            assert(r.voc() =~= voc);
            assert forall|k: int|
                0 <= k < slot_count() implies in_vocab(
                r.voc(),
                #[trigger] r.config.values_view()[k],
            ) by {
                assert(base.vocab()[base.config.indices_view()[k] as int]
                    == base.config.values_view()[k]);
            }
            assert forall|rr: int|
                0 <= rr < r.merge_rules@.len() implies rule_ok(
                r.voc(),
                (#[trigger] r.merge_rules@[rr]).0@,
                r.merge_rules@[rr].1@,
            ) by {
                assert(base.rules()[rr] == (base.merge_rules@[rr].0@, base.merge_rules@[rr].1@));
                assert(rule_ok(base.vocab(), (base.rules()[rr]).0, (base.rules()[rr]).1));
                assert(r.merge_rules@[rr].0@ == base.merge_rules@[rr].0@);
                assert(r.merge_rules@[rr].1@ == base.merge_rules@[rr].1@);
            }
        }
        Ok(r)
    }
}

/// Once the resume scan fails, it stays failed.
pub proof fn lemma_resume_fold_none(voc: Seq<Seq<char>>, sp: usize, src: Seq<char>, n: int, m: int)
    requires
        resume_fold(voc, sp, src, n) is None,
        n <= m,
    ensures
        resume_fold(voc, sp, src, m) is None,
    decreases m - n,
{
    if n < m {
        lemma_resume_fold_none(voc, sp, src, n + 1, m);
    }
}

impl Trainer {
    /// One training iteration: count adjacent pairs, pick a pair whose
    /// count no other pair exceeds, promote its concatenation, append the
    /// merge rule, and rewrite the stream in one non-overlapping pass.
    /// Returns the merged pair, or `None` (changing nothing) when the
    /// stream has fewer than two symbols.
    pub fn step(&mut self) -> (r: Option<(usize, usize)>)
        requires
            old(self).wf(),
        ensures
            final(self).wf(),
            final(self).config == old(self).config,
            (r is Some) == (old(self).stream@.len() >= 2),
            r is None ==> *final(self) == *old(self),
            r matches Some(p) ==> {
                &&& (p.0 as int) < old(self).voc().len()
                &&& (p.1 as int) < old(self).voc().len()
                &&& pair_count(old(self).stream@, p.0, p.1) >= 1
                &&& (forall|a: usize, b: usize|
                    #[trigger] pair_count(old(self).stream@, a, b) <= pair_count(
                        old(self).stream@,
                        p.0,
                        p.1,
                    ))
                &&& final(self).merge_rules@.len() == old(self).merge_rules@.len() + 1
                &&& (forall|k: int|
                    0 <= k < old(self).merge_rules@.len() ==> #[trigger] final(self).merge_rules@[k] == old(self).merge_rules@[k])
                &&& final(self).merge_rules@.last().0@ == old(self).voc()[p.0 as int]
                &&& final(self).merge_rules@.last().1@ == old(self).voc()[p.1 as int]
                &&& old(self).voc().len() <= final(self).voc().len() <= old(self).voc().len() + 1
                &&& (forall|i: int|
                    0 <= i < old(self).voc().len() ==> #[trigger] final(self).voc()[i] == old(self).voc()[i])
                &&& in_vocab(
                    final(self).voc(),
                    old(self).voc()[p.0 as int] + old(self).voc()[p.1 as int],
                )
                &&& (exists|nw: usize|
                    (nw as int) < final(self).voc().len() && final(self).voc()[nw as int] == old(self).voc()[p.0 as int] + old(self).voc()[p.1 as int] && final(self).stream@
                        == #[trigger] merge_seq(old(self).stream@, p.0, p.1, nw))
                &&& (final(self).voc().len() == old(self).voc().len() + 1 ==> final(self).voc()[old(self).voc().len() as int] == old(self).voc()[p.0 as int] + old(self).voc()[p.1 as int])
                &&& final(self).stream@.len() < old(self).stream@.len()
            },
    {
        let ghost voc0 = self.voc();
        let ghost s0 = self.stream@;
        let counts = count_pairs(&self.stream);
        match best_pair(&counts) {
            None => {
                proof {
                    if s0.len() >= 2 {
                        assert(pair_count(s0, s0[0], s0[1]) >= 1);
                        assert(false);
                    }
                }
                None
            },
            Some(e) => {
                let f = e.0;
                let sec = e.1;
                proof {
                    let ke = choose|k: int| 0 <= k < counts@.len() && counts@[k] == e;
                    assert(e.2 as nat == pair_count(s0, f, sec) && e.2 >= 1);
                    lemma_pair_occurs(s0, f, sec);
                    let oc = choose|i: int|
                        0 <= i < s0.len() - 1 && #[trigger] s0[i] == f && s0[i + 1] == sec;
                    assert((f as int) < voc0.len() && (sec as int) < voc0.len());
                    assert forall|a: usize, b: usize|
                        #[trigger] pair_count(s0, a, b) <= pair_count(s0, f, sec) by {
                        if pair_count(s0, a, b) >= 1 {
                            let k = choose|k: int|
                                0 <= k < counts@.len() && (#[trigger] counts@[k]).0 == a
                                    && counts@[k].1 == b;
                            assert(counts@[k].2 <= e.2);
                        }
                    }
                }
                let a_tok = self.token_list[f].clone();
                let b_tok = self.token_list[sec].clone();
                let cat = a_tok.clone().concat(b_tok.as_str());
                proof {
                    assert(cat@ == voc0[f as int] + voc0[sec as int]);
                    assert(cat@.len() >= 1);
                }
                let nw = match position_of(&self.token_list, &cat) {
                    Some(t) => t,
                    None => {
                        let t = self.token_list.len();
                        self.token_list.push(cat);
                        proof {
                            assert(self.voc() =~= voc0.push(voc0[f as int] + voc0[sec as int]));
                        }
                        t
                    },
                };
                let ghost voc1 = self.voc();
                proof {
                    assert(voc0.len() <= voc1.len() <= voc0.len() + 1);
                    assert(forall|i: int| 0 <= i < voc0.len() ==> #[trigger] voc1[i] == voc0[i]);
                    assert((nw as int) < voc1.len() && voc1[nw as int] == voc0[f as int]
                        + voc0[sec as int]);
                    assert forall|i: int, j: int| 0 <= i < j < voc1.len() implies voc1[i]
                        != voc1[j] by {
                        if j < voc0.len() {
                        } else if voc1.len() == voc0.len() + 1 && j == voc0.len() {
                            assert(!in_vocab(voc0, voc1[j]));
                        }
                    }
                }
                self.merge_rules.push((a_tok, b_tok));
                let ns = merge_stream(&self.stream, f, sec, nw);
                proof {
                    lemma_merge_len(s0, f, sec, nw);
                    lemma_merge_count_pos(s0, f, sec);
                    lemma_merge_bound(s0, f, sec, nw, voc1.len() as int);
                }
                self.stream = ns;
                proof {
                    assert forall|k: int|
                        0 <= k < slot_count() implies in_vocab(
                        voc1,
                        #[trigger] self.config.values_view()[k],
                    ) by {
                        let q = choose|q: int|
                            0 <= q < voc0.len() && voc0[q] == self.config.values_view()[k];
                        assert(voc1[q] == self.config.values_view()[k]);
                    }
                    assert forall|rr: int|
                        0 <= rr < self.merge_rules@.len() implies rule_ok(
                        voc1,
                        (#[trigger] self.merge_rules@[rr]).0@,
                        self.merge_rules@[rr].1@,
                    ) by {
                        if rr < self.merge_rules@.len() - 1 {
                            assert(self.merge_rules@[rr] == old(self).merge_rules@[rr]);
                            assert(rule_ok(
                                voc0,
                                self.merge_rules@[rr].0@,
                                self.merge_rules@[rr].1@,
                            ));
                            lemma_in_vocab_extend(voc0, voc1, self.merge_rules@[rr].0@);
                            lemma_in_vocab_extend(voc0, voc1, self.merge_rules@[rr].1@);
                            lemma_in_vocab_extend(
                                voc0,
                                voc1,
                                self.merge_rules@[rr].0@ + self.merge_rules@[rr].1@,
                            );
                        } else {
                            assert(self.merge_rules@[rr].0@ == voc0[f as int]);
                            assert(self.merge_rules@[rr].1@ == voc0[sec as int]);
                            assert(voc1[f as int] == voc0[f as int]);
                            assert(voc1[sec as int] == voc0[sec as int]);
                            assert(voc1[nw as int] == voc0[f as int] + voc0[sec as int]);
                        }
                    }
                }
                Some((f, sec))
            },
        }
    }

    /// Hand the trained state over as a model: locate each reserved value
    /// in the final vocabulary, point the table at those indices, and build
    /// the trie.
    pub fn finish(self) -> (r: Tokenizer)
        requires
            self.wf(),
        ensures
            r.wf(),
            r.vocab() == self.voc(),
            r.merge_rules@ == self.merge_rules@,
            r.config.values_view() == self.config.values_view(),
    {
        let Trainer { token_list, merge_rules, stream: _, config: mut config } = self;
        let indices = extract_indices(&token_list, &config);
        config.set_indices(indices);
        proof {
            assert(Seq::new(token_list@.len(), |i: int| token_list@[i]@) =~= self.voc());
            assert forall|i: int, j: int| 0 <= i < j < token_list@.len() implies token_list@[i]@
                != token_list@[j]@ by {
                assert(self.voc()[i] == token_list@[i]@);
                assert(self.voc()[j] == token_list@[j]@);
            }
            assert forall|i: int| 0 <= i < token_list@.len() implies token_list@[i]@.len()
                >= 1 by {
                assert(self.voc()[i] == token_list@[i]@);
            }
            assert forall|rr: int|
                0 <= rr < merge_rules@.len() implies rule_ok(
                Seq::new(token_list@.len(), |i: int| token_list@[i]@),
                (#[trigger] merge_rules@[rr]).0@,
                merge_rules@[rr].1@,
            ) by {
                assert(rule_ok(self.voc(), merge_rules@[rr].0@, merge_rules@[rr].1@));
            }
            assert forall|k: int|
                0 <= k < slot_count() implies (#[trigger] config.indices_view()[k] as int)
                < token_list@.len() && token_list@[config.indices_view()[k] as int]@
                == config.values_view()[k] by {}
        }
        let r = Tokenizer::new(token_list, merge_rules, config);
        proof {
            assert(r.vocab() =~= Seq::new(r.vocabulary@.len(), |i: int| r.vocabulary@[i]@));
        }
        r
    }
}

/// Membership survives appending to the vocabulary.
pub proof fn lemma_in_vocab_extend(voc0: Seq<Seq<char>>, voc1: Seq<Seq<char>>, w: Seq<char>)
    requires
        in_vocab(voc0, w),
        voc0.len() <= voc1.len(),
        forall|i: int| 0 <= i < voc0.len() ==> #[trigger] voc1[i] == voc0[i],
    ensures
        in_vocab(voc1, w),
{
    let q = choose|q: int| 0 <= q < voc0.len() && voc0[q] == w;
    assert(voc1[q] == w);
}

/// The position of each reserved value in the token list, in slot order.
fn extract_indices(token_list: &Vec<String>, config: &TokenConfig) -> (r: Vec<usize>)
    requires
        forall|k: int|
            0 <= k < slot_count() ==> in_vocab(
                Seq::new(token_list@.len(), |t: int| token_list@[t]@),
                #[trigger] config.values_view()[k],
            ),
    ensures
        r@.len() == slot_count(),
        forall|k: int|
            0 <= k < slot_count() ==> (#[trigger] r@[k] as int) < token_list@.len()
                && token_list@[r@[k] as int]@ == config.values_view()[k],
    {
    let ghost voc = Seq::new(token_list@.len(), |t: int| token_list@[t]@);
    let values = config.get_values();
    let mut out: Vec<usize> = Vec::new();
    let mut k: usize = 0;
    while k < values.len()
        invariant
            values@.len() == slot_count(),
            forall|q: int| 0 <= q < slot_count() ==> #[trigger] values@[q]@
                == config.values_view()[q],
            voc == Seq::new(token_list@.len(), |t: int| token_list@[t]@),
            forall|q: int|
                0 <= q < slot_count() ==> in_vocab(voc, #[trigger] config.values_view()[q]),
            k <= slot_count(),
            out@.len() == k,
            forall|q: int|
                0 <= q < k ==> (#[trigger] out@[q] as int) < token_list@.len()
                    && token_list@[out@[q] as int]@ == config.values_view()[q],
        decreases slot_count() - k,
    {
        match position_of(token_list, &values[k]) {
            Some(t) => {
                out.push(t);
            },
            None => {
                proof {
                    let q = choose|q: int|
                        0 <= q < voc.len() && voc[q] == config.values_view()[k as int];
                    assert(token_list@[q]@ == values@[k as int]@);
                    assert(false);
                }
                out.push(0);
            },
        }
        k += 1;
    }
    out
}

/// One recorded merge of a training run, judged over the final vocabulary
/// `voc` and a rule list `rules`: the `k`-th merge chose a pair `ps[k]`
/// whose count in the pre-merge stream `ms[k]` no other pair exceeds,
/// appended the rule naming that pair's token strings, and rewrote the
/// stream into `ms[k+1]` using the merged token's index. `ls[k]` is the
/// vocabulary length just before the merge: both halves lie strictly below
/// it, and when the vocabulary grew, the new slot holds the concatenation.
pub open spec fn trace_step_ok(
    voc: Seq<Seq<char>>,
    rules: Seq<(String, String)>,
    ms: Seq<Seq<usize>>,
    ps: Seq<(usize, usize)>,
    ls: Seq<int>,
    k: int,
) -> bool {
    let f = ps[k].0;
    let sec = ps[k].1;
    &&& (f as int) < ls[k]
    &&& (sec as int) < ls[k]
    &&& ls[k] <= ls[k + 1] <= voc.len()
    &&& pair_count(ms[k], f, sec) >= 1
    &&& (forall|a: usize, b: usize|
        #[trigger] pair_count(ms[k], a, b) <= pair_count(ms[k], f, sec))
    &&& rules[k].0@ == voc[f as int]
    &&& rules[k].1@ == voc[sec as int]
    &&& (ls[k + 1] == ls[k] || ls[k + 1] == ls[k] + 1)
    &&& (ls[k + 1] == ls[k] + 1 ==> voc[ls[k]] == voc[f as int] + voc[sec as int])
    &&& (exists|nw: usize|
        (nw as int) < ls[k + 1] && voc[nw as int] == voc[f as int] + voc[sec as int] && ms[k + 1]
            == #[trigger] merge_seq(ms[k], f, sec, nw))
    &&& ms[k + 1].len() < ms[k].len()
}

/// A complete training trace over the rules a run appended: one stream and
/// one vocabulary length per state, one winning pair per merge, each merge
/// sound per `trace_step_ok`.
pub open spec fn training_trace_ok(
    voc: Seq<Seq<char>>,
    rules: Seq<(String, String)>,
    ms: Seq<Seq<usize>>,
    ps: Seq<(usize, usize)>,
    ls: Seq<int>,
) -> bool {
    &&& ms.len() == rules.len() + 1
    &&& ps.len() == rules.len()
    &&& ls.len() == rules.len() + 1
    &&& forall|k: int|
        0 <= k < rules.len() ==> #[trigger] trace_step_ok(voc, rules, ms, ps, ls, k)
}

/// A sound trace step stays sound when the vocabulary is extended and the
/// rule list and trace grow at the end.
proof fn lemma_trace_step_preserved(
    voc0: Seq<Seq<char>>,
    voc1: Seq<Seq<char>>,
    rules0: Seq<(String, String)>,
    rules1: Seq<(String, String)>,
    ms0: Seq<Seq<usize>>,
    ms1: Seq<Seq<usize>>,
    ps0: Seq<(usize, usize)>,
    ps1: Seq<(usize, usize)>,
    ls0: Seq<int>,
    ls1: Seq<int>,
    k: int,
)
    requires
        0 <= k < ps0.len(),
        ms0.len() == ps0.len() + 1,
        ls0.len() == ps0.len() + 1,
        rules0.len() == ps0.len(),
        trace_step_ok(voc0, rules0, ms0, ps0, ls0, k),
        voc0.len() <= voc1.len(),
        forall|i: int| 0 <= i < voc0.len() ==> #[trigger] voc1[i] == voc0[i],
        rules1.len() >= rules0.len(),
        forall|i: int| 0 <= i < rules0.len() ==> #[trigger] rules1[i] == rules0[i],
        ms1.len() >= ms0.len(),
        forall|i: int| 0 <= i < ms0.len() ==> #[trigger] ms1[i] == ms0[i],
        ps1.len() >= ps0.len(),
        forall|i: int| 0 <= i < ps0.len() ==> #[trigger] ps1[i] == ps0[i],
        ls1.len() >= ls0.len(),
        forall|i: int| 0 <= i < ls0.len() ==> #[trigger] ls1[i] == ls0[i],
    ensures
        trace_step_ok(voc1, rules1, ms1, ps1, ls1, k),
{
    let f = ps0[k].0;
    let sec = ps0[k].1;
    assert(ls1[k] == ls0[k] && ls1[k + 1] == ls0[k + 1]);
    assert(ms1[k] == ms0[k] && ms1[k + 1] == ms0[k + 1]);
    assert(ps1[k] == ps0[k]);
    assert(rules1[k] == rules0[k]);
    assert(voc1[f as int] == voc0[f as int]);
    assert(voc1[sec as int] == voc0[sec as int]);
    if ls0[k + 1] == ls0[k] + 1 {
        assert(voc1[ls0[k]] == voc0[ls0[k]]);
    }
    let nw = choose|nw: usize|
        (nw as int) < ls0[k + 1] && voc0[nw as int] == voc0[f as int] + voc0[sec as int] && ms0[k
            + 1] == #[trigger] merge_seq(ms0[k], f, sec, nw);
    assert(voc1[nw as int] == voc0[nw as int]);
    assert((nw as int) < ls1[k + 1] && voc1[nw as int] == voc1[f as int] + voc1[sec as int]
        && ms1[k + 1] == merge_seq(ms1[k], f, sec, nw));
}

impl Tokenizer {
    /// Learn a BPE model from `source` in at most `iterations` merges,
    /// starting from the reserved tokens and the corpus's own scalars. The
    /// loop ends early only when the stream has fewer than two symbols;
    /// every appended rule is witnessed by a trace in which its pair's
    /// count in the pre-merge stream is maximal.
    #[verifier::loop_isolation(false)]
    pub fn train_cpu(source: &str, iterations: usize) -> (r: Tokenizer)
        ensures
            r.wf(),
            r.vocab().len() <= init_fold(source@, source@.len() as int).0.len() + iterations,
            r.merge_rules@.len() <= iterations,
            r.config.values_view() == reserved_values(),
            init_fold(source@, source@.len() as int).0.len() <= r.vocab().len(),
            forall|i: int|
                0 <= i < init_fold(source@, source@.len() as int).0.len() ==> #[trigger] r.vocab()[i]
                    == init_fold(source@, source@.len() as int).0[i],
            forall|k: int|
                0 <= k < slot_count() ==> r.vocab()[k] == #[trigger] reserved_values()[k],
            forall|j: int|
                0 <= j < source@.len() && !is_space(lower_char(#[trigger] source@[j]))
                    ==> in_vocab(r.vocab(), seq![lower_char(source@[j])]),
            iterations >= 1 && init_fold(source@, source@.len() as int).1.len() >= 2
                ==> r.merge_rules@.len() >= 1,
            init_fold(source@, source@.len() as int).1.len() < 2 ==> r.vocab() == init_fold(
                source@,
                source@.len() as int,
            ).0 && r.merge_rules@.len() == 0,
            exists|ms: Seq<Seq<usize>>, ps: Seq<(usize, usize)>, ls: Seq<int>|
                {
                    &&& #[trigger] training_trace_ok(r.vocab(), r.merge_rules@, ms, ps, ls)
                    &&& ms[0] == init_fold(source@, source@.len() as int).1
                    &&& ls[0] == init_fold(source@, source@.len() as int).0.len()
                    &&& ls[ls.len() - 1] == r.vocab().len()
                    &&& (r.merge_rules@.len() < iterations ==> ms[ms.len() - 1].len() < 2)
                },
    {
        let mut tr = Trainer::init_fresh(source);
        let ghost init_voc = tr.voc();
        let ghost init_stream = tr.stream@;
        let ghost cfg0 = tr.config;
        let ghost mut ms: Seq<Seq<usize>> = seq![init_stream];
        let ghost mut ps: Seq<(usize, usize)> = Seq::empty();
        let ghost mut ls: Seq<int> = seq![init_voc.len() as int];
        let mut it: usize = 0;
        let mut done = false;
        while it < iterations && !done
            invariant
                tr.wf(),
                it <= iterations,
                tr.config == cfg0,
                init_voc.len() <= tr.voc().len(),
                forall|i: int| 0 <= i < init_voc.len() ==> #[trigger] tr.voc()[i] == init_voc[i],
                ms.len() == ps.len() + 1,
                ls.len() == ps.len() + 1,
                tr.merge_rules@.len() == ps.len(),
                ps.len() <= it,
                ms[0] == init_stream,
                ls[0] == init_voc.len(),
                ms[ms.len() - 1] == tr.stream@,
                ls[ls.len() - 1] == tr.voc().len(),
                tr.voc().len() <= init_voc.len() + ps.len(),
                forall|k: int|
                    0 <= k < ps.len() ==> #[trigger] trace_step_ok(
                        tr.voc(),
                        tr.merge_rules@,
                        ms,
                        ps,
                        ls,
                        k,
                    ),
                !done ==> ps.len() == it,
                done ==> tr.stream@.len() < 2,
                it == 0 && !done ==> tr.stream@ == init_stream && tr.merge_rules@.len() == 0,
                (it > 0 || done) && init_stream.len() >= 2 ==> tr.merge_rules@.len() >= 1,
                init_stream.len() < 2 ==> tr.stream@ == init_stream && tr.voc() == init_voc
                    && tr.merge_rules@.len() == 0,
            decreases iterations - it, (if done {
                0int
            } else {
                1int
            }),
        {
            let ghost pre = tr;
            let ghost ms0 = ms;
            let ghost ps0 = ps;
            let ghost ls0 = ls;
            match tr.step() {
                Some(pair) => {
                    proof {
                        ms = ms.push(tr.stream@);
                        ps = ps.push(pair);
                        ls = ls.push(tr.voc().len() as int);
                        assert forall|i: int|
                            0 <= i < init_voc.len() implies #[trigger] tr.voc()[i]
                            == init_voc[i] by {
                            assert(tr.voc()[i] == pre.voc()[i]);
                        }
                        assert forall|k: int|
                            0 <= k < ps.len() implies #[trigger] trace_step_ok(
                            tr.voc(),
                            tr.merge_rules@,
                            ms,
                            ps,
                            ls,
                            k,
                        ) by {
                            if k < ps0.len() {
                                assert(trace_step_ok(
                                    pre.voc(),
                                    pre.merge_rules@,
                                    ms0,
                                    ps0,
                                    ls0,
                                    k,
                                ));
                                lemma_trace_step_preserved(
                                    pre.voc(),
                                    tr.voc(),
                                    pre.merge_rules@,
                                    tr.merge_rules@,
                                    ms0,
                                    ms,
                                    ps0,
                                    ps,
                                    ls0,
                                    ls,
                                    k,
                                );
                            } else {
                                assert(ms[k] == ms0[ms0.len() - 1]);
                                assert(ms[k] == pre.stream@);
                                assert(ls[k] == pre.voc().len());
                                assert(ls[k + 1] == tr.voc().len());
                                assert(ms[k + 1] == tr.stream@);
                                assert(ps[k] == pair);
                                assert(tr.merge_rules@[k] == tr.merge_rules@.last());
                                assert(tr.voc()[pair.0 as int] == pre.voc()[pair.0 as int]);
                                assert(tr.voc()[pair.1 as int] == pre.voc()[pair.1 as int]);
                            }
                        }
                    }
                    it += 1;
                },
                None => {
                    done = true;
                },
            }
        }
        let ghost tr_final = tr;
        let r = tr.finish();
        proof {
            assert forall|j: int|
                0 <= j < source@.len() && !is_space(lower_char(#[trigger] source@[j]))
                    implies in_vocab(r.vocab(), seq![lower_char(source@[j])]) by {
                lemma_in_vocab_extend(init_voc, tr_final.voc(), seq![lower_char(source@[j])]);
            }
            assert forall|k: int|
                0 <= k < r.merge_rules@.len() implies #[trigger] trace_step_ok(
                r.vocab(),
                r.merge_rules@,
                ms,
                ps,
                ls,
                k,
            ) by {
                assert(trace_step_ok(tr_final.voc(), tr_final.merge_rules@, ms, ps, ls, k));
                assert(r.vocab() == tr_final.voc());
                assert(r.merge_rules@ == tr_final.merge_rules@);
            }
            if init_stream.len() < 2 {
                assert(r.vocab() == init_voc);
            }
            assert(training_trace_ok(r.vocab(), r.merge_rules@, ms, ps, ls));
            assert(r.merge_rules@.len() < iterations ==> ms[ms.len() - 1].len() < 2) by {
                if r.merge_rules@.len() < iterations && !done {
                    assert(ps.len() == it);
                }
            }
            assert({
                &&& training_trace_ok(r.vocab(), r.merge_rules@, ms, ps, ls)
                &&& ms[0] == init_fold(source@, source@.len() as int).1
                &&& ls[0] == init_fold(source@, source@.len() as int).0.len()
                &&& ls[ls.len() - 1] == r.vocab().len()
                &&& (r.merge_rules@.len() < iterations ==> ms[ms.len() - 1].len() < 2)
            });
        }
        r
    }

    /// Resume training from an existing model: succeeds exactly when every
    /// corpus scalar is in the loaded vocabulary, and fails with
    /// `UnknownCharacter` otherwise. On success the base vocabulary and
    /// rule list are unchanged prefixes of the result's, and every appended
    /// rule is witnessed by a maximal-pair trace over the rebuilt stream.
    #[verifier::loop_isolation(false)]
    pub fn train_resume(source: &str, iterations: usize, base: &Tokenizer) -> (r: Result<
        Tokenizer,
        BpeError,
    >)
        requires
            base.wf(),
        ensures
            match r {
                Ok(m) => {
                    &&& m.wf()
                    &&& resume_fold(
                        base.vocab(),
                        base.config.space.index,
                        source@,
                        source@.len() as int,
                    ) is Some
                    &&& m.vocab().len() <= base.vocab().len() + iterations
                    &&& base.merge_rules@.len() <= m.merge_rules@.len()
                        <= base.merge_rules@.len() + iterations
                    &&& base.vocab().len() <= m.vocab().len()
                    &&& (forall|i: int|
                        0 <= i < base.vocab().len() ==> #[trigger] m.vocab()[i] == base.vocab()[i])
                    &&& (forall|k: int|
                        0 <= k < base.merge_rules@.len() ==> #[trigger] m.merge_rules@[k]
                            == base.merge_rules@[k])
                    &&& m.config.values_view() == base.config.values_view()
                    &&& (iterations >= 1 && (resume_fold(
                        base.vocab(),
                        base.config.space.index,
                        source@,
                        source@.len() as int,
                    )->0).0.len() >= 2 ==> m.merge_rules@.len() > base.merge_rules@.len())
                    &&& ((resume_fold(
                        base.vocab(),
                        base.config.space.index,
                        source@,
                        source@.len() as int,
                    )->0).0.len() < 2 ==> m.vocab() == base.vocab() && m.merge_rules@
                        == base.merge_rules@)
                    &&& (exists|ms: Seq<Seq<usize>>, ps: Seq<(usize, usize)>, ls: Seq<int>|
                        {
                            &&& #[trigger] training_trace_ok(
                                m.vocab(),
                                m.merge_rules@.skip(base.merge_rules@.len() as int),
                                ms,
                                ps,
                                ls,
                            )
                            &&& ms[0] == (resume_fold(
                                base.vocab(),
                                base.config.space.index,
                                source@,
                                source@.len() as int,
                            )->0).0
                            &&& ls[0] == base.vocab().len()
                            &&& ls[ls.len() - 1] == m.vocab().len()
                            &&& (m.merge_rules@.len() - base.merge_rules@.len() < iterations
                                ==> ms[ms.len() - 1].len() < 2)
                        })
                },
                Err(e) => e == BpeError::UnknownCharacter && resume_fold(
                    base.vocab(),
                    base.config.space.index,
                    source@,
                    source@.len() as int,
                ) is None,
            },
    {
        let mut tr = match Trainer::init_resume(source, base) {
            Ok(t) => t,
            Err(e) => {
                return Err(e);
            },
        };
        let ghost init_voc = tr.voc();
        let ghost init_stream = tr.stream@;
        let ghost cfg0 = tr.config;
        let ghost rules0 = base.merge_rules@.len() as int;
        let ghost mut ms: Seq<Seq<usize>> = seq![init_stream];
        let ghost mut ps: Seq<(usize, usize)> = Seq::empty();
        let ghost mut ls: Seq<int> = seq![init_voc.len() as int];
        let mut it: usize = 0;
        let mut done = false;
        while it < iterations && !done
            invariant
                tr.wf(),
                it <= iterations,
                tr.config == cfg0,
                init_voc.len() <= tr.voc().len(),
                forall|i: int| 0 <= i < init_voc.len() ==> #[trigger] tr.voc()[i] == init_voc[i],
                ms.len() == ps.len() + 1,
                ls.len() == ps.len() + 1,
                tr.merge_rules@.len() == rules0 + ps.len(),
                forall|k: int|
                    0 <= k < rules0 ==> #[trigger] tr.merge_rules@[k] == base.merge_rules@[k],
                ps.len() <= it,
                ms[0] == init_stream,
                ls[0] == init_voc.len(),
                ms[ms.len() - 1] == tr.stream@,
                ls[ls.len() - 1] == tr.voc().len(),
                tr.voc().len() <= init_voc.len() + ps.len(),
                forall|k: int|
                    0 <= k < ps.len() ==> #[trigger] trace_step_ok(
                        tr.voc(),
                        tr.merge_rules@.skip(rules0),
                        ms,
                        ps,
                        ls,
                        k,
                    ),
                !done ==> ps.len() == it,
                done ==> tr.stream@.len() < 2,
                it == 0 && !done ==> tr.stream@ == init_stream && tr.merge_rules@.len() == rules0,
                (it > 0 || done) && init_stream.len() >= 2 ==> tr.merge_rules@.len() > rules0,
                init_stream.len() < 2 ==> tr.stream@ == init_stream && tr.voc() == init_voc
                    && tr.merge_rules@ == base.merge_rules@,
            decreases iterations - it, (if done {
                0int
            } else {
                1int
            }),
        {
            let ghost pre = tr;
            let ghost ms0 = ms;
            let ghost ps0 = ps;
            let ghost ls0 = ls;
            match tr.step() {
                Some(pair) => {
                    proof {
                        ms = ms.push(tr.stream@);
                        ps = ps.push(pair);
                        ls = ls.push(tr.voc().len() as int);
                        assert forall|i: int|
                            0 <= i < init_voc.len() implies #[trigger] tr.voc()[i]
                            == init_voc[i] by {
                            assert(tr.voc()[i] == pre.voc()[i]);
                        }
                        assert(tr.merge_rules@.skip(rules0).len() == ps.len());
                        assert forall|i: int|
                            0 <= i < ps0.len() implies #[trigger] tr.merge_rules@.skip(rules0)[i]
                            == pre.merge_rules@.skip(rules0)[i] by {
                            assert(tr.merge_rules@[rules0 + i] == pre.merge_rules@[rules0 + i]);
                        }
                        assert forall|k: int|
                            0 <= k < ps.len() implies #[trigger] trace_step_ok(
                            tr.voc(),
                            tr.merge_rules@.skip(rules0),
                            ms,
                            ps,
                            ls,
                            k,
                        ) by {
                            if k < ps0.len() {
                                assert(trace_step_ok(
                                    pre.voc(),
                                    pre.merge_rules@.skip(rules0),
                                    ms0,
                                    ps0,
                                    ls0,
                                    k,
                                ));
                                lemma_trace_step_preserved(
                                    pre.voc(),
                                    tr.voc(),
                                    pre.merge_rules@.skip(rules0),
                                    tr.merge_rules@.skip(rules0),
                                    ms0,
                                    ms,
                                    ps0,
                                    ps,
                                    ls0,
                                    ls,
                                    k,
                                );
                            } else {
                                assert(ms[k] == ms0[ms0.len() - 1]);
                                assert(ms[k] == pre.stream@);
                                assert(ls[k] == pre.voc().len());
                                assert(ls[k + 1] == tr.voc().len());
                                assert(ms[k + 1] == tr.stream@);
                                assert(ps[k] == pair);
                                assert(tr.merge_rules@.skip(rules0)[k] == tr.merge_rules@[rules0
                                    + k]);
                                assert(tr.merge_rules@[rules0 + k] == tr.merge_rules@.last());
                                assert(tr.voc()[pair.0 as int] == pre.voc()[pair.0 as int]);
                                assert(tr.voc()[pair.1 as int] == pre.voc()[pair.1 as int]);
                            }
                        }
                    }
                    it += 1;
                },
                None => {
                    done = true;
                },
            }
        }
        let ghost tr_final = tr;
        let r = tr.finish();
        proof {
            assert forall|k: int|
                0 <= k < ps.len() implies #[trigger] trace_step_ok(
                r.vocab(),
                r.merge_rules@.skip(rules0),
                ms,
                ps,
                ls,
                k,
            ) by {
                assert(trace_step_ok(
                    tr_final.voc(),
                    tr_final.merge_rules@.skip(rules0),
                    ms,
                    ps,
                    ls,
                    k,
                ));
                assert(r.vocab() == tr_final.voc());
                assert(r.merge_rules@ == tr_final.merge_rules@);
            }
            assert(r.merge_rules@.skip(rules0).len() == ps.len());
            if init_stream.len() < 2 {
                assert(r.vocab() == init_voc);
                assert(r.merge_rules@ =~= base.merge_rules@);
            }
            assert(training_trace_ok(r.vocab(), r.merge_rules@.skip(rules0), ms, ps, ls));
            assert(r.merge_rules@.len() - rules0 < iterations ==> ms[ms.len() - 1].len() < 2) by {
                if r.merge_rules@.len() - rules0 < iterations && !done {
                    assert(ps.len() == it);
                }
            }
            assert({
                &&& training_trace_ok(r.vocab(), r.merge_rules@.skip(rules0), ms, ps, ls)
                &&& ms[0] == init_stream
                &&& ls[0] == base.vocab().len()
                &&& ls[ls.len() - 1] == r.vocab().len()
                &&& (r.merge_rules@.len() - rules0 < iterations ==> ms[ms.len() - 1].len() < 2)
            });
        }
        Ok(r)
    }
}

} // verus!
