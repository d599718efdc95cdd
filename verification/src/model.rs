use vstd::prelude::*;

verus! {

/// One transition record of the chain: `weights[c]` counts how many times
/// `successors[c]` immediately followed `item` in the corpus the model was
/// built from.  The two sequences run in parallel.
pub struct Node {
    pub item: String,
    pub successors: Vec<String>,
    pub weights: Vec<u32>,
}

/// A first-order Markov chain over tokens: exactly one node per distinct
/// token of the corpus.  Built once by `Model::new` and read-only afterwards.
pub struct Model {
    pub nodes: Vec<Node>,
}

/// How many positions of `toks` hold token `a` immediately followed by `b`.
pub open spec fn bigram_count(toks: Seq<Seq<char>>, a: Seq<char>, b: Seq<char>) -> nat
    decreases toks.len(),
{
    if toks.len() < 2 {
        0
    } else {
        bigram_count(toks.drop_last(), a, b) + (if toks[toks.len() - 2] == a
            && toks[toks.len() - 1] == b {
            1nat
        } else {
            0nat
        })
    }
}

/// How many positions of `toks` hold token `a` immediately followed by any
/// token at all (every position but the last one counts its token once).
pub open spec fn follow_count(toks: Seq<Seq<char>>, a: Seq<char>) -> nat
    decreases toks.len(),
{
    if toks.len() < 2 {
        0
    } else {
        follow_count(toks.drop_last(), a) + (if toks[toks.len() - 2] == a {
            1nat
        } else {
            0nat
        })
    }
}

/// Sum of a sequence of weights, as an unbounded integer.
pub open spec fn sum_weights(ws: Seq<u32>) -> int
    decreases ws.len(),
{
    if ws.len() == 0 {
        0
    } else {
        sum_weights(ws.drop_last()) + ws.last()
    }
}

/// The character sequences of a sequence of owned tokens.
pub open spec fn token_views(items: Seq<String>) -> Seq<Seq<char>> {
    items.map_values(|s: String| s@)
}

impl Node {
    /// The parallel sequences line up, every recorded weight is positive,
    /// and the weights can be summed without overflowing a `u32`.
    pub open spec fn wf(&self) -> bool {
        &&& self.successors@.len() == self.weights@.len()
        &&& forall|c: int| 0 <= c < self.weights@.len() ==> self.weights@[c] > 0
        &&& sum_weights(self.weights@) <= u32::MAX
    }

    /// No successor token is recorded twice on one node.
    pub open spec fn distinct_successors(&self) -> bool {
        forall|c: int, d: int|
            0 <= c < d < self.successors@.len() ==> self.successors@[c]@ != self.successors@[d]@
    }

    /// The node carries exactly the transition statistics of `toks` for its
    /// own token: one entry per observed successor, counted exactly, and the
    /// weights sum to the number of times the token was followed at all.
    pub open spec fn counts_match(&self, toks: Seq<Seq<char>>) -> bool {
        &&& forall|c: int|
            0 <= c < self.successors@.len() ==> self.weights@[c] == bigram_count(
                toks,
                self.item@,
                self.successors@[c]@,
            )
        &&& forall|b: Seq<char>|
            bigram_count(toks, self.item@, b) > 0 <==> (exists|c: int|
                0 <= c < self.successors@.len() && self.successors@[c]@ == b)
        &&& sum_weights(self.weights@) == follow_count(toks, self.item@)
    }
}

/// Some node of `ns` represents token `t`.
pub open spec fn has_token(ns: Seq<Node>, t: Seq<char>) -> bool {
    exists|p: int| 0 <= p < ns.len() && ns[p].item@ == t
}

impl Model {
    /// Some node of the model represents token `t`.
    pub open spec fn has_token(&self, t: Seq<char>) -> bool {
        has_token(self.nodes@, t)
    }

    /// Structural soundness that sampling relies on: every node is
    /// well-formed and every recorded successor has a node of its own.
    pub open spec fn wf(&self) -> bool {
        &&& forall|p: int| 0 <= p < self.nodes@.len() ==> self.nodes@[p].wf()
        &&& forall|p: int, c: int|
            0 <= p < self.nodes@.len() && 0 <= c < self.nodes@[p].successors@.len()
                ==> self.has_token(self.nodes@[p].successors@[c]@)
    }

    /// No token is represented by two nodes.
    pub open spec fn distinct_items(&self) -> bool {
        forall|p: int, q: int|
            0 <= p < q < self.nodes@.len() ==> self.nodes@[p].item@ != self.nodes@[q].item@
    }

    /// The model is exactly the first-order transition statistics of `toks`:
    /// one node per distinct token, and every node counts its successors
    /// exactly as they occur in `toks`.
    pub open spec fn represents(&self, toks: Seq<Seq<char>>) -> bool {
        &&& self.wf()
        &&& self.distinct_items()
        &&& forall|p: int| 0 <= p < self.nodes@.len() ==> self.nodes@[p].distinct_successors()
        &&& forall|t: Seq<char>| self.has_token(t) <==> toks.contains(t)
        &&& forall|p: int| 0 <= p < self.nodes@.len() ==> self.nodes@[p].counts_match(toks)
    }
}

/// Appending one token adds one to the bigram count of `(a, b)` exactly when
/// the sequence ended in `a` and the new token is `b`.
pub proof fn lemma_bigram_push(toks: Seq<Seq<char>>, t: Seq<char>, a: Seq<char>, b: Seq<char>)
    ensures
        bigram_count(toks.push(t), a, b) == bigram_count(toks, a, b) + (if toks.len() >= 1
            && toks.last() == a && t == b {
            1nat
        } else {
            0nat
        }),
{
    let p = toks.push(t);
    if toks.len() == 0 {
        assert(p.len() < 2);
    } else {
        assert(p.drop_last() =~= toks);
        assert(p[p.len() - 2] == toks.last());
        assert(p[p.len() - 1] == t);
    }
}

/// Appending one token adds one to the follow count of `a` exactly when the
/// sequence ended in `a`.
pub proof fn lemma_follow_push(toks: Seq<Seq<char>>, t: Seq<char>, a: Seq<char>)
    ensures
        follow_count(toks.push(t), a) == follow_count(toks, a) + (if toks.len() >= 1
            && toks.last() == a {
            1nat
        } else {
            0nat
        }),
{
    let p = toks.push(t);
    if toks.len() == 0 {
        assert(p.len() < 2);
    } else {
        assert(p.drop_last() =~= toks);
        assert(p[p.len() - 2] == toks.last());
    }
}

/// A token that occurs nowhere before the final position is never followed.
pub proof fn lemma_follow_absent(toks: Seq<Seq<char>>, a: Seq<char>)
    requires
        forall|k: int| 0 <= k < toks.len() - 1 ==> toks[k] != a,
    ensures
        follow_count(toks, a) == 0,
    decreases toks.len(),
{
    if toks.len() >= 2 {
        assert(toks[toks.len() - 2] != a);
        lemma_follow_absent(toks.drop_last(), a);
    }
}

/// A token that occurs nowhere before the final position starts no bigram.
pub proof fn lemma_bigram_absent(toks: Seq<Seq<char>>, a: Seq<char>, b: Seq<char>)
    requires
        forall|k: int| 0 <= k < toks.len() - 1 ==> toks[k] != a,
    ensures
        bigram_count(toks, a, b) == 0,
    decreases toks.len(),
{
    if toks.len() >= 2 {
        assert(toks[toks.len() - 2] != a);
        lemma_bigram_absent(toks.drop_last(), a, b);
    }
}

/// The follow count never exceeds the number of non-final positions.
pub proof fn lemma_follow_le(toks: Seq<Seq<char>>, a: Seq<char>)
    ensures
        follow_count(toks, a) <= (if toks.len() == 0 {
            0int
        } else {
            toks.len() - 1
        }),
    decreases toks.len(),
{
    if toks.len() >= 2 {
        lemma_follow_le(toks.drop_last(), a);
    }
}

/// A sum of weights dominates each of its (non-negative) summands.
pub proof fn lemma_sum_bounds(ws: Seq<u32>)
    ensures
        sum_weights(ws) >= 0,
        forall|c: int| 0 <= c < ws.len() ==> ws[c] <= sum_weights(ws),
    decreases ws.len(),
{
    if ws.len() > 0 {
        lemma_sum_bounds(ws.drop_last());
        assert forall|c: int| 0 <= c < ws.len() implies ws[c] <= sum_weights(ws) by {
            if c < ws.len() - 1 {
                assert(ws[c] == ws.drop_last()[c]);
            }
        }
    }
}

/// Raising one weight raises the sum by the same difference.
pub proof fn lemma_sum_update(ws: Seq<u32>, c: int, v: u32)
    requires
        0 <= c < ws.len(),
    ensures
        sum_weights(ws.update(c, v)) == sum_weights(ws) - ws[c] + v,
    decreases ws.len(),
{
    let u = ws.update(c, v);
    if c == ws.len() - 1 {
        assert(u.drop_last() =~= ws.drop_last());
        assert(u.last() == v);
    } else {
        assert(u.drop_last() =~= ws.drop_last().update(c, v));
        assert(u.last() == ws.last());
        lemma_sum_update(ws.drop_last(), c, v);
        assert(ws.drop_last()[c] == ws[c]);
    }
}

/// A prefix of a weight sequence never sums to more than the whole.
pub proof fn lemma_sum_take_le(ws: Seq<u32>, k: int)
    requires
        0 <= k <= ws.len(),
    ensures
        sum_weights(ws.take(k)) <= sum_weights(ws),
    decreases ws.len(),
{
    if k < ws.len() {
        assert(ws.drop_last().take(k) =~= ws.take(k));
        lemma_sum_take_le(ws.drop_last(), k);
    } else {
        assert(ws.take(k) =~= ws);
    }
}

/// Appending a weight adds it to the sum.
pub proof fn lemma_sum_push(ws: Seq<u32>, v: u32)
    ensures
        sum_weights(ws.push(v)) == sum_weights(ws) + v,
{
    assert(ws.push(v).drop_last() =~= ws);
    assert(ws.push(v).last() == v);
}

impl Model {
    /// Build the chain model of `items` in one pass: for every position but
    /// the last, count the transition to the next token, and give every
    /// distinct token a node even when it is never followed.
    #[verifier::rlimit(100)]
    pub fn new(items: &Vec<String>) -> (m: Model)
        requires
            items@.len() <= u32::MAX,
        ensures
            m.represents(token_views(items@)),
    {
        let ghost toks = token_views(items@);
        let mut nodes: Vec<Node> = Vec::new();
        let mut last: Option<usize> = None;
        let mut i: usize = 0;
        while i < items.len()
            invariant
                items@.len() <= u32::MAX,
                toks == token_views(items@),
                toks.len() == items@.len(),
                forall|k: int| 0 <= k < items@.len() ==> toks[k] == items@[k]@,
                i <= items@.len(),
                match last {
                    Some(li) => 1 <= i && (li as int) < nodes@.len() && nodes@[li as int].item@
                        == toks[i - 1],
                    None => i == 0,
                },
                forall|p: int| 0 <= p < nodes@.len() ==> nodes@[p].wf(),
                forall|p: int| 0 <= p < nodes@.len() ==> nodes@[p].distinct_successors(),
                forall|p: int, q: int|
                    0 <= p < q < nodes@.len() ==> nodes@[p].item@ != nodes@[q].item@,
                forall|t: Seq<char>| has_token(nodes@, t) <==> toks.take(i as int).contains(t),
                forall|p: int, c: int|
                    0 <= p < nodes@.len() && 0 <= c < nodes@[p].successors@.len() ==> has_token(
                        nodes@,
                        nodes@[p].successors@[c]@,
                    ),
                forall|p: int| 0 <= p < nodes@.len() ==> nodes@[p].counts_match(toks.take(i as int)),
            decreases items@.len() - i,
        {
            let ghost prefix = toks.take(i as int);
            let ghost prefix2 = toks.take(i + 1 as int);
            let item = &items[i];
            proof {
                assert(toks[i as int] == items@[i as int]@);
                assert(prefix2 =~= prefix.push(toks[i as int]));
            }
            let ghost before = nodes@;
            match last {
                Some(li) => {
                    add_transition(&mut nodes, li, item, Ghost(prefix));
                    proof {
                        assert(nodes@[li as int].counts_match(prefix2));
                        assert forall|p: int|
                            0 <= p < nodes@.len() && p != li implies nodes@[p].counts_match(
                            prefix2,
                        ) by {
                            let a = nodes@[p].item@;
                            assert(nodes@[p] == before[p]);
                            assert(a != prefix.last());
                            lemma_follow_push(prefix, toks[i as int], a);
                            assert forall|c: int|
                                0 <= c < nodes@[p].successors@.len() implies nodes@[p].weights@[c]
                                == bigram_count(prefix2, a, nodes@[p].successors@[c]@) by {
                                lemma_bigram_push(
                                    prefix,
                                    toks[i as int],
                                    a,
                                    nodes@[p].successors@[c]@,
                                );
                            }
                            assert forall|b: Seq<char>|
                                bigram_count(prefix2, a, b) > 0 <==> (exists|c: int|
                                    0 <= c < nodes@[p].successors@.len()
                                        && nodes@[p].successors@[c]@ == b) by {
                                lemma_bigram_push(prefix, toks[i as int], a, b);
                            }
                        }
                    }
                },
                None => {
                    proof {
                        assert forall|p: int|
                            0 <= p < nodes@.len() implies nodes@[p].counts_match(prefix2) by {
                            let a = nodes@[p].item@;
                            lemma_follow_push(prefix, toks[i as int], a);
                            assert forall|c: int|
                                0 <= c < nodes@[p].successors@.len() implies nodes@[p].weights@[c]
                                == bigram_count(prefix2, a, nodes@[p].successors@[c]@) by {
                                lemma_bigram_push(
                                    prefix,
                                    toks[i as int],
                                    a,
                                    nodes@[p].successors@[c]@,
                                );
                            }
                            assert forall|b: Seq<char>|
                                bigram_count(prefix2, a, b) > 0 <==> (exists|c: int|
                                    0 <= c < nodes@[p].successors@.len()
                                        && nodes@[p].successors@[c]@ == b) by {
                                lemma_bigram_push(prefix, toks[i as int], a, b);
                            }
                        }
                    }
                },
            }
            // all old items survived, all old counts now match the longer prefix
            proof {
                assert(nodes@.len() == before.len());
                assert(forall|p: int| 0 <= p < nodes@.len() ==> nodes@[p].item@ == before[p].item@);
                assert(forall|p: int| 0 <= p < nodes@.len() ==> nodes@[p].counts_match(prefix2));
                assert forall|t: Seq<char>| has_token(nodes@, t) <==> prefix.contains(t) by {
                    if has_token(nodes@, t) {
                        let p = choose|p: int| 0 <= p < nodes@.len() && nodes@[p].item@ == t;
                        assert(before[p].item@ == t);
                        assert(has_token(before, t));
                    }
                    if prefix.contains(t) {
                        assert(has_token(before, t));
                        let p = choose|p: int| 0 <= p < before.len() && before[p].item@ == t;
                        assert(nodes@[p].item@ == t);
                    }
                }
            }
            let ghost mid = nodes@;
            let idx: usize = match find_token(&nodes, item) {
                Some(p) => {
                    proof {
                        assert(has_token(nodes@, toks[i as int]));
                        assert(prefix.contains(toks[i as int]));
                    }
                    p
                },
                None => {
                    let fresh = Node {
                        item: item.clone(),
                        successors: Vec::new(),
                        weights: Vec::new(),
                    };
                    nodes.push(fresh);
                    proof {
                        let ni = mid.len() as int;
                        assert(nodes@[ni].item@ == toks[i as int]);
                        assert(forall|p: int| 0 <= p < mid.len() ==> nodes@[p] == mid[p]);
                        assert(!prefix.contains(toks[i as int]));
                        // a token absent from the prefix has no observed transitions yet
                        assert forall|k: int|
                            0 <= k < prefix2.len() - 1 implies prefix2[k] != toks[i as int] by {
                            assert(prefix2[k] == prefix[k]);
                        }
                        lemma_follow_absent(prefix2, toks[i as int]);
                        assert forall|b: Seq<char>|
                            bigram_count(prefix2, toks[i as int], b) == 0 by {
                            lemma_bigram_absent(prefix2, toks[i as int], b);
                        }
                        assert(nodes@[ni].counts_match(prefix2));
                        assert(nodes@[ni].wf());
                    }
                    nodes.len() - 1
                },
            };
            proof {
                // one node per token of the longer prefix, successors all resolved
                assert(nodes@[idx as int].item@ == toks[i as int]);
                assert forall|t: Seq<char>| has_token(nodes@, t) <==> prefix2.contains(t) by {
                    if has_token(nodes@, t) {
                        let p = choose|p: int| 0 <= p < nodes@.len() && nodes@[p].item@ == t;
                        if p < mid.len() {
                            assert(has_token(mid, t));
                            assert(prefix.contains(t));
                            let k = choose|k: int| 0 <= k < prefix.len() && prefix[k] == t;
                            assert(prefix2[k] == t);
                        } else {
                            assert(prefix2[i as int] == t);
                        }
                    }
                    if prefix2.contains(t) {
                        let k = choose|k: int| 0 <= k < prefix2.len() && prefix2[k] == t;
                        if k < i {
                            assert(prefix[k] == t);
                            assert(prefix.contains(t));
                            assert(has_token(mid, t));
                            let p = choose|p: int| 0 <= p < mid.len() && mid[p].item@ == t;
                            assert(nodes@[p].item@ == t);
                        } else {
                            assert(nodes@[idx as int].item@ == t);
                        }
                    }
                }
                assert forall|p: int, c: int|
                    0 <= p < nodes@.len() && 0 <= c < nodes@[p].successors@.len() implies has_token(
                    nodes@,
                    nodes@[p].successors@[c]@,
                ) by {
                    let s = nodes@[p].successors@[c]@;
                    if p < before.len() {
                        if exists|d: int|
                            0 <= d < before[p].successors@.len() && before[p].successors@[d]@ == s {
                            let d = choose|d: int|
                                0 <= d < before[p].successors@.len() && before[p].successors@[d]@
                                    == s;
                            assert(has_token(before, s));
                            let q = choose|q: int| 0 <= q < before.len() && before[q].item@ == s;
                            assert(nodes@[q].item@ == s);
                        } else {
                            assert(s == toks[i as int]);
                            assert(nodes@[idx as int].item@ == s);
                        }
                    }
                }
            }
            last = Some(idx);
            i += 1;
        }
        proof {
            assert(toks.take(items@.len() as int) =~= toks);
        }
        Model { nodes }
    }
}

impl Model {
    /// Defensive consistency check of the transition data: parallel
    /// sequences of equal length, positive weights summing to at most
    /// `u32::MAX`, and successors that all resolve to a node of the model.
    pub fn validate(&self) -> (ok: bool)
        ensures
            ok == self.wf(),
    {
        let mut p: usize = 0;
        while p < self.nodes.len()
            invariant
                p <= self.nodes@.len(),
                forall|q: int| 0 <= q < p ==> self.nodes@[q].wf(),
                forall|q: int, c: int|
                    0 <= q < p && 0 <= c < self.nodes@[q].successors@.len() ==> has_token(
                        self.nodes@,
                        self.nodes@[q].successors@[c]@,
                    ),
            decreases self.nodes@.len() - p,
        {
            let node = &self.nodes[p];
            if node.successors.len() != node.weights.len() {
                proof {
                    assert(!self.nodes@[p as int].wf());
                }
                return false;
            }
            let mut c: usize = 0;
            let mut sum: u64 = 0;
            while c < node.weights.len()
                invariant
                    (p as int) < self.nodes@.len(),
                    node == self.nodes@[p as int],
                    c <= node.weights@.len(),
                    sum == sum_weights(node.weights@.take(c as int)),
                    sum <= u32::MAX,
                    forall|d: int| 0 <= d < c ==> node.weights@[d] > 0,
                decreases node.weights@.len() - c,
            {
                let w = node.weights[c];
                proof {
                    assert(node.weights@.take(c + 1).drop_last() =~= node.weights@.take(c as int));
                    assert(node.weights@.take(c + 1).last() == node.weights@[c as int]);
                }
                if w == 0 {
                    proof {
                        assert(!self.nodes@[p as int].wf());
                    }
                    return false;
                }
                sum = sum + (w as u64);
                if sum > 0xffff_ffffu64 {
                    proof {
                        lemma_sum_take_le(node.weights@, c + 1);
                        assert(!self.nodes@[p as int].wf());
                    }
                    return false;
                }
                c += 1;
            }
            proof {
                assert(node.weights@.take(node.weights@.len() as int) =~= node.weights@);
            }
            let mut s: usize = 0;
            while s < node.successors.len()
                invariant
                    (p as int) < self.nodes@.len(),
                    node == self.nodes@[p as int],
                    s <= node.successors@.len(),
                    forall|d: int|
                        0 <= d < s ==> has_token(self.nodes@, node.successors@[d]@),
                decreases node.successors@.len() - s,
            {
                if find_token(&self.nodes, &node.successors[s]).is_none() {
                    proof {
                        assert(!has_token(self.nodes@, node.successors@[s as int]@));
                        assert(!self.wf());
                    }
                    return false;
                }
                s += 1;
            }
            p += 1;
        }
        true
    }
}

/// A model that represents an empty token sequence holds no nodes at all.
pub proof fn lemma_empty_input_empty_model(m: &Model, toks: Seq<Seq<char>>)
    requires
        m.represents(toks),
        toks.len() == 0,
    ensures
        m.nodes@.len() == 0,
{
    if m.nodes@.len() > 0 {
        assert(m.has_token(m.nodes@[0].item@));
        assert(toks.contains(m.nodes@[0].item@));
    }
}

/// A model built from a non-empty token sequence has at least one node.
pub proof fn lemma_nonempty_input_nonempty_model(m: &Model, toks: Seq<Seq<char>>)
    requires
        m.represents(toks),
        toks.len() > 0,
    ensures
        m.nodes@.len() > 0,
{
    assert(toks.contains(toks[0]));
    assert(m.has_token(toks[0]));
    let p = choose|p: int| 0 <= p < m.nodes@.len() && m.nodes@[p].item@ == toks[0];
    assert(0 < m.nodes@.len());
}

/// Index of `t` among the recorded successors of `node`, if any.
fn find_successor(node: &Node, t: &String) -> (r: Option<usize>)
    ensures
        match r {
            Some(c) => c < node.successors@.len() && node.successors@[c as int]@ == t@,
            None => forall|c: int| 0 <= c < node.successors@.len() ==> node.successors@[c]@ != t@,
        },
{
    let mut c: usize = 0;
    while c < node.successors.len()
        invariant
            c <= node.successors@.len(),
            forall|d: int| 0 <= d < c ==> node.successors@[d]@ != t@,
        decreases node.successors@.len() - c,
    {
        if node.successors[c] == *t {
            return Some(c);
        }
        c += 1;
    }
    None
}

/// Index of the node representing token `t`, if any.
pub(crate) fn find_token(nodes: &Vec<Node>, t: &String) -> (r: Option<usize>)
    ensures
        match r {
            Some(p) => p < nodes@.len() && nodes@[p as int].item@ == t@,
            None => forall|p: int| 0 <= p < nodes@.len() ==> nodes@[p].item@ != t@,
        },
{
    let mut p: usize = 0;
    while p < nodes.len()
        invariant
            p <= nodes@.len(),
            forall|q: int| 0 <= q < p ==> nodes@[q].item@ != t@,
        decreases nodes@.len() - p,
    {
        if nodes[p].item == *t {
            return Some(p);
        }
        p += 1;
    }
    None
}

/// Record one observed transition from the token of `nodes[li]` to `t`,
/// turning a node that matches the statistics of `toks` into one that
/// matches the statistics of `toks` extended by `t`.
fn add_transition(nodes: &mut Vec<Node>, li: usize, t: &String, Ghost(toks): Ghost<Seq<Seq<char>>>)
    requires
        li < old(nodes)@.len(),
        1 <= toks.len() <= u32::MAX,
        toks.last() == old(nodes)@[li as int].item@,
        old(nodes)@[li as int].wf(),
        old(nodes)@[li as int].distinct_successors(),
        old(nodes)@[li as int].counts_match(toks),
    ensures
        final(nodes)@.len() == old(nodes)@.len(),
        forall|p: int| 0 <= p < old(nodes)@.len() && p != li ==> final(nodes)@[p] == old(nodes)@[p],
        final(nodes)@[li as int].item@ == old(nodes)@[li as int].item@,
        final(nodes)@[li as int].wf(),
        final(nodes)@[li as int].distinct_successors(),
        final(nodes)@[li as int].counts_match(toks.push(t@)),
        forall|c: int|
            0 <= c < final(nodes)@[li as int].successors@.len()
                ==> final(nodes)@[li as int].successors@[c]@ == t@ || (exists|d: int|
                0 <= d < old(nodes)@[li as int].successors@.len()
                    && old(nodes)@[li as int].successors@[d]@
                    == final(nodes)@[li as int].successors@[c]@),
{
    let ghost on = old(nodes)@[li as int];
    let ghost pushed = toks.push(t@);
    proof {
        lemma_sum_bounds(on.weights@);
        lemma_follow_le(toks, on.item@);
        lemma_follow_push(toks, t@, on.item@);
    }
    let found = find_successor(&nodes[li], t);
    match found {
        Some(ci) => {
            let w = nodes[li].weights[ci];
            assert(w <= sum_weights(on.weights@));
            let node = &mut nodes[li];
            node.weights[ci] = w + 1;
            proof {
                let nn = nodes@[li as int];
                assert(nn.item@ == on.item@);
                assert(nn.successors@ == on.successors@);
                assert(nn.weights@ =~= on.weights@.update(ci as int, (w + 1) as u32));
                lemma_sum_update(on.weights@, ci as int, (w + 1) as u32);
                assert forall|c: int| 0 <= c < nn.successors@.len() implies nn.weights@[c]
                    == bigram_count(pushed, nn.item@, nn.successors@[c]@) by {
                    lemma_bigram_push(toks, t@, on.item@, on.successors@[c]@);
                }
                assert forall|b: Seq<char>|
                    bigram_count(pushed, nn.item@, b) > 0 <==> (exists|c: int|
                        0 <= c < nn.successors@.len() && nn.successors@[c]@ == b) by {
                    lemma_bigram_push(toks, t@, on.item@, b);
                    if b == t@ {
                        assert(nn.successors@[ci as int]@ == b);
                    } else {
                        if bigram_count(pushed, nn.item@, b) > 0 {
                            assert(bigram_count(toks, on.item@, b) > 0);
                            let c = choose|c: int|
                                0 <= c < on.successors@.len() && on.successors@[c]@ == b;
                            assert(nn.successors@[c]@ == b);
                        }
                        if exists|c: int| 0 <= c < nn.successors@.len() && nn.successors@[c]@
                            == b {
                            let c = choose|c: int|
                                0 <= c < nn.successors@.len() && nn.successors@[c]@ == b;
                            assert(on.successors@[c]@ == b);
                            assert(bigram_count(toks, on.item@, b) > 0);
                        }
                    }
                }
                assert(nn.counts_match(pushed));
            }
        },
        None => {
            let fresh = t.clone();
            let node = &mut nodes[li];
            node.successors.push(fresh);
            node.weights.push(1u32);
            proof {
                let nn = nodes@[li as int];
                assert(nn.successors@.len() == on.successors@.len() + 1);
                assert(nn.successors@.last()@ == t@);
                assert(nn.weights@ =~= on.weights@.push(1u32));
                lemma_sum_push(on.weights@, 1u32);
                // the new token started no bigram before this one
                assert(bigram_count(toks, on.item@, t@) == 0);
                assert forall|c: int| 0 <= c < nn.successors@.len() implies nn.weights@[c]
                    == bigram_count(pushed, nn.item@, nn.successors@[c]@) by {
                    lemma_bigram_push(toks, t@, on.item@, nn.successors@[c]@);
                    if c < on.successors@.len() {
                        assert(nn.successors@[c] == on.successors@[c]);
                        assert(nn.weights@[c] == on.weights@[c]);
                    }
                }
                assert forall|b: Seq<char>|
                    bigram_count(pushed, nn.item@, b) > 0 <==> (exists|c: int|
                        0 <= c < nn.successors@.len() && nn.successors@[c]@ == b) by {
                    lemma_bigram_push(toks, t@, on.item@, b);
                    if b == t@ {
                        assert(nn.successors@[nn.successors@.len() - 1]@ == b);
                    } else {
                        if bigram_count(pushed, nn.item@, b) > 0 {
                            assert(bigram_count(toks, on.item@, b) > 0);
                            let c = choose|c: int|
                                0 <= c < on.successors@.len() && on.successors@[c]@ == b;
                            assert(nn.successors@[c]@ == b);
                        }
                        if exists|c: int| 0 <= c < nn.successors@.len() && nn.successors@[c]@ == b {
                            let c = choose|c: int|
                                0 <= c < nn.successors@.len() && nn.successors@[c]@ == b;
                            assert(c < on.successors@.len());
                            assert(on.successors@[c]@ == b);
                        }
                    }
                }
                assert(nn.counts_match(pushed));
            }
        },
    }
}

} // verus!

