use vstd::prelude::*;

use crate::model::{has_token, sum_weights, Model, Node};

verus! {

/// Why a generation request cannot be served.
#[derive(Debug, PartialEq, Eq, Structural)]
pub enum Error {
    /// The model holds no node at all, so there is nothing to start from.
    EmptyModel,
    /// A node carries transition data that no construction could produce:
    /// mismatched lengths, a zero weight, an unresolved successor, or an
    /// overflowing weight sum.
    InconsistentWeights,
}

/// Declares rand's standard generator so that a value of it can be owned by
/// a `Generator` and passed through verified signatures.
#[verifier::external_type_specification]
#[verifier::external_body]
pub struct ExStdRng(rand::rngs::StdRng);

/// Relies on rand::RngExt::random_range over `0..n`: it returns a uniformly
/// distributed value of that non-empty range, so the result is below `n`.
#[verifier::external_body]
fn random_below(rng: &mut rand::rngs::StdRng, n: usize) -> (r: usize)
    requires
        n > 0,
    ensures
        r < n,
{
    rand::RngExt::random_range(rng, 0..n)
}

/// Relies on rand::distr::weighted::WeightedIndex: `new` succeeds on a
/// non-empty list of positive weights whose sum fits in `u32`, and sampling
/// returns the index of one of the weights, never one of weight zero.
#[verifier::external_body]
fn sample_weighted(rng: &mut rand::rngs::StdRng, weights: &Vec<u32>) -> (r: usize)
    requires
        weights@.len() > 0,
        forall|c: int| 0 <= c < weights@.len() ==> weights@[c] > 0,
        sum_weights(weights@) <= u32::MAX,
    ensures
        r < weights@.len(),
        weights@[r as int] > 0,
{
    let dist = rand::distr::weighted::WeightedIndex::new(weights).unwrap();
    rand::distr::Distribution::sample(&dist, rng)
}

/// Token `t` is what the transition rule can emit from node `k` of `ns`:
/// one of the node's recorded successors, or the node's own token when it
/// has no successor at all.
pub open spec fn candidate_of(ns: Seq<Node>, k: int, t: Seq<char>) -> bool {
    if ns[k].successors@.len() > 0 {
        exists|c: int| 0 <= c < ns[k].successors@.len() && ns[k].successors@[c]@ == t
    } else {
        t == ns[k].item@
    }
}

/// A walk over a borrowed chain model: samples one token per step, weighted
/// by observed frequency, and resets to a fresh random start node whenever a
/// token would repeat within the current run.
pub struct Generator<'a> {
    model: &'a Model,
    used: Vec<String>,
    last: Option<usize>,
    rng: rand::rngs::StdRng,
}

impl<'a> Generator<'a> {
    /// The nodes of the model being walked.
    pub closed spec fn nodes(&self) -> Seq<Node> {
        self.model.nodes@
    }

    /// The distinct tokens emitted since the last reset.
    pub closed spec fn seen(&self) -> Set<Seq<char>> {
        Set::new(|t: Seq<char>| exists|k: int| 0 <= k < self.used@.len() && self.used@[k]@ == t)
    }

    /// The node the next step will continue from, if the walk is anchored.
    pub closed spec fn cursor(&self) -> Option<int> {
        match self.last {
            Some(i) => Some(i as int),
            None => None,
        }
    }

    pub closed spec fn inv(&self) -> bool {
        &&& self.model.wf()
        &&& self.nodes().len() > 0
        &&& match self.last {
            Some(i) => (i as int) < self.nodes().len(),
            None => true,
        }
    }

    /// Start a walk over `model`, driven by `rng`.  Fails with `EmptyModel`
    /// on a model without nodes and with `InconsistentWeights` on transition
    /// data that no construction could have produced; succeeds otherwise.
    pub fn new(model: &'a Model, rng: rand::rngs::StdRng) -> (r: Result<Generator<'a>, Error>)
        ensures
            r is Ok <==> (model.nodes@.len() > 0 && model.wf()),
            model.nodes@.len() == 0 ==> r == Err::<Generator<'a>, Error>(Error::EmptyModel),
            model.nodes@.len() > 0 && !model.wf() ==> r == Err::<Generator<'a>, Error>(
                Error::InconsistentWeights,
            ),
            match r {
                Ok(g) => g.inv() && g.nodes() == model.nodes@ && g.seen() == Set::<
                    Seq<char>,
                >::empty() && g.cursor() is None,
                Err(_) => true,
            },
    {
        if model.nodes.len() == 0 {
            return Err(Error::EmptyModel);
        }
        if !model.validate() {
            return Err(Error::InconsistentWeights);
        }
        let g = Generator { model, used: Vec::new(), last: None, rng };
        proof {
            assert(g.seen() =~= Set::<Seq<char>>::empty());
        }
        Ok(g)
    }
}

/// A token the transition rule produced from node `k`: a weighted sample of
/// the node's successors, or the node's own token when it has none.
fn candidate_token(model: &Model, k: usize, rng: &mut rand::rngs::StdRng) -> (t: String)
    requires
        model.wf(),
        (k as int) < model.nodes@.len(),
    ensures
        candidate_of(model.nodes@, k as int, t@),
        has_token(model.nodes@, t@),
{
    let node = &model.nodes[k];
    if node.successors.len() == 0 {
        let t = node.item.clone();
        proof {
            assert(model.nodes@[k as int].item@ == t@);
        }
        t
    } else {
        let c = sample_weighted(rng, &node.weights);
        let t = node.successors[c].clone();
        proof {
            assert(model.nodes@[k as int].successors@[c as int]@ == t@);
        }
        t
    }
}

/// Whether `t` occurs in the run recorded by `used`.
fn contains_token(used: &Vec<String>, t: &String) -> (b: bool)
    ensures
        b == (exists|k: int| 0 <= k < used@.len() && used@[k]@ == t@),
{
    let mut k: usize = 0;
    while k < used.len()
        invariant
            k <= used@.len(),
            forall|d: int| 0 <= d < k ==> used@[d]@ != t@,
        decreases used@.len() - k,
    {
        if used[k] == *t {
            return true;
        }
        k += 1;
    }
    false
}

/// The index of the node representing `t`, which must exist in the model.
fn index_of_token(model: &Model, t: &String) -> (j: usize)
    requires
        has_token(model.nodes@, t@),
    ensures
        (j as int) < model.nodes@.len(),
        model.nodes@[j as int].item@ == t@,
{
    match crate::model::find_token(&model.nodes, t) {
        Some(j) => j,
        None => {
            proof {
                let p = choose|p: int|
                    0 <= p < model.nodes@.len() && model.nodes@[p].item@ == t@;
                assert(false);
            }
            0
        },
    }
}

impl<'a> Generator<'a> {
    /// Emit one token.  The token always names a node of the model and is
    /// always a legal product of the transition rule from some node.  Either
    /// the walk continued: the token was not yet emitted in the current run,
    /// is recorded into it, and follows the cursor's node when one was set;
    /// or a collision forced a reset and the token opens a fresh run as the
    /// product of a fresh random start node.  The cursor then rests on the
    /// emitted token's node.
    pub fn next(&mut self) -> (r: String)
        requires
            old(self).inv(),
        ensures
            final(self).inv(),
            final(self).nodes() == old(self).nodes(),
            has_token(final(self).nodes(), r@),
            exists|k: int|
                0 <= k < final(self).nodes().len() && candidate_of(final(self).nodes(), k, r@),
            match final(self).cursor() {
                Some(j) => 0 <= j < final(self).nodes().len() && final(self).nodes()[j].item@
                    == r@,
                None => false,
            },
            ({
                ||| {
                    &&& !old(self).seen().contains(r@)
                    &&& final(self).seen() == old(self).seen().insert(r@)
                    &&& match old(self).cursor() {
                        Some(i) => candidate_of(old(self).nodes(), i, r@),
                        None => true,
                    }
                }
                ||| final(self).seen() == Set::<Seq<char>>::empty().insert(r@)
            }),
    {
        let n = self.model.nodes.len();
        let source: usize = match self.last {
            Some(i) => i,
            None => random_below(&mut self.rng, n),
        };
        let cand = candidate_token(self.model, source, &mut self.rng);
        if contains_token(&self.used, &cand) {
            // the candidate would repeat inside this run: clear the run and
            // re-anchor at a fresh random start node
            self.used.clear();
            let source2 = random_below(&mut self.rng, n);
            let cand2 = candidate_token(self.model, source2, &mut self.rng);
            let j = index_of_token(self.model, &cand2);
            self.used.push(cand2.clone());
            self.last = Some(j);
            proof {
                assert forall|t: Seq<char>|
                    self.seen().contains(t) <==> Set::<Seq<char>>::empty().insert(
                        cand2@,
                    ).contains(t) by {
                    if self.seen().contains(t) {
                        let k = choose|k: int|
                            0 <= k < self.used@.len() && self.used@[k]@ == t;
                        assert(t == cand2@);
                    }
                    if t == cand2@ {
                        assert(self.used@[0]@ == t);
                    }
                }
                assert(self.seen() =~= Set::<Seq<char>>::empty().insert(cand2@));
            }
            cand2
        } else {
            let j = index_of_token(self.model, &cand);
            self.used.push(cand.clone());
            self.last = Some(j);
            proof {
                assert(!old(self).seen().contains(cand@));
                assert forall|t: Seq<char>|
                    self.seen().contains(t) <==> old(self).seen().insert(cand@).contains(t) by {
                    if self.seen().contains(t) {
                        let k = choose|k: int|
                            0 <= k < self.used@.len() && self.used@[k]@ == t;
                        if k < old(self).used@.len() {
                            assert(old(self).seen().contains(t));
                        } else {
                            assert(t == cand@);
                        }
                    }
                    if old(self).seen().contains(t) {
                        let k = choose|k: int|
                            0 <= k < old(self).used@.len() && old(self).used@[k]@ == t;
                        assert(self.used@[k]@ == t);
                    }
                    if t == cand@ {
                        assert(self.used@[self.used@.len() - 1]@ == t);
                    }
                }
                assert(self.seen() =~= old(self).seen().insert(cand@));
            }
            cand
        }
    }
}

/// A model with a single node and no recorded successors can emit only that
/// node's own token, whatever the random source does: the walk self-loops on
/// the token forever and never fails.
pub proof fn lemma_single_node_self_loop(ns: Seq<Node>, k: int, t: Seq<char>)
    requires
        ns.len() == 1,
        ns[0].successors@.len() == 0,
        0 <= k < ns.len(),
        candidate_of(ns, k, t),
    ensures
        t == ns[0].item@,
{
}

} // verus!
