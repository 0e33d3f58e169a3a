//! The context chain: nodes keyed by a token context, each holding a
//! weighted set of candidate next tokens, with exact lookup, backoff
//! resolution, and additive observation.

use vstd::prelude::*;
use crate::text::{lex_leq, str_lex_leq, str_is_prefix};

verus! {

/// One candidate continuation with its observation weight.
pub struct Candidate {
    pub token: String,
    pub weight: u64,
}

impl Candidate {
    /// A candidate as its characters and weight.
    pub open spec fn model(&self) -> (Seq<char>, u64) {
        (self.token@, self.weight)
    }
}

/// Preference between candidates: the higher weight wins; on equal weight
/// the token that sorts first lexicographically wins.
pub open spec fn prefer(a: (Seq<char>, u64), b: (Seq<char>, u64)) -> bool {
    a.1 > b.1 || (a.1 == b.1 && lex_leq(a.0, b.0))
}

/// The preferred candidate among the first `n` entries of `s`.
pub open spec fn top_upto(s: Seq<(Seq<char>, u64)>, n: int) -> (Seq<char>, u64)
    recommends
        1 <= n <= s.len(),
    decreases n,
{
    if n <= 1 {
        s[0]
    } else {
        let t = top_upto(s, n - 1);
        if prefer(s[n - 1], t) {
            s[n - 1]
        } else {
            t
        }
    }
}

/// The top candidate of a non-empty candidate sequence: maximal weight,
/// ties broken toward the lexicographically first token.
pub open spec fn top_of(s: Seq<(Seq<char>, u64)>) -> (Seq<char>, u64)
    recommends
        s.len() > 0,
{
    top_upto(s, s.len() as int)
}

/// The top candidate is one of the entries considered.
pub proof fn lemma_top_upto_is_member(s: Seq<(Seq<char>, u64)>, n: int)
    requires
        1 <= n <= s.len(),
    ensures
        exists|k: int| 0 <= k < n && top_upto(s, n) == s[k],
    decreases n,
{
    if n <= 1 {
        assert(top_upto(s, n) == s[0]);
    } else {
        lemma_top_upto_is_member(s, n - 1);
    }
}

/// No entry considered outweighs the top candidate.
pub proof fn lemma_top_upto_weight_maximal(s: Seq<(Seq<char>, u64)>, n: int)
    requires
        1 <= n <= s.len(),
    ensures
        forall|k: int| 0 <= k < n ==> (#[trigger] s[k]).1 <= top_upto(s, n).1,
    decreases n,
{
    if n > 1 {
        lemma_top_upto_weight_maximal(s, n - 1);
    }
}

/// Whether some entry of `s` carries the token `t`.
pub open spec fn has_tok(s: Seq<(Seq<char>, u64)>, t: Seq<char>) -> bool {
    exists|j: int| 0 <= j < s.len() && (#[trigger] s[j]).0 == t
}

/// The index of the entry carrying `t` (unique in a well-formed node).
pub open spec fn tok_ix(s: Seq<(Seq<char>, u64)>, t: Seq<char>) -> int {
    choose|j: int| 0 <= j < s.len() && (#[trigger] s[j]).0 == t
}

/// The weight recorded for token `t`, zero when absent.
pub open spec fn cand_weight(s: Seq<(Seq<char>, u64)>, t: Seq<char>) -> u64 {
    if has_tok(s, t) {
        s[tok_ix(s, t)].1
    } else {
        0
    }
}

/// An incremented weight, saturating at the largest representable value.
pub open spec fn bump(w: u64) -> u64 {
    if w < u64::MAX {
        (w + 1) as u64
    } else {
        w
    }
}

proof fn lemma_tok_ix_is(s: Seq<(Seq<char>, u64)>, j: int, t: Seq<char>)
    requires
        0 <= j < s.len(),
        s[j].0 == t,
        forall|x: int, y: int| 0 <= x < y < s.len() ==> (#[trigger] s[x]).0 != (#[trigger] s[y]).0,
    ensures
        has_tok(s, t),
        tok_ix(s, t) == j,
{
    assert(has_tok(s, t));
    let k = tok_ix(s, t);
    if k < j {
        assert(s[k].0 != s[j].0);
    } else if k > j {
        assert(s[j].0 != s[k].0);
    }
}

/// A node: one context, with the weighted candidate tokens seen after it.
pub struct ChainNode {
    pub context: Vec<String>,
    pub candidates: Vec<Candidate>,
}

impl ChainNode {
    /// The context as a sequence of token character sequences.
    pub open spec fn ctx(&self) -> Seq<Seq<char>> {
        self.context.deep_view()
    }

    /// The candidates as (characters, weight) pairs.
    pub open spec fn cands(&self) -> Seq<(Seq<char>, u64)> {
        self.candidates@.map_values(|c: Candidate| c.model())
    }

    /// A stored node is never empty, every weight is positive, and tokens
    /// are not repeated.
    pub open spec fn wf(&self) -> bool {
        &&& self.cands().len() > 0
        &&& forall|i: int| 0 <= i < self.cands().len() ==> (#[trigger] self.cands()[i]).1 > 0
        &&& forall|i: int, j: int| 0 <= i < j < self.cands().len() ==> (#[trigger] self.cands()[i]).0 != (#[trigger] self.cands()[j]).0
    }
}

/// The chain: all nodes, with pairwise distinct contexts.
pub struct PredictorChain {
    pub nodes: Vec<ChainNode>,
}

impl PredictorChain {
    /// Whether a node is stored for context `c`.
    pub open spec fn has_ctx(&self, c: Seq<Seq<char>>) -> bool {
        exists|i: int| 0 <= i < self.nodes@.len() && (#[trigger] self.nodes@[i]).ctx() == c
    }

    /// The index of the node for `c` (unique in a well-formed chain).
    pub open spec fn node_ix(&self, c: Seq<Seq<char>>) -> int {
        choose|i: int| 0 <= i < self.nodes@.len() && (#[trigger] self.nodes@[i]).ctx() == c
    }

    /// The candidates stored under context `c`.
    pub open spec fn cands_at(&self, c: Seq<Seq<char>>) -> Seq<(Seq<char>, u64)>
        recommends
            self.has_ctx(c),
    {
        self.nodes@[self.node_ix(c)].cands()
    }

    /// Every node is well formed and no context is stored twice.
    pub open spec fn wf(&self) -> bool {
        &&& forall|i: int| 0 <= i < self.nodes@.len() ==> (#[trigger] self.nodes@[i]).wf()
        &&& forall|i: int, j: int| 0 <= i < j < self.nodes@.len() ==> (#[trigger] self.nodes@[i]).ctx() != (#[trigger] self.nodes@[j]).ctx()
    }

    /// The weight recorded for `t` under context `c`; zero when either the
    /// node or the candidate is absent.
    pub open spec fn weight_of(&self, c: Seq<Seq<char>>, t: Seq<char>) -> u64 {
        if self.has_ctx(c) {
            cand_weight(self.cands_at(c), t)
        } else {
            0
        }
    }

    /// The context at which backoff resolution succeeds: `c` itself when a
    /// node exists, else the longest proper suffix (oldest tokens dropped
    /// first) with a node; `None` when not even the empty context has one.
    pub open spec fn backoff_ctx(&self, c: Seq<Seq<char>>) -> Option<Seq<Seq<char>>>
        decreases c.len(),
    {
        if self.has_ctx(c) {
            Some(c)
        } else if c.len() == 0 {
            None
        } else {
            self.backoff_ctx(c.drop_first())
        }
    }

    /// What backoff resolution returns: the top candidate of the first
    /// context length that has a node.
    pub open spec fn backoff_model(&self, c: Seq<Seq<char>>) -> Option<(Seq<char>, u64)> {
        match self.backoff_ctx(c) {
            Some(k) => Some(top_of(self.cands_at(k))),
            None => None,
        }
    }

    proof fn lemma_node_ix_is(&self, i: int, c: Seq<Seq<char>>)
        requires
            self.wf(),
            0 <= i < self.nodes@.len(),
            self.nodes@[i].ctx() == c,
        ensures
            self.has_ctx(c),
            self.node_ix(c) == i,
    {
        assert(self.has_ctx(c));
        let k = self.node_ix(c);
        if k < i {
            assert(self.nodes@[k].ctx() != self.nodes@[i].ctx());
        } else if k > i {
            assert(self.nodes@[i].ctx() != self.nodes@[k].ctx());
        }
    }

    /// An empty chain, ready for observations.
    pub fn new() -> (r: PredictorChain)
        ensures
            r.wf(),
            forall|c: Seq<Seq<char>>| !r.has_ctx(c),
    {
        PredictorChain { nodes: Vec::new() }
    }
}

/// Whether two token vectors hold the same characters, element for element.
pub(crate) fn ctx_eq(a: &Vec<String>, b: &Vec<String>) -> (r: bool)
    ensures
        r == (a.deep_view() == b.deep_view()),
{
    if a.len() != b.len() {
        proof {
            assert(a.deep_view().len() == a@.len());
            assert(b.deep_view().len() == b@.len());
        }
        return false;
    }
    let n = a.len();
    for i in 0..n
        invariant
            n == a@.len(),
            n == b@.len(),
            forall|j: int| 0 <= j < i ==> a.deep_view()[j] == b.deep_view()[j],
    {
        if !(a[i] == b[i]) {
            proof {
                assert(a.deep_view()[i as int] != b.deep_view()[i as int]);
            }
            return false;
        }
    }
    proof {
        assert(a.deep_view() =~= b.deep_view());
    }
    true
}

/// Whether two strings hold the same characters.
pub(crate) fn str_eq(a: &str, b: &str) -> (r: bool)
    ensures
        r == (a@ == b@),
{
    let r = str_is_prefix(a, b) && str_is_prefix(b, a);
    proof {
        if a@.is_prefix_of(b@) && b@.is_prefix_of(a@) {
            assert(a@ =~= b@);
        }
        if a@ == b@ {
            assert(a@ =~= b@.subrange(0, a@.len() as int));
        }
    }
    r
}

/// The index of the candidate carrying token `t`, if one is present.
fn find_tok(cands: &Vec<Candidate>, t: &str) -> (r: Option<usize>)
    ensures
        match r {
            Some(j) => j < cands@.len() && cands@[j as int].token@ == t@,
            None => forall|x: int| 0 <= x < cands@.len() ==> (#[trigger] cands@[x]).token@ != t@,
        },
{
    let n = cands.len();
    for j in 0..n
        invariant
            n == cands@.len(),
            forall|x: int| 0 <= x < j ==> (#[trigger] cands@[x]).token@ != t@,
    {
        if str_eq(cands[j].token.as_str(), t) {
            return Some(j);
        }
    }
    None
}

/// A copy of `v[start..end]`.
pub(crate) fn tail_clone(v: &Vec<String>, start: usize, end: usize) -> (r: Vec<String>)
    requires
        start <= end <= v@.len(),
    ensures
        r.deep_view() == v.deep_view().subrange(start as int, end as int),
{
    let mut out: Vec<String> = Vec::new();
    let mut i: usize = start;
    while i < end
        invariant
            start <= i <= end <= v@.len(),
            out@.len() == i - start,
            forall|j: int| 0 <= j < out@.len() ==> (#[trigger] out@[j])@ == v@[start + j]@,
        decreases end - i,
    {
        let x: String = v[i].clone();
        proof {
            assert(x == v@[i as int]);
        }
        out.push(x);
        i = i + 1;
    }
    proof {
        assert(out.deep_view() =~= v.deep_view().subrange(start as int, end as int));
    }
    out
}

/// The top candidate of a non-empty candidate vector: maximal weight, ties
/// broken toward the lexicographically first token.
pub fn top_candidate(cands: &Vec<Candidate>) -> (r: (String, u64))
    requires
        cands@.len() > 0,
    ensures
        (r.0@, r.1) == top_of(cands@.map_values(|c: Candidate| c.model())),
{
    let ghost s = cands@.map_values(|c: Candidate| c.model());
    let mut best_tok: String = cands[0].token.clone();
    let mut best_w: u64 = cands[0].weight;
    let mut k: usize = 1;
    while k < cands.len()
        invariant
            1 <= k <= cands@.len(),
            s == cands@.map_values(|c: Candidate| c.model()),
            (best_tok@, best_w) == top_upto(s, k as int),
        decreases cands@.len() - k,
    {
        let cw = cands[k].weight;
        let better = cw > best_w || (cw == best_w && str_lex_leq(cands[k].token.as_str(), best_tok.as_str()));
        if better {
            best_tok = cands[k].token.clone();
            best_w = cands[k].weight;
        }
        k = k + 1;
    }
    (best_tok, best_w)
}

impl PredictorChain {
    /// The index of the node for `context`, if one is stored.
    fn find_node(&self, context: &Vec<String>) -> (r: Option<usize>)
        requires
            self.wf(),
        ensures
            match r {
                Some(i) => i < self.nodes@.len() && self.nodes@[i as int].ctx() == context.deep_view()
                    && self.has_ctx(context.deep_view()) && self.node_ix(context.deep_view()) == i,
                None => !self.has_ctx(context.deep_view()),
            },
    {
        let n = self.nodes.len();
        for i in 0..n
            invariant
                n == self.nodes@.len(),
                self.wf(),
                forall|j: int| 0 <= j < i ==> (#[trigger] self.nodes@[j]).ctx() != context.deep_view(),
        {
            if ctx_eq(&self.nodes[i].context, context) {
                proof {
                    self.lemma_node_ix_is(i as int, context.deep_view());
                }
                return Some(i);
            }
        }
        None
    }

    /// The candidate set stored for exactly this context, if any; no
    /// backoff and no side effects.
    pub fn lookup<'a>(&'a self, context: &Vec<String>) -> (r: Option<&'a Vec<Candidate>>)
        requires
            self.wf(),
        ensures
            match r {
                Some(cs) => self.has_ctx(context.deep_view())
                    && cs@.map_values(|c: Candidate| c.model()) == self.cands_at(context.deep_view()),
                None => !self.has_ctx(context.deep_view()),
            },
    {
        match self.find_node(context) {
            Some(i) => Some(&self.nodes[i].candidates),
            None => None,
        }
    }

    /// Records one observation: the weight of `next` under `context` grows
    /// by one (saturating at the largest representable weight), creating
    /// the node or the candidate where absent; every other context and
    /// every other candidate keeps its weight.
    pub fn observe(&mut self, context: &Vec<String>, next: &str)
        requires
            old(self).wf(),
        ensures
            final(self).wf(),
            final(self).has_ctx(context.deep_view()),
            forall|c: Seq<Seq<char>>| c != context.deep_view() ==> (#[trigger] final(self).has_ctx(c)) == old(self).has_ctx(c),
            forall|c: Seq<Seq<char>>| c != context.deep_view() && old(self).has_ctx(c) ==> (#[trigger] final(self).cands_at(c)) == old(self).cands_at(c),
            forall|t: Seq<char>| t != next@ ==> (#[trigger] final(self).weight_of(context.deep_view(), t)) == old(self).weight_of(context.deep_view(), t),
            final(self).weight_of(context.deep_view(), next@) == bump(old(self).weight_of(context.deep_view(), next@)),
    {
        let ghost cv = context.deep_view();
        let ghost tv = next@;
        let ghost n0 = old(self).nodes@;
        match self.find_node(context) {
            Some(i) => {
                let mut node = self.nodes.remove(i);
                let ghost old_node = node;
                let ghost s = old_node.cands();
                proof {
                    assert(old_node.wf());
                }
                match find_tok(&node.candidates, next) {
                    Some(j) => {
                        let mut cand = node.candidates.remove(j);
                        let ghost w0 = cand.weight;
                        if cand.weight < u64::MAX {
                            cand.weight = cand.weight + 1;
                        }
                        proof {
                            assert(cand.weight == bump(w0));
                        }
                        node.candidates.insert(j, cand);
                        proof {
                            assert(node.candidates@ =~= old_node.candidates@.update(j as int, cand));
                            assert(node.cands() =~= s.update(j as int, (tv, bump(w0))));
                            lemma_tok_ix_is(s, j as int, tv);
                        }
                    },
                    None => {
                        node.candidates.push(Candidate { token: next.to_owned(), weight: 1 });
                        proof {
                            assert(node.cands() =~= s.push((tv, 1u64)));
                            if has_tok(s, tv) {
                                let x = tok_ix(s, tv);
                                assert(old_node.candidates@[x].token@ == tv);
                                assert(false);
                            }
                        }
                    },
                }
                self.nodes.insert(i, node);
                proof {
                    assert(self.nodes@ =~= n0.update(i as int, node));
                    assert(node.ctx() == cv);
                    self.lemma_observe_existing(*old(self), i as int, node, s, cv, tv);
                }
            },
            None => {
                let mut cands: Vec<Candidate> = Vec::new();
                cands.push(Candidate { token: next.to_owned(), weight: 1 });
                let fresh = ChainNode { context: tail_clone(context, 0, context.len()), candidates: cands };
                proof {
                    assert(fresh.ctx() =~= cv);
                    assert(fresh.cands() =~= seq![(tv, 1u64)]);
                }
                self.nodes.push(fresh);
                proof {
                    self.lemma_observe_fresh(*old(self), fresh, cv, tv);
                }
            },
        }
    }

    /// After replacing the node for `cv` at index `i` with one whose
    /// candidates are the old ones with `tv` bumped or appended, the chain
    /// is still well formed and only that one weight changed.
    proof fn lemma_observe_existing(
        &self,
        prev: PredictorChain,
        i: int,
        node: ChainNode,
        s: Seq<(Seq<char>, u64)>,
        cv: Seq<Seq<char>>,
        tv: Seq<char>,
    )
        requires
            prev.wf(),
            0 <= i < prev.nodes@.len(),
            prev.nodes@[i].ctx() == cv,
            s == prev.nodes@[i].cands(),
            self.nodes@ == prev.nodes@.update(i, node),
            node.ctx() == cv,
            ({
                ||| (has_tok(s, tv) && node.cands() == s.update(tok_ix(s, tv), (tv, bump(s[tok_ix(s, tv)].1))))
                ||| (!has_tok(s, tv) && node.cands() == s.push((tv, 1u64)))
            }),
        ensures
            self.wf(),
            self.has_ctx(cv),
            forall|c: Seq<Seq<char>>| c != cv ==> (#[trigger] self.has_ctx(c)) == prev.has_ctx(c),
            forall|c: Seq<Seq<char>>| c != cv && prev.has_ctx(c) ==> (#[trigger] self.cands_at(c)) == prev.cands_at(c),
            forall|t: Seq<char>| t != tv ==> (#[trigger] self.weight_of(cv, t)) == prev.weight_of(cv, t),
            self.weight_of(cv, tv) == bump(prev.weight_of(cv, tv)),
    {
        let s1 = node.cands();
        assert(prev.nodes@[i].wf());

        // The new candidate list is well formed, and its tokens agree with
        // the old ones except possibly one appended `tv`.
        if has_tok(s, tv) {
            let j = tok_ix(s, tv);
            assert(s1.len() == s.len());
            assert(forall|x: int| 0 <= x < s.len() ==> (#[trigger] s1[x]).0 == s[x].0);
            assert(forall|x: int| 0 <= x < s.len() && x != j ==> (#[trigger] s1[x]).1 == s[x].1);
            assert(s1[j].1 == bump(s[j].1) && s[j].1 > 0);
        } else {
            assert(forall|x: int| 0 <= x < s.len() ==> (#[trigger] s1[x]) == s[x]);
            assert(s1[s.len() as int] == (tv, 1u64));
            assert(forall|x: int| 0 <= x < s.len() ==> (#[trigger] s[x]).0 != tv);
        }
        assert(node.wf());
        assert(forall|k: int| 0 <= k < self.nodes@.len() ==> (#[trigger] self.nodes@[k]).wf());
        assert(forall|k: int| 0 <= k < self.nodes@.len() ==> (#[trigger] self.nodes@[k]).ctx() == prev.nodes@[k].ctx());
        assert(self.wf());

        prev.lemma_node_ix_is(i, cv);
        self.lemma_node_ix_is(i, cv);
        assert(self.cands_at(cv) == s1);
        assert(prev.cands_at(cv) == s);

        assert forall|c: Seq<Seq<char>>| c != cv implies (#[trigger] self.has_ctx(c)) == prev.has_ctx(c) by {
            if self.has_ctx(c) {
                let k = choose|k: int| 0 <= k < self.nodes@.len() && (#[trigger] self.nodes@[k]).ctx() == c;
                assert(prev.nodes@[k].ctx() == c);
            }
            if prev.has_ctx(c) {
                let k = choose|k: int| 0 <= k < prev.nodes@.len() && (#[trigger] prev.nodes@[k]).ctx() == c;
                assert(self.nodes@[k].ctx() == c);
            }
        }

        assert forall|c: Seq<Seq<char>>| c != cv && prev.has_ctx(c) implies (#[trigger] self.cands_at(c)) == prev.cands_at(c) by {
            let k = prev.node_ix(c);
            assert(0 <= k < prev.nodes@.len() && prev.nodes@[k].ctx() == c);
            assert(k != i);
            prev.lemma_node_ix_is(k, c);
            self.lemma_node_ix_is(k, c);
        }

        // Weights under `cv`.
        if has_tok(s, tv) {
            let j = tok_ix(s, tv);
            assert(0 <= j < s.len() && s[j].0 == tv);
            assert forall|t: Seq<char>| t != tv implies (#[trigger] self.weight_of(cv, t)) == prev.weight_of(cv, t) by {
                if has_tok(s, t) {
                    let x = tok_ix(s, t);
                    assert(0 <= x < s.len() && s[x].0 == t);
                    assert(x != j);
                    lemma_tok_ix_is(s1, x, t);
                } else {
                    if has_tok(s1, t) {
                        let x = tok_ix(s1, t);
                        assert(s[x].0 == t);
                    }
                }
            }
            lemma_tok_ix_is(s1, j, tv);
            assert(self.weight_of(cv, tv) == bump(prev.weight_of(cv, tv)));
        } else {
            assert forall|t: Seq<char>| t != tv implies (#[trigger] self.weight_of(cv, t)) == prev.weight_of(cv, t) by {
                if has_tok(s, t) {
                    let x = tok_ix(s, t);
                    assert(0 <= x < s.len() && s[x].0 == t);
                    lemma_tok_ix_is(s1, x, t);
                } else {
                    if has_tok(s1, t) {
                        let x = tok_ix(s1, t);
                        assert(0 <= x < s1.len() && s1[x].0 == t);
                        assert(x == s.len());
                    }
                }
            }
            lemma_tok_ix_is(s1, s.len() as int, tv);
            assert(self.weight_of(cv, tv) == 1);
            assert(prev.weight_of(cv, tv) == 0);
        }
    }

    /// After appending a fresh node for a context that had none, the chain
    /// is still well formed and only that context changed.
    proof fn lemma_observe_fresh(
        &self,
        prev: PredictorChain,
        fresh: ChainNode,
        cv: Seq<Seq<char>>,
        tv: Seq<char>,
    )
        requires
            prev.wf(),
            !prev.has_ctx(cv),
            self.nodes@ == prev.nodes@.push(fresh),
            fresh.ctx() == cv,
            fresh.cands() == seq![(tv, 1u64)],
        ensures
            self.wf(),
            self.has_ctx(cv),
            forall|c: Seq<Seq<char>>| c != cv ==> (#[trigger] self.has_ctx(c)) == prev.has_ctx(c),
            forall|c: Seq<Seq<char>>| c != cv && prev.has_ctx(c) ==> (#[trigger] self.cands_at(c)) == prev.cands_at(c),
            forall|t: Seq<char>| t != tv ==> (#[trigger] self.weight_of(cv, t)) == prev.weight_of(cv, t),
            self.weight_of(cv, tv) == bump(prev.weight_of(cv, tv)),
    {
        let last = prev.nodes@.len() as int;
        assert(fresh.cands()[0] == (tv, 1u64));
        assert(fresh.wf());
        assert forall|k: int| 0 <= k < last implies (#[trigger] self.nodes@[k]).ctx() != cv by {
            if self.nodes@[k].ctx() == cv {
                assert(prev.nodes@[k].ctx() == cv);
                assert(prev.has_ctx(cv));
            }
        }
        assert(self.wf());
        self.lemma_node_ix_is(last, cv);
        assert(self.cands_at(cv) == fresh.cands());

        assert forall|c: Seq<Seq<char>>| c != cv implies (#[trigger] self.has_ctx(c)) == prev.has_ctx(c) by {
            if self.has_ctx(c) {
                let k = choose|k: int| 0 <= k < self.nodes@.len() && (#[trigger] self.nodes@[k]).ctx() == c;
                assert(k != last);
                assert(prev.nodes@[k].ctx() == c);
            }
            if prev.has_ctx(c) {
                let k = choose|k: int| 0 <= k < prev.nodes@.len() && (#[trigger] prev.nodes@[k]).ctx() == c;
                assert(self.nodes@[k].ctx() == c);
            }
        }

        assert forall|c: Seq<Seq<char>>| c != cv && prev.has_ctx(c) implies (#[trigger] self.cands_at(c)) == prev.cands_at(c) by {
            let k = prev.node_ix(c);
            assert(0 <= k < prev.nodes@.len() && prev.nodes@[k].ctx() == c);
            prev.lemma_node_ix_is(k, c);
            self.lemma_node_ix_is(k, c);
        }

        assert forall|t: Seq<char>| t != tv implies (#[trigger] self.weight_of(cv, t)) == prev.weight_of(cv, t) by {
            if has_tok(fresh.cands(), t) {
                let x = tok_ix(fresh.cands(), t);
                assert(x == 0);
            }
            assert(!has_tok(fresh.cands(), t));
            assert(prev.weight_of(cv, t) == 0);
        }
        lemma_tok_ix_is(fresh.cands(), 0, tv);
        assert(self.weight_of(cv, tv) == 1);
        assert(prev.weight_of(cv, tv) == 0);
    }

    /// Backoff resolution: try the full context, then progressively drop
    /// the oldest token, and return the top candidate of the first context
    /// that has a node; `None` only when no suffix, not even the empty
    /// context, has one.
    pub fn resolve_with_backoff(&self, context: &Vec<String>) -> (r: Option<(String, u64)>)
        requires
            self.wf(),
        ensures
            match r {
                Some(p) => self.backoff_model(context.deep_view()) == Some((p.0@, p.1)),
                None => self.backoff_model(context.deep_view()) is None,
            },
    {
        let ghost cv = context.deep_view();
        let n = context.len();
        let mut s: usize = 0;
        proof {
            assert(cv.skip(0) =~= cv);
        }
        loop
            invariant
                s <= n,
                n == context@.len(),
                self.wf(),
                cv == context.deep_view(),
                self.backoff_ctx(cv) == self.backoff_ctx(cv.skip(s as int)),
            decreases n - s,
        {
            let sub = tail_clone(context, s, n);
            proof {
                assert(sub.deep_view() =~= cv.skip(s as int));
            }
            match self.lookup(&sub) {
                Some(cs) => {
                    proof {
                        let ix = self.node_ix(cv.skip(s as int));
                        assert(self.nodes@[ix].wf());
                        assert(cs@.map_values(|c: Candidate| c.model()).len() == cs@.len());
                    }
                    let (tok, w) = top_candidate(cs);
                    return Some((tok, w));
                }
                None => {
                    if s >= n {
                        proof {
                            assert(cv.skip(s as int).len() == 0);
                        }
                        return None;
                    }
                    proof {
                        assert(cv.skip(s as int).drop_first() =~= cv.skip(s as int + 1));
                    }
                    s = s + 1;
                }
            }
        }
    }
}

/// Law: backoff resolution never returns a candidate with weight zero:
/// every stored weight is positive, and the result is a stored candidate.
pub proof fn lemma_backoff_weight_positive(chain: PredictorChain, c: Seq<Seq<char>>)
    requires
        chain.wf(),
    ensures
        chain.backoff_model(c) matches Some(p) ==> p.1 > 0,
    decreases c.len(),
{
    if chain.has_ctx(c) {
        let ix = chain.node_ix(c);
        assert(0 <= ix < chain.nodes@.len() && chain.nodes@[ix].ctx() == c);
        assert(chain.nodes@[ix].wf());
        let s = chain.cands_at(c);
        lemma_top_upto_is_member(s, s.len() as int);
        let k = choose|k: int| 0 <= k < s.len() && top_upto(s, s.len() as int) == s[k];
        assert(s[k].1 > 0);
    } else if c.len() > 0 {
        lemma_backoff_weight_positive(chain, c.drop_first());
    }
}

/// Wherever backoff resolves, it resolves at a stored context, and returns
/// that node's top candidate.
pub proof fn lemma_backoff_ctx_resolves(chain: PredictorChain, c: Seq<Seq<char>>)
    ensures
        chain.backoff_ctx(c) matches Some(u) ==> chain.has_ctx(u) && chain.backoff_model(c)
            == Some(top_of(chain.cands_at(u))),
    decreases c.len(),
{
    if chain.has_ctx(c) {
    } else if c.len() > 0 {
        lemma_backoff_ctx_resolves(chain, c.drop_first());
    }
}

/// Law: the resolved candidate outweighs every other candidate stored under
/// the context that backoff resolved at.
pub proof fn lemma_backoff_weight_maximal(chain: PredictorChain, c: Seq<Seq<char>>)
    requires
        chain.wf(),
    ensures
        chain.backoff_ctx(c) matches Some(u) ==> forall|k: int|
            0 <= k < chain.cands_at(u).len() ==> (#[trigger] chain.cands_at(u)[k]).1
                <= top_of(chain.cands_at(u)).1,
{
    lemma_backoff_ctx_resolves(chain, c);
    match chain.backoff_ctx(c) {
        Some(u) => {
            let ix = chain.node_ix(u);
            assert(0 <= ix < chain.nodes@.len() && chain.nodes@[ix].ctx() == u);
            assert(chain.nodes@[ix].wf());
            lemma_top_upto_weight_maximal(chain.cands_at(u), chain.cands_at(u).len() as int);
        },
        None => {},
    }
}

/// Law: backoff never resolves at a strictly shorter context than one that
/// has a node: if the trailing `k` tokens of `c` are a stored context, the
/// context backoff resolves at keeps at least `k` tokens.
pub proof fn lemma_backoff_monotone(chain: PredictorChain, c: Seq<Seq<char>>, k: int)
    requires
        0 <= k <= c.len(),
        chain.has_ctx(c.skip(c.len() - k)),
    ensures
        chain.backoff_ctx(c) matches Some(u) && u.len() >= k,
    decreases c.len(),
{
    if chain.has_ctx(c) {
        assert(chain.backoff_ctx(c) == Some(c));
    } else {
        assert(c.skip(0) =~= c);
        assert(k < c.len());
        assert(c.drop_first() =~= c.skip(1));
        assert(c.drop_first().skip(c.drop_first().len() - k) =~= c.skip(c.len() - k));
        lemma_backoff_monotone(chain, c.drop_first(), k);
    }
}

} // verus!
