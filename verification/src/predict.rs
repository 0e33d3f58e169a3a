//! The predictor: turns the current input text into at most one prediction,
//! as a pure function of the chain, the text, and the lookback depth.

use vstd::prelude::*;
use crate::Prediction;
use crate::chain::{PredictorChain, tail_clone};
use crate::text::{
    ends_in_word_char, str_is_prefix, text_ends_in_word_char, unicode_words_of, unicode_words_vec,
};

verus! {

/// The trailing portion of `words`, at most `depth` tokens long.
pub open spec fn tail_context(words: Seq<Seq<char>>, depth: int) -> Seq<Seq<char>> {
    if words.len() <= depth {
        words
    } else {
        words.skip(words.len() - depth)
    }
}

/// What a prediction query returns, as a function of the chain, the depth,
/// and the text alone.
///
/// When the text ends inside a word, that word is in progress: the context
/// is the up-to-`depth` words before it, and a prediction comes only when
/// the backoff candidate starts with the in-progress word, as the `Partial`
/// suffix that completes it. Otherwise the context is the trailing
/// up-to-`depth` words, and the backoff candidate is returned as a `Word`.
pub open spec fn predict_model(chain: PredictorChain, depth: int, text: Seq<char>) -> Option<(bool, Seq<char>)> {
    let words = unicode_words_of(text);
    if ends_in_word_char(text) {
        if words.len() == 0 {
            None
        } else {
            let cur = words.last();
            match chain.backoff_model(tail_context(words.drop_last(), depth)) {
                Some(p) => if cur.is_prefix_of(p.0) {
                    Some((true, p.0.skip(cur.len() as int)))
                } else {
                    None
                },
                None => None,
            }
        }
    } else {
        match chain.backoff_model(tail_context(words, depth)) {
            Some(p) => Some((false, p.0)),
            None => None,
        }
    }
}

/// Wraps a chain and a maximum lookback depth.
pub struct Predictor {
    chain: PredictorChain,
    depth: usize,
}

impl Predictor {
    /// The chain this predictor queries.
    pub closed spec fn spec_chain(&self) -> PredictorChain {
        self.chain
    }

    /// The maximum number of trailing words used as context.
    pub closed spec fn spec_depth(&self) -> usize {
        self.depth
    }

    pub open spec fn wf(&self) -> bool {
        self.spec_chain().wf()
    }

    pub fn new(chain: PredictorChain, depth: usize) -> (r: Predictor)
        requires
            chain.wf(),
        ensures
            r.wf(),
            r.spec_chain() == chain,
            r.spec_depth() == depth,
    {
        Predictor { chain, depth }
    }

    /// At most one prediction for the current input text: a pure query with
    /// no side effects, so it can be repeated on every keystroke.
    pub fn predict(&self, input: &str) -> (r: Option<Prediction>)
        requires
            self.wf(),
        ensures
            match r {
                Some(p) => predict_model(self.spec_chain(), self.spec_depth() as int, input@) == Some(p.model()),
                None => predict_model(self.spec_chain(), self.spec_depth() as int, input@) is None,
            },
    {
        let ghost wsv = unicode_words_of(input@);
        let words = unicode_words_vec(input);
        let wl = words.len();
        if text_ends_in_word_char(input) {
            if wl == 0 {
                return None;
            }
            let base = wl - 1;
            let start = if base >= self.depth {
                base - self.depth
            } else {
                0
            };
            let ctx = tail_clone(&words, start, base);
            proof {
                assert(words.deep_view().subrange(start as int, base as int) =~= tail_context(
                    wsv.drop_last(),
                    self.depth as int,
                ));
            }
            match self.chain.resolve_with_backoff(&ctx) {
                Some(p) => {
                    let cur = &words[base];
                    proof {
                        assert(cur@ == wsv.last());
                    }
                    if str_is_prefix(cur.as_str(), p.0.as_str()) {
                        let cl = cur.unicode_len();
                        let tl = p.0.unicode_len();
                        let suffix = p.0.as_str().substring_char(cl, tl).to_owned();
                        proof {
                            assert(suffix@ =~= p.0@.skip(cl as int));
                        }
                        Some(Prediction::Partial(suffix))
                    } else {
                        None
                    }
                },
                None => None,
            }
        } else {
            let start = if wl >= self.depth {
                wl - self.depth
            } else {
                0
            };
            let ctx = tail_clone(&words, start, wl);
            proof {
                assert(words.deep_view().subrange(start as int, wl as int) =~= tail_context(
                    wsv,
                    self.depth as int,
                ));
            }
            match self.chain.resolve_with_backoff(&ctx) {
                Some(p) => Some(Prediction::Word(p.0)),
                None => None,
            }
        }
    }
}

/// Law: the prediction is a function of the chain, the depth, and the text
/// alone — any two results the query's contract admits for the same
/// arguments are equal.
pub proof fn lemma_predict_deterministic(
    chain: PredictorChain,
    depth: int,
    text: Seq<char>,
    r1: Option<(bool, Seq<char>)>,
    r2: Option<(bool, Seq<char>)>,
)
    requires
        r1 == predict_model(chain, depth, text),
        r2 == predict_model(chain, depth, text),
    ensures
        r1 == r2,
{
}

/// Law: a partial prediction exactly completes the in-progress word: the
/// word concatenated with the suffix is the backoff top candidate's token.
pub proof fn lemma_partial_completes_candidate(
    chain: PredictorChain,
    depth: int,
    text: Seq<char>,
    sfx: Seq<char>,
)
    requires
        predict_model(chain, depth, text) == Some((true, sfx)),
    ensures
        ends_in_word_char(text),
        unicode_words_of(text).len() > 0,
        chain.backoff_model(tail_context(unicode_words_of(text).drop_last(), depth)) matches Some(t)
            && unicode_words_of(text).last() + sfx == t.0,
{
    let words = unicode_words_of(text);
    let cur = words.last();
    let top = chain.backoff_model(tail_context(words.drop_last(), depth));
    if let Some(t) = top {
        assert(cur.is_prefix_of(t.0));
        assert(sfx == t.0.skip(cur.len() as int));
        assert(cur + sfx =~= t.0);
    }
}

} // verus!
