//! The line editor: an edit buffer of grapheme clusters, a cursor, and a
//! pending-prediction state, driven deterministically by one key event at a
//! time. A shown prediction is never part of the buffer until it is
//! explicitly accepted.

use vstd::prelude::*;
use vstd::string::StrSliceExecFns;
use vstd::string::StringExecFns;
use crate::Prediction;
use crate::chain::PredictorChain;
use crate::predict::{predict_model, Predictor};
use crate::text::{graphemes_vec, join, lemma_join_push};

verus! {

/// One abstract key event. `Char` carries one grapheme cluster, already
/// decoded by the collaborator that reads keys.
pub enum Key {
    Char(String),
    Backspace,
    Accept,
    Confirm,
    Cancel,
    Other,
}

/// The editor's states: editing with no prediction shown, a prediction
/// rendered but not committed, or done.
#[derive(Clone, Copy, PartialEq, Eq, Structural, Debug)]
pub enum EditorStatus {
    Editing,
    Suggesting,
    Done,
}

/// The editor's state as mathematical values: the buffer as its grapheme
/// clusters, the cursor as an offset in clusters, the shown prediction as
/// its shape and characters, and the committed result.
#[verifier::ext_equal]
pub struct EditorModel {
    pub status: EditorStatus,
    pub buffer: Seq<Seq<char>>,
    pub cursor: int,
    pub shown: Option<(bool, Seq<char>)>,
    pub committed: Option<Seq<char>>,
}

/// The cursor always stays between zero and the buffer length, measured in
/// grapheme clusters.
pub open spec fn model_inv(m: EditorModel) -> bool {
    0 <= m.cursor <= m.buffer.len()
}

/// Whether the buffer's last grapheme cluster is a space.
pub open spec fn ends_in_space(buffer: Seq<Seq<char>>) -> bool {
    buffer.len() > 0 && buffer.last() == seq![' ']
}

/// The grapheme clusters spliced in when a prediction is accepted: a
/// `Partial` appends the clusters of its suffix; a `Word` is set off by a
/// separating space when the buffer does not already end in one, and is
/// followed by one, so that a further suggestion can chain after it.
pub open spec fn accept_insertion(buffer: Seq<Seq<char>>, shown: (bool, Seq<char>)) -> Seq<Seq<char>> {
    if shown.0 {
        crate::text::graphemes_of(shown.1)
    } else {
        let sep: Seq<Seq<char>> = if ends_in_space(buffer) {
            seq![]
        } else {
            seq![seq![' ']]
        };
        sep + crate::text::graphemes_of(shown.1) + seq![seq![' ']]
    }
}

/// A fresh edit state after the buffer changed: the editor immediately
/// re-queries and shows the prediction when there is one.
pub open spec fn after_edit(
    chain: PredictorChain,
    depth: int,
    buffer: Seq<Seq<char>>,
    cursor: int,
    committed: Option<Seq<char>>,
) -> EditorModel {
    let pr = predict_model(chain, depth, join(buffer));
    EditorModel {
        status: if pr is Some {
            EditorStatus::Suggesting
        } else {
            EditorStatus::Editing
        },
        buffer: buffer,
        cursor: cursor,
        shown: pr,
        committed: committed,
    }
}

/// The transition relation, one key event at a time. `Done` is terminal;
/// an unrecognized key changes nothing.
pub open spec fn step(chain: PredictorChain, depth: int, m: EditorModel, key: Key) -> EditorModel {
    if m.status is Done {
        m
    } else {
        match key {
            Key::Char(g) => after_edit(chain, depth, m.buffer.insert(m.cursor, g@), m.cursor + 1, m.committed),
            Key::Backspace => if m.cursor == 0 {
                after_edit(chain, depth, m.buffer, m.cursor, m.committed)
            } else {
                after_edit(chain, depth, m.buffer.remove(m.cursor - 1), m.cursor - 1, m.committed)
            },
            Key::Accept => if m.status is Suggesting {
                match m.shown {
                    Some(sh) => {
                        let ins = accept_insertion(m.buffer, sh);
                        after_edit(
                            chain,
                            depth,
                            m.buffer.take(m.cursor) + ins + m.buffer.skip(m.cursor),
                            m.cursor + ins.len(),
                            m.committed,
                        )
                    },
                    None => m,
                }
            } else {
                m
            },
            Key::Confirm => EditorModel {
                status: EditorStatus::Done,
                buffer: m.buffer,
                cursor: m.cursor,
                shown: None,
                committed: Some(join(m.buffer)),
            },
            Key::Cancel => EditorModel {
                status: EditorStatus::Done,
                buffer: m.buffer,
                cursor: m.cursor,
                shown: None,
                committed: None,
            },
            Key::Other => m,
        }
    }
}

/// One frame for the rendering collaborator: replace the displayed line
/// with `line`, then show `suggestion` as ghost text at the cursor, or
/// clear the ghost text when there is none.
pub struct RenderInstruction {
    pub line: String,
    pub suggestion: Option<String>,
}

/// The editor: owns the predictor, the buffer, and the interaction state.
pub struct LineEditor {
    predictor: Predictor,
    buffer: Vec<String>,
    cursor: usize,
    shown: Option<Prediction>,
    status: EditorStatus,
    committed: Option<String>,
}

impl LineEditor {
    /// The predictor this editor queries.
    pub closed spec fn spec_predictor(&self) -> Predictor {
        self.predictor
    }

    /// The editor's state as mathematical values.
    pub closed spec fn model(&self) -> EditorModel {
        EditorModel {
            status: self.status,
            buffer: self.buffer.deep_view(),
            cursor: self.cursor as int,
            shown: match self.shown {
                Some(p) => Some(p.model()),
                None => None,
            },
            committed: match self.committed {
                Some(s) => Some(s@),
                None => None,
            },
        }
    }

    pub open spec fn wf(&self) -> bool {
        self.spec_predictor().wf() && model_inv(self.model())
    }

    /// A fresh editor in the `Editing` state with an empty buffer.
    pub fn new(predictor: Predictor) -> (r: LineEditor)
        requires
            predictor.wf(),
        ensures
            r.wf(),
            r.spec_predictor() == predictor,
            r.model() == (EditorModel {
                status: EditorStatus::Editing,
                buffer: Seq::empty(),
                cursor: 0,
                shown: None,
                committed: None,
            }),
    {
        let r = LineEditor {
            predictor,
            buffer: Vec::new(),
            cursor: 0,
            shown: None,
            status: EditorStatus::Editing,
            committed: None,
        };
        proof {
            assert(r.model() =~= EditorModel {
                status: EditorStatus::Editing,
                buffer: Seq::empty(),
                cursor: 0,
                shown: None,
                committed: None,
            });
        }
        r
    }

    /// The committed buffer, as one string.
    pub fn buffer_text(&self) -> (r: String)
        ensures
            r@ == join(self.model().buffer),
    {
        let mut out = String::new();
        let n = self.buffer.len();
        proof {
            assert(self.buffer.deep_view().take(0) =~= Seq::<Seq<char>>::empty());
        }
        for i in 0..n
            invariant
                n == self.buffer@.len(),
                out@ == join(self.buffer.deep_view().take(i as int)),
        {
            out.append(self.buffer[i].as_str());
            proof {
                assert(self.buffer.deep_view().take(i as int).push(self.buffer.deep_view()[i as int])
                    =~= self.buffer.deep_view().take(i as int + 1));
                lemma_join_push(self.buffer.deep_view().take(i as int), self.buffer.deep_view()[i as int]);
            }
        }
        proof {
            assert(self.buffer.deep_view().take(n as int) =~= self.buffer.deep_view());
        }
        out
    }

    /// The editor's current state.
    pub fn status(&self) -> (r: EditorStatus)
        ensures
            r == self.model().status,
    {
        self.status
    }

    /// The prediction currently rendered, if any.
    pub fn shown_prediction(&self) -> (r: &Option<Prediction>)
        ensures
            match r {
                Some(p) => self.model().shown == Some(p.model()),
                None => self.model().shown is None,
            },
    {
        &self.shown
    }

    /// The final result: the committed text after a confirm, nothing after
    /// a cancel, nothing while editing goes on.
    pub fn committed(&self) -> (r: &Option<String>)
        ensures
            match r {
                Some(s) => self.model().committed == Some(s@),
                None => self.model().committed is None,
            },
    {
        &self.committed
    }

    /// The cursor offset, in grapheme clusters.
    pub fn cursor(&self) -> (r: usize)
        ensures
            r == self.model().cursor,
    {
        self.cursor
    }

    /// The buffer length, in grapheme clusters.
    pub fn buffer_len(&self) -> (r: usize)
        ensures
            r == self.model().buffer.len(),
    {
        self.buffer.len()
    }

    /// What the rendering collaborator should draw: the buffer as the line,
    /// and, while a suggestion is active, its token as ghost text at the
    /// cursor.
    pub fn render(&self) -> (r: RenderInstruction)
        ensures
            r.line@ == join(self.model().buffer),
            match r.suggestion {
                Some(s) => self.model().status is Suggesting && (match self.model().shown {
                    Some(p) => p.1 == s@,
                    None => false,
                }),
                None => !(self.model().status is Suggesting) || self.model().shown is None,
            },
    {
        let line = self.buffer_text();
        let suggestion = if self.status == EditorStatus::Suggesting {
            match &self.shown {
                Some(Prediction::Word(t)) => Some(t.clone()),
                Some(Prediction::Partial(t)) => Some(t.clone()),
                None => None,
            }
        } else {
            None
        };
        RenderInstruction { line, suggestion }
    }

    /// Whether the buffer's last grapheme cluster is a space.
    fn buffer_ends_in_space(&self) -> (r: bool)
        ensures
            r == ends_in_space(self.buffer.deep_view()),
    {
        let n = self.buffer.len();
        if n == 0 {
            return false;
        }
        let last = &self.buffer[n - 1];
        let r = last.as_str().unicode_len() == 1 && last.as_str().get_char(0) == ' ';
        proof {
            assert(seq![' '].len() == 1);
            assert(seq![' '][0] == ' ');
            if r {
                assert(last@ =~= seq![' ']);
            }
            assert(self.buffer.deep_view().last() == last@);
        }
        r
    }

    /// Re-query the predictor on the current buffer and show the result.
    fn requery(&mut self)
        requires
            old(self).spec_predictor().wf(),
        ensures
            final(self).spec_predictor() == old(self).spec_predictor(),
            final(self).model() == after_edit(
                old(self).spec_predictor().spec_chain(),
                old(self).spec_predictor().spec_depth() as int,
                old(self).model().buffer,
                old(self).model().cursor,
                old(self).model().committed,
            ),
    {
        let text = self.buffer_text();
        let pr = self.predictor.predict(text.as_str());
        match pr {
            Some(p) => {
                self.shown = Some(p);
                self.status = EditorStatus::Suggesting;
            },
            None => {
                self.shown = None;
                self.status = EditorStatus::Editing;
            },
        }
        proof {
            assert(final(self).model() =~= after_edit(
                old(self).spec_predictor().spec_chain(),
                old(self).spec_predictor().spec_depth() as int,
                old(self).model().buffer,
                old(self).model().cursor,
                old(self).model().committed,
            ));
        }
    }

    /// Consume one key event: mutate the buffer and the interaction state
    /// exactly as the transition relation `step` says.
    pub fn handle_key(&mut self, key: Key)
        requires
            old(self).wf(),
        ensures
            final(self).wf(),
            final(self).spec_predictor() == old(self).spec_predictor(),
            final(self).model() == step(
                old(self).spec_predictor().spec_chain(),
                old(self).spec_predictor().spec_depth() as int,
                old(self).model(),
                key,
            ),
    {
        if self.status == EditorStatus::Done {
            return;
        }
        match key {
            Key::Char(g) => {
                self.buffer.insert(self.cursor, g);
                let nl = self.buffer.len();
                proof {
                    assert(self.cursor < nl);
                }
                self.cursor = self.cursor + 1;
                proof {
                    lemma_deep_view_is_pointwise(old(self).buffer);
                    lemma_deep_view_is_pointwise(self.buffer);
                    assert(self.buffer.deep_view() =~= old(self).model().buffer.insert(
                        old(self).model().cursor,
                        g@,
                    ));
                }
                self.requery();
            },
            Key::Backspace => {
                if self.cursor > 0 {
                    self.buffer.remove(self.cursor - 1);
                    self.cursor = self.cursor - 1;
                    proof {
                        lemma_deep_view_is_pointwise(old(self).buffer);
                        lemma_deep_view_is_pointwise(self.buffer);
                        assert(self.buffer.deep_view() =~= old(self).model().buffer.remove(
                            old(self).model().cursor - 1,
                        ));
                    }
                }
                self.requery();
            },
            Key::Accept => {
                if self.status == EditorStatus::Suggesting {
                    let (has, is_partial, tok): (bool, bool, String) = match &self.shown {
                        Some(Prediction::Word(t)) => (true, false, t.clone()),
                        Some(Prediction::Partial(t)) => (true, true, t.clone()),
                        None => (false, false, String::new()),
                    };
                    if has {
                        self.splice(is_partial, &tok);
                        self.requery();
                    }
                }
            },
            Key::Confirm => {
                let text = self.buffer_text();
                self.committed = Some(text);
                self.shown = None;
                self.status = EditorStatus::Done;
            },
            Key::Cancel => {
                self.committed = None;
                self.shown = None;
                self.status = EditorStatus::Done;
            },
            Key::Other => {},
        }
    }

    /// Splice an accepted token into the buffer at the cursor and advance
    /// the cursor past what was inserted.
    fn splice(&mut self, is_partial: bool, tok: &String)
        requires
            old(self).model().cursor <= old(self).model().buffer.len(),
        ensures
            final(self).spec_predictor() == old(self).spec_predictor(),
            final(self).model().status == old(self).model().status,
            final(self).model().shown == old(self).model().shown,
            final(self).model().committed == old(self).model().committed,
            final(self).model().buffer == old(self).model().buffer.take(old(self).model().cursor)
                + accept_insertion(old(self).model().buffer, (is_partial, tok@))
                + old(self).model().buffer.skip(old(self).model().cursor),
            final(self).model().cursor == old(self).model().cursor
                + accept_insertion(old(self).model().buffer, (is_partial, tok@)).len(),
    {
        let ghost b0 = self.buffer.deep_view();
        let ghost c0 = self.cursor as int;
        let ghost ins = accept_insertion(b0, (is_partial, tok@));

        let mut parts: Vec<String> = Vec::new();
        let ghost sep: Seq<Seq<char>> = if !is_partial && !ends_in_space(b0) {
            seq![seq![' ']]
        } else {
            seq![]
        };
        if !is_partial && !self.buffer_ends_in_space() {
            parts.push(space_grapheme());
        }
        proof {
            lemma_deep_view_is_pointwise(parts);
            assert(parts.deep_view() =~= sep);
        }
        let gs = graphemes_vec(tok.as_str());
        let gn = gs.len();
        for k in 0..gn
            invariant
                gn == gs@.len(),
                parts.deep_view() == sep + gs.deep_view().take(k as int),
                b0 == self.buffer.deep_view(),
        {
            let ghost pd0 = parts.deep_view();
            let x = gs[k].clone();
            proof {
                lemma_deep_view_is_pointwise(gs);
                assert(x == gs@[k as int]);
            }
            parts.push(x);
            proof {
                lemma_deep_view_is_pointwise(parts);
                assert(parts.deep_view() =~= pd0.push(gs.deep_view()[k as int]));
                assert(pd0.push(gs.deep_view()[k as int]) =~= sep + gs.deep_view().take(k as int + 1));
            }
        }
        if !is_partial {
            let ghost pd0 = parts.deep_view();
            parts.push(space_grapheme());
            proof {
                lemma_deep_view_is_pointwise(parts);
                assert(parts.deep_view() =~= pd0.push(seq![' ']));
            }
        }
        proof {
            assert(gs.deep_view().take(gn as int) =~= gs.deep_view());
            assert(parts.deep_view() =~= ins);
        }

        let pn = parts.len();
        let mut k: usize = 0;
        proof {
            assert(b0.take(c0) + parts.deep_view().take(0) + b0.skip(c0) =~= b0);
        }
        while k < pn
            invariant
                k <= pn,
                pn == parts@.len(),
                c0 == self.cursor as int,
                c0 + k <= self.buffer@.len(),
                self.buffer@.len() == b0.len() + k,
                self.buffer.deep_view() == b0.take(c0) + parts.deep_view().take(k as int) + b0.skip(c0),
                parts.deep_view() == ins,
                self.spec_predictor() == old(self).spec_predictor(),
                self.status == old(self).status,
                self.shown == old(self).shown,
                self.committed == old(self).committed,
            decreases pn - k,
        {
            let ghost bd0 = self.buffer.deep_view();
            proof {
                lemma_deep_view_is_pointwise(self.buffer);
                lemma_deep_view_is_pointwise(parts);
            }
            let x = parts[k].clone();
            proof {
                assert(x == parts@[k as int]);
            }
            let bl = self.buffer.len();
            proof {
                assert(c0 + k <= bl);
            }
            self.buffer.insert(self.cursor + k, x);
            k = k + 1;
            proof {
                lemma_deep_view_is_pointwise(self.buffer);
                assert(self.buffer.deep_view() =~= bd0.insert(
                    c0 + (k - 1),
                    parts.deep_view()[k as int - 1],
                ));
                assert(bd0.insert(c0 + (k - 1), parts.deep_view()[k as int - 1]) =~= b0.take(c0)
                    + parts.deep_view().take(k as int) + b0.skip(c0));
            }
        }
        proof {
            assert(parts.deep_view().take(pn as int) =~= parts.deep_view());
        }
        let bl = self.buffer.len();
        proof {
            assert(c0 + pn <= bl);
        }
        self.cursor = self.cursor + pn;
    }
}

/// The deep view of a token vector, spelled out element by element.
proof fn lemma_deep_view_is_pointwise(v: Vec<String>)
    ensures
        v.deep_view().len() == v@.len(),
        forall|i: int| 0 <= i < v@.len() ==> v.deep_view()[i] == (#[trigger] v@[i])@,
{
}

/// One space as a grapheme cluster.
fn space_grapheme() -> (r: String)
    ensures
        r@ == seq![' '],
{
    let r = String::from_str(" ");
    proof {
        reveal_strlit(" ");
        assert(r@ =~= seq![' ']);
    }
    r
}

/// Law: accepting when no suggestion is active is a no-op — in particular
/// the buffer is untouched.
pub proof fn lemma_accept_without_suggestion_is_noop(
    chain: PredictorChain,
    depth: int,
    m: EditorModel,
)
    requires
        !(m.status is Suggesting),
    ensures
        step(chain, depth, m, Key::Accept) == m,
{
}

/// Law: every transition keeps the cursor between zero and the buffer
/// length, measured in grapheme clusters.
pub proof fn lemma_step_preserves_cursor_bounds(
    chain: PredictorChain,
    depth: int,
    m: EditorModel,
    key: Key,
)
    requires
        model_inv(m),
    ensures
        model_inv(step(chain, depth, m, key)),
{
}

} // verus!
