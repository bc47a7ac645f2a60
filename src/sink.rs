//! Replays parser events into a syntax tree, putting back the whitespace and
//! comments that the parser skipped.
use vstd::prelude::*;
use vstd::string::StringExecFns;
use crate::event::Event;
use crate::parser::{
    chain_events, event_view, events_view, is_chain, lemma_significant_concat, lemma_significant_from,
    significant, EventV,
};
use crate::lexer::{concat_texts, lexemes_view, Lexeme, SyntaxKind};
use crate::syntax::{
    element_view, elements_view, left_nested, node_view, strip, strip_all, tree_text, trees_text, SyntaxElement,
    SyntaxNode, SyntaxToken, TreeV,
};

verus! {

/// The text of the open nodes' children, outermost node first.
pub open spec fn frames_text(frames: Seq<(SyntaxKind, Vec<SyntaxElement>)>) -> Seq<char>
    decreases frames.len(),
{
    if frames.len() == 0 {
        Seq::empty()
    } else {
        frames_text(frames.drop_last()) + trees_text(elements_view(frames.last().1@))
    }
}

proof fn lemma_push_element(s: Seq<SyntaxElement>, e: SyntaxElement)
    ensures
        trees_text(elements_view(s.push(e))) == trees_text(elements_view(s)) + tree_text(element_view(e)),
{
    assert(s.push(e).drop_last() =~= s);
    assert(elements_view(s.push(e)) == elements_view(s).push(element_view(e)));
    assert(elements_view(s).push(element_view(e)).drop_last() =~= elements_view(s));
}

proof fn lemma_frames_text_push(s: Seq<(SyntaxKind, Vec<SyntaxElement>)>, f: (SyntaxKind, Vec<SyntaxElement>))
    ensures
        frames_text(s.push(f)) == frames_text(s) + trees_text(elements_view(f.1@)),
{
    assert(s.push(f).drop_last() =~= s);
}

proof fn lemma_empty_text(v: Vec<SyntaxElement>)
    requires
        v@.len() == 0,
    ensures
        trees_text(elements_view(v@)) == Seq::<char>::empty(),
{
}

/// Each open node's kind and children.
pub open spec fn frames_view(f: Seq<(SyntaxKind, Vec<SyntaxElement>)>) -> Seq<(SyntaxKind, Seq<TreeV>)> {
    Seq::new(f.len(), |i: int| (f[i].0, elements_view(f[i].1@)))
}

/// The open nodes without whitespace and comment tokens.
pub open spec fn strip_frames(f: Seq<(SyntaxKind, Seq<TreeV>)>) -> Seq<(SyntaxKind, Seq<TreeV>)> {
    Seq::new(f.len(), |i: int| (f[i].0, strip_all(f[i].1)))
}

proof fn lemma_elements_len(s: Seq<SyntaxElement>)
    ensures
        elements_view(s).len() == s.len(),
    decreases s.len(),
{
    if s.len() > 0 {
        lemma_elements_len(s.drop_last());
    }
}

proof fn lemma_elements_push(s: Seq<SyntaxElement>, e: SyntaxElement)
    ensures
        elements_view(s.push(e)) == elements_view(s).push(element_view(e)),
{
    assert(s.push(e).drop_last() =~= s);
}

proof fn lemma_strip_all_push(s: Seq<TreeV>, x: TreeV)
    ensures
        strip_all(s.push(x)) == match x {
            TreeV::Token(kind, _) => if kind.spec_is_trivia() {
                strip_all(s)
            } else {
                strip_all(s).push(x)
            },
            TreeV::Node(kind, children) => strip_all(s).push(TreeV::Node(kind, strip_all(children))),
        },
{
    assert(s.push(x).drop_last() =~= s);
    match x {
        TreeV::Node(k, c) => {
            assert(strip(x) == TreeV::Node(k, strip_all(c)));
        },
        _ => {},
    }
}

/// Adding a whitespace or comment token to the innermost node changes
/// nothing once those are left out.
proof fn lemma_strip_trivia(f: Seq<(SyntaxKind, Seq<TreeV>)>, kind: SyntaxKind, text: Seq<char>)
    requires
        f.len() > 0,
        kind.spec_is_trivia(),
    ensures
        strip_frames(f.update(f.len() - 1, (f.last().0, f.last().1.push(TreeV::Token(kind, text))))) == strip_frames(f),
{
    lemma_strip_all_push(f.last().1, TreeV::Token(kind, text));
    assert(strip_frames(f.update(f.len() - 1, (f.last().0, f.last().1.push(TreeV::Token(kind, text))))) =~= strip_frames(f));
}

proof fn lemma_strip_token(f: Seq<(SyntaxKind, Seq<TreeV>)>, kind: SyntaxKind, text: Seq<char>)
    requires
        f.len() > 0,
        !kind.spec_is_trivia(),
    ensures
        strip_frames(f.update(f.len() - 1, (f.last().0, f.last().1.push(TreeV::Token(kind, text))))) == strip_frames(
            f,
        ).update(f.len() - 1, (f.last().0, strip_frames(f).last().1.push(TreeV::Token(kind, text)))),
{
    lemma_strip_all_push(f.last().1, TreeV::Token(kind, text));
    assert(strip_frames(f.update(f.len() - 1, (f.last().0, f.last().1.push(TreeV::Token(kind, text))))) =~= strip_frames(
        f,
    ).update(f.len() - 1, (f.last().0, strip_frames(f).last().1.push(TreeV::Token(kind, text)))));
}

proof fn lemma_strip_close(f: Seq<(SyntaxKind, Seq<TreeV>)>)
    requires
        f.len() >= 2,
    ensures
        ({
            let n = f.len() as int;
            let s = strip_frames(f);
            strip_frames(f.subrange(0, n - 2).push((f[n - 2].0, f[n - 2].1.push(TreeV::Node(f[n - 1].0, f[n - 1].1)))))
                == s.subrange(0, n - 2).push((s[n - 2].0, s[n - 2].1.push(TreeV::Node(s[n - 1].0, s[n - 1].1))))
        }),
{
    let n = f.len() as int;
    let s = strip_frames(f);
    lemma_strip_all_push(f[n - 2].1, TreeV::Node(f[n - 1].0, f[n - 1].1));
    assert(strip_frames(f.subrange(0, n - 2).push((f[n - 2].0, f[n - 2].1.push(TreeV::Node(f[n - 1].0, f[n - 1].1)))))
        =~= s.subrange(0, n - 2).push((s[n - 2].0, s[n - 2].1.push(TreeV::Node(s[n - 1].0, s[n - 1].1)))));
}

proof fn lemma_part_step(sig: Seq<(SyntaxKind, Seq<char>)>, q: int)
    requires
        0 <= q,
        2 * q + 3 <= sig.len(),
    ensures
        part(sig, q + 1) == TreeV::Node(
            SyntaxKind::BinaryExpr,
            seq![
                part(sig, q),
                TreeV::Token(sig[2 * q + 1].0, sig[2 * q + 1].1),
                TreeV::Token(sig[2 * q + 2].0, sig[2 * q + 2].1),
            ],
        ),
{
    let s = sig.subrange(0, 2 * q + 3);
    assert(s.subrange(0, 2 * q + 1) =~= sig.subrange(0, 2 * q + 1));
}

/// The lexeme at `c` is the next significant one after those before `c`.
proof fn lemma_next_significant(src: Seq<(SyntaxKind, Seq<char>)>, c: int, t: int)
    requires
        0 <= c < src.len(),
        0 <= t <= significant(src).len(),
        !src[c].0.spec_is_trivia(),
        significant(src.subrange(0, c)) == significant(src).subrange(0, t),
    ensures
        t < significant(src).len(),
        significant(src)[t] == src[c],
        significant(src.subrange(0, c + 1)) == significant(src).subrange(0, t + 1),
{
    let sig = significant(src);
    assert(src =~= src.subrange(0, c) + src.subrange(c, src.len() as int));
    lemma_significant_concat(src.subrange(0, c), src.subrange(c, src.len() as int));
    lemma_significant_from(src, c);
    let after = significant(src.subrange(c + 1, src.len() as int));
    assert(sig == sig.subrange(0, t) + (seq![src[c]] + after));
    assert(sig.len() == t + 1 + after.len());
    assert(sig[t] == (sig.subrange(0, t) + (seq![src[c]] + after))[t]);
    assert(src.subrange(0, c + 1).drop_last() =~= src.subrange(0, c));
    assert(sig.subrange(0, t + 1) =~= sig.subrange(0, t).push(sig[t]));
}

pub struct Sink<'l, 'a> {
    lexemes: &'l Vec<Lexeme<'a>>,
    cursor: usize,
    events: Vec<Event>,
    /// The open nodes, innermost last, above a frame for the top level.
    frames: Vec<(SyntaxKind, Vec<SyntaxElement>)>,
}

impl<'l, 'a> Sink<'l, 'a> {
    /// The lexemes that the tree is built from, as (kind, text) pairs.
    pub closed spec fn source(&self) -> Seq<(SyntaxKind, Seq<char>)> {
        lexemes_view(self.lexemes@)
    }

    pub closed spec fn frames(&self) -> Seq<(SyntaxKind, Seq<TreeV>)> {
        frames_view(self.frames@)
    }

    pub closed spec fn cursor(&self) -> int {
        self.cursor as int
    }

    pub closed spec fn events(&self) -> Seq<Event> {
        self.events@
    }

    /// Nothing is placed yet, and only the top level is open.
    pub closed spec fn fresh(&self) -> bool {
        self.cursor == 0 && self.frames() == seq![empty_frame(SyntaxKind::Root)]
    }

    pub closed spec fn placed(&self) -> Seq<char> {
        concat_texts(lexemes_view(self.lexemes@).subrange(0, self.cursor as int))
    }

    pub closed spec fn wf(&self) -> bool {
        &&& self.frames@.len() >= 1
        &&& self.cursor <= self.lexemes@.len()
        &&& frames_text(self.frames@) == self.placed()
    }

    pub fn new(lexemes: &'l Vec<Lexeme<'a>>, events: Vec<Event>) -> (r: Sink<'l, 'a>)
        ensures
            r.wf(),
            r.fresh(),
            r.source() == lexemes_view(lexemes@),
            r.events() == events@,
    {
        let mut frames: Vec<(SyntaxKind, Vec<SyntaxElement>)> = Vec::new();
        frames.push((SyntaxKind::Root, Vec::new()));
        let r = Sink { lexemes, cursor: 0, events, frames };
        proof {
            let e = Seq::<(SyntaxKind, Vec<SyntaxElement>)>::empty();
            assert(r.frames@ =~= e.push(r.frames@[0]));
            lemma_frames_text_push(e, r.frames@[0]);
            lemma_empty_text(r.frames@[0].1);
            assert(frames_text(r.frames@) =~= Seq::<char>::empty());
            assert(elements_view(r.frames@[0].1@) =~= Seq::<TreeV>::empty());
            assert(r.frames() =~= seq![empty_frame(SyntaxKind::Root)]);
        }
        assert(lexemes_view(lexemes@).subrange(0, 0) =~= Seq::<(SyntaxKind, Seq<char>)>::empty());
        r
    }

    fn open(&mut self, kind: SyntaxKind)
        requires
            old(self).wf(),
        ensures
            final(self).wf(),
            final(self).lexemes == old(self).lexemes,
            final(self).cursor == old(self).cursor,
            final(self).events == old(self).events,
            final(self).frames() == old(self).frames().push((kind, Seq::<TreeV>::empty())),
    {
        let ghost before = self.frames@;
        let f = (kind, Vec::new());
        proof {
            lemma_frames_text_push(before, f);
            lemma_empty_text(f.1);
            assert(frames_text(before.push(f)) =~= frames_text(before));
        }
        self.frames.push(f);
        proof {
            assert(elements_view(f.1@) =~= Seq::<TreeV>::empty());
            assert(self.frames() =~= frames_view(before).push((kind, Seq::<TreeV>::empty())));
        }
    }

    /// Closes the innermost open node, unless only the top level is left.
    fn close(&mut self)
        requires
            old(self).wf(),
        ensures
            final(self).wf(),
            final(self).lexemes == old(self).lexemes,
            final(self).cursor == old(self).cursor,
            final(self).events == old(self).events,
            final(self).frames@.len() == if old(self).frames@.len() > 1 {
                old(self).frames@.len() - 1
            } else {
                old(self).frames@.len() as int
            },
            final(self).frames() == if old(self).frames().len() > 1 {
                let f = old(self).frames();
                let n = f.len() as int;
                f.subrange(0, n - 2).push((f[n - 2].0, f[n - 2].1.push(TreeV::Node(f[n - 1].0, f[n - 1].1))))
            } else {
                old(self).frames()
            },
    {
        if self.frames.len() < 2 {
            return;
        }
        let ghost before = self.frames@;
        let (kind, children) = self.frames.pop().unwrap();
        let (parent_kind, mut siblings) = self.frames.pop().unwrap();
        let ghost base = self.frames@;
        let ghost old_siblings = siblings@;
        let ghost old_siblings_vec = siblings;
        let ghost children_vec = children;
        let node = SyntaxElement::Node(SyntaxNode { kind, children });
        siblings.push(node);
        proof {
            lemma_push_element(old_siblings, node);
        }
        let ghost siblings_vec = siblings;
        self.frames.push((parent_kind, siblings));
        proof {
            assert(before =~= base.push((parent_kind, old_siblings_vec)).push((kind, children_vec)));
            lemma_frames_text_push(base, (parent_kind, old_siblings_vec));
            lemma_frames_text_push(base.push((parent_kind, old_siblings_vec)), (kind, children_vec));
            assert(self.frames@ =~= base.push((parent_kind, siblings_vec)));
            lemma_frames_text_push(base, (parent_kind, siblings_vec));
            assert(frames_text(self.frames@) =~= frames_text(before));
            lemma_elements_push(old_siblings, node);
            let f = frames_view(before);
            let n = f.len() as int;
            assert(self.frames() =~= f.subrange(0, n - 2).push(
                (f[n - 2].0, f[n - 2].1.push(TreeV::Node(f[n - 1].0, f[n - 1].1))),
            ));
        }
    }

    /// Places the lexeme at the cursor as a token of the innermost open node.
    fn place(&mut self)
        requires
            old(self).wf(),
            old(self).cursor < old(self).lexemes@.len(),
        ensures
            final(self).wf(),
            final(self).lexemes == old(self).lexemes,
            final(self).cursor == old(self).cursor + 1,
            final(self).events == old(self).events,
            final(self).frames@.len() == old(self).frames@.len(),
            final(self).frames() == old(self).frames().update(
                old(self).frames().len() - 1,
                (
                    old(self).frames().last().0,
                    old(self).frames().last().1.push(
                        TreeV::Token(old(self).source()[old(self).cursor()].0, old(self).source()[old(self).cursor()].1),
                    ),
                ),
            ),
    {
        let ghost before = self.frames@;
        let ghost all = lexemes_view(self.lexemes@);
        let n = self.lexemes.len();
        let lexeme = &self.lexemes[self.cursor];
        let token = SyntaxElement::Token(SyntaxToken { kind: lexeme.kind, text: String::from_str(lexeme.text) });
        let (kind, mut children) = self.frames.pop().unwrap();
        let ghost base = self.frames@;
        let ghost old_children = children;
        children.push(token);
        proof {
            lemma_push_element(old_children@, token);
        }
        let ghost new_children = children;
        self.frames.push((kind, children));
        proof {
            assert(before =~= base.push((kind, old_children)));
            lemma_frames_text_push(base, (kind, old_children));
            lemma_frames_text_push(base, (kind, new_children));
            lemma_concat_texts_push(all, self.cursor as int);
            assert(all[self.cursor as int].1 == lexeme.text@);
            assert(frames_text(self.frames@) =~= frames_text(before) + all[self.cursor as int].1);
            lemma_elements_push(old_children@, token);
            let f = frames_view(before);
            assert(self.frames() =~= f.update(
                f.len() - 1,
                (f.last().0, f.last().1.push(TreeV::Token(all[self.cursor as int].0, all[self.cursor as int].1))),
            ));
        }
        self.cursor = self.cursor + 1;
    }

    /// Places the whitespace and comments at the cursor.
    fn eat_trivia(&mut self)
        requires
            old(self).wf(),
        ensures
            final(self).wf(),
            final(self).lexemes == old(self).lexemes,
            final(self).cursor >= old(self).cursor,
            final(self).events == old(self).events,
            final(self).frames@.len() == old(self).frames@.len(),
            strip_frames(final(self).frames()) == strip_frames(old(self).frames()),
            old(self).frames().len() > 1 ==> final(self).frames()[0] == old(self).frames()[0],
            old(self).cursor() == old(self).source().len() ==> final(self).frames() == old(self).frames(),
            significant(final(self).source().subrange(0, final(self).cursor())) == significant(
                old(self).source().subrange(0, old(self).cursor()),
            ),
            final(self).cursor() < final(self).source().len() ==> !final(self).source()[final(self).cursor()].0.spec_is_trivia(),
    {
        let ghost all = self.source();
        while self.cursor < self.lexemes.len() && self.lexemes[self.cursor].kind.is_trivia()
            invariant
                self.wf(),
                self.lexemes == old(self).lexemes,
                self.cursor >= old(self).cursor,
                self.events == old(self).events,
                self.frames@.len() == old(self).frames@.len(),
                all == self.source(),
                strip_frames(self.frames()) == strip_frames(old(self).frames()),
                old(self).frames().len() > 1 ==> self.frames()[0] == old(self).frames()[0],
                old(self).cursor() == old(self).source().len() ==> self.frames() == old(self).frames(),
                significant(all.subrange(0, self.cursor())) == significant(all.subrange(0, old(self).cursor())),
            decreases self.lexemes@.len() - self.cursor,
        {
            let ghost before = self.frames();
            let ghost c = self.cursor();
            self.place();
            proof {
                lemma_strip_trivia(before, all[c].0, all[c].1);
                assert(all.subrange(0, c + 1).drop_last() =~= all.subrange(0, c));
            }
        }
    }

    /// Builds the tree. Every lexeme lands in it, in order, whatever the
    /// events; for balanced events the tree is the node that the first
    /// event opens.
    pub fn finish(self) -> (r: SyntaxNode)
        requires
            self.wf(),
            self.fresh(),
        ensures
            tree_text(node_view(r)) == concat_texts(self.source()),
            ({
                let sig = significant(self.source());
                is_chain(sig) && events_view(self.events()) == chain_stream(sig) ==> strip(node_view(r))
                    == TreeV::Node(SyntaxKind::Root, seq![left_nested(sig)])
            }),
    {
        let mut sink = self;
        sink.build()
    }

    /// Whether the events are those of a whole operator chain over the
    /// significant lexemes.
    pub open spec fn replays_chain(&self) -> bool {
        let sig = significant(self.source());
        is_chain(sig) && events_view(self.events()) == chain_stream(sig)
    }

    /// Where a chain's replay stands once its first `i` events are done.
    pub open spec fn chain_state(&self, i: int) -> bool {
        let src = self.source();
        let sig = significant(src);
        let m = chain_ops(sig);
        &&& strip_frames(self.frames()) == chain_frames(sig, i)
        &&& significant(src.subrange(0, self.cursor())) == sig.subrange(0, chain_placed(sig, i))
        &&& (i >= 1 && self.cursor() < src.len() ==> !src[self.cursor()].0.spec_is_trivia())
        &&& (chain_placed(sig, i) == sig.len() ==> self.cursor() == src.len())
        &&& self.frames()[0].1.len() == (if i == 4 * m + 3 {
            1int
        } else {
            0
        })
    }

    /// Opens the nodes whose checkpoint is event `i`, the one started last
    /// outermost.
    fn open_pending(&mut self, i: usize)
        requires
            old(self).wf(),
            i < old(self).events().len(),
        ensures
            final(self).wf(),
            final(self).lexemes == old(self).lexemes,
            final(self).cursor == old(self).cursor,
            final(self).events == old(self).events,
            old(self).replays_chain() && i != 1 ==> final(self).frames() == old(self).frames(),
            old(self).replays_chain() && i == 1 ==> {
                &&& final(self).frames()[0] == old(self).frames()[0]
                &&& strip_frames(final(self).frames()) == strip_frames(old(self).frames()) + Seq::new(
                    chain_ops(significant(old(self).source())) as nat,
                    |k: int| empty_frame(SyntaxKind::BinaryExpr),
                )
            },
    {
        let ghost sig = significant(self.source());
        let ghost m = chain_ops(sig);
        let ghost chain = self.replays_chain();
        proof {
            if chain {
                lemma_chain_stream_at(sig, m);
                assert(Seq::new(0, |k: int| empty_frame(SyntaxKind::BinaryExpr)) =~= Seq::<(SyntaxKind, Seq<TreeV>)>::empty());
                assert(strip_frames(self.frames()) + Seq::<(SyntaxKind, Seq<TreeV>)>::empty() =~= strip_frames(self.frames()));
            }
        }
        let n = self.events.len();
        let mut j = n;
        while j > i
            invariant
                self.wf(),
                self.lexemes == old(self).lexemes,
                self.cursor == old(self).cursor,
                self.events == old(self).events,
                n == self.events@.len(),
                i < n,
                i <= j <= n,
                chain == old(self).replays_chain(),
                sig == significant(self.source()),
                m == chain_ops(sig),
                chain ==> {
                    &&& n == 4 * m + 3
                    &&& m >= 1
                    &&& forall|e: int| 0 <= e < n ==> #[trigger] events_view(self.events())[e] == stream_at(sig, e)
                    &&& i != 1 ==> self.frames() == old(self).frames()
                    &&& i == 1 ==> self.frames()[0] == old(self).frames()[0] && strip_frames(self.frames())
                        == strip_frames(old(self).frames()) + Seq::new(
                        (m + 1 - (j + 4) / 4) as nat,
                        |k: int| empty_frame(SyntaxKind::BinaryExpr),
                    )
                },
            decreases j,
        {
            j = j - 1;
            let ghost before = self.frames();
            proof {
                if chain {
                    assert(events_view(self.events())[j as int] == event_view(self.events()[j as int]));
                    let w = (j - 3) / 4;
                    if j >= 3 && (j - 3) % 4 == 0 {
                        assert(j == 4 * w + 3);
                        assert((j + 5) / 4 == w + 2);
                        assert((j + 4) / 4 == w + 1);
                    } else {
                        assert((j + 5) / 4 == (j + 4) / 4);
                    }
                }
            }
            match &self.events[j] {
                Event::StartNodeAt { kind, checkpoint } => {
                    if *checkpoint == i {
                        let k = *kind;
                        self.open(k);
                        proof {
                            if chain {
                                assert(k == SyntaxKind::BinaryExpr);
                                assert(strip_frames(self.frames()) =~= strip_frames(before).push(empty_frame(k)));
                                assert(strip_frames(self.frames()) =~= strip_frames(old(self).frames()) + Seq::new(
                                    (m + 1 - (j + 4) / 4) as nat,
                                    |k: int| empty_frame(SyntaxKind::BinaryExpr),
                                ));
                            }
                        }
                    }
                },
                _ => {},
            }
        }
    }

    /// Where a chain's replay stands once the nodes pending at event `i` are
    /// open.
    pub open spec fn chain_opened(&self, i: int) -> bool {
        let src = self.source();
        let sig = significant(src);
        let m = chain_ops(sig);
        &&& strip_frames(self.frames()) == (if i == 1 {
            waiting(m)
        } else {
            chain_frames(sig, i)
        })
        &&& significant(src.subrange(0, self.cursor())) == sig.subrange(0, chain_placed(sig, i))
        &&& (i >= 1 && self.cursor() < src.len() ==> !src[self.cursor()].0.spec_is_trivia())
        &&& (chain_placed(sig, i) == sig.len() ==> self.cursor() == src.len())
        &&& self.frames()[0].1.len() == 0
    }

    /// Replays event `i` itself.
    fn replay_event(&mut self, i: usize)
        requires
            old(self).wf(),
            i < old(self).events().len(),
        ensures
            final(self).wf(),
            final(self).lexemes == old(self).lexemes,
            final(self).events == old(self).events,
            !(old(self).events()[i as int] is AddToken) ==> final(self).cursor == old(self).cursor,
            old(self).replays_chain() && old(self).chain_opened(i as int) ==> {
                let src = final(self).source();
                let sig = significant(src);
                let m = chain_ops(sig);
                &&& strip_frames(final(self).frames()) == chain_frames(sig, i + 1)
                &&& significant(src.subrange(0, final(self).cursor())) == sig.subrange(0, chain_placed(sig, i + 1))
                &&& final(self).frames()[0].1.len() == (if i + 1 == 4 * m + 3 {
                    1int
                } else {
                    0
                })
            },
    {
        let ghost src = self.source();
        let ghost sig = significant(src);
        let ghost m = chain_ops(sig);
        let ghost chain = self.replays_chain() && self.chain_opened(i as int);
        let ghost f = self.frames();
        let ghost c0 = self.cursor();
        proof {
            if chain {
                lemma_chain_stream_at(sig, m);
                lemma_chain_step(sig, i as int);
                assert(events_view(self.events())[i as int] == event_view(self.events()[i as int]));
            }
        }
        match &self.events[i] {
            Event::StartNode { kind } => {
                let k = *kind;
                self.open(k);
                proof {
                    if chain {
                        assert(strip_frames(self.frames()) =~= strip_frames(f).push(empty_frame(k)));
                    }
                }
            },
            Event::StartNodeAt { .. } => {},
            Event::AddToken { .. } => {
                proof {
                    if chain {
                        let t = chain_placed(sig, i as int);
                        if c0 == src.len() {
                            assert(src.subrange(0, src.len() as int) =~= src);
                            assert(false);
                        }
                        lemma_next_significant(src, c0, t);
                    }
                }
                if self.cursor < self.lexemes.len() {
                    self.place();
                }
                proof {
                    if chain {
                        lemma_strip_token(f, src[c0].0, src[c0].1);
                    }
                }
            },
            Event::FinishNode => {
                self.close();
                proof {
                    if chain {
                        lemma_strip_close(f);
                    }
                }
            },
        }
    }

    fn build(&mut self) -> (r: SyntaxNode)
        requires
            old(self).wf(),
            old(self).fresh(),
        ensures
            tree_text(node_view(r)) == concat_texts(lexemes_view(old(self).lexemes@)),
            old(self).replays_chain() ==> strip(node_view(r)) == TreeV::Node(
                SyntaxKind::Root,
                seq![left_nested(significant(old(self).source()))],
            ),
    {
        let ghost lexemes = self.lexemes;
        let ghost sig = significant(self.source());
        let ghost m = chain_ops(sig);
        let ghost chain = self.replays_chain();
        let n = self.events.len();
        let mut i: usize = 0;
        proof {
            if chain {
                lemma_chain_stream_at(sig, m);
                assert(self.source().subrange(0, 0) =~= Seq::<(SyntaxKind, Seq<char>)>::empty());
                assert(sig.subrange(0, 0) =~= Seq::<(SyntaxKind, Seq<char>)>::empty());
                assert(strip_frames(self.frames()) =~= chain_frames(sig, 0));
            }
        }
        while i < n
            invariant
                self.wf(),
                self.lexemes == lexemes,
                n == self.events@.len(),
                i <= n,
                chain == self.replays_chain(),
                sig == significant(self.source()),
                m == chain_ops(sig),
                chain ==> n == 4 * m + 3 && m >= 1 && sig.len() == 2 * m + 1,
                chain ==> self.chain_state(i as int),
            decreases n - i,
        {
            self.open_pending(i);
            proof {
                if chain {
                    if i == 1 {
                        assert(strip_frames(self.frames()) =~= waiting(m));
                    }
                    assert(self.chain_opened(i as int));
                }
            }
            let ghost c0 = self.cursor();
            proof {
                if chain {
                    lemma_chain_stream_at(sig, m);
                    lemma_chain_step(sig, i as int);
                    assert(events_view(self.events())[i as int] == event_view(self.events()[i as int]));
                }
            }
            self.replay_event(i);
            let ghost c1 = self.cursor();
            let ghost f1 = self.frames();
            proof {
                if chain && i + 1 == n {
                    assert(self.events()[i as int] is FinishNode);
                    assert(c1 == c0);
                    assert(chain_placed(sig, i as int) == sig.len());
                    assert(c1 == self.source().len());
                }
            }
            self.eat_trivia();
            proof {
                if chain {
                    let src = self.source();
                    let c = self.cursor();
                    let t = chain_placed(sig, i + 1);
                    assert(0 <= t <= sig.len());
                    if c < src.len() {
                        lemma_next_significant(src, c, t);
                    }
                    assert(strip_frames(self.frames()) == chain_frames(sig, i + 1));
                    assert(significant(src.subrange(0, c)) == sig.subrange(0, t));
                    assert(t == sig.len() ==> c == src.len());
                    lemma_chain_frames_len(sig, i + 1);
                    if i + 1 == n {
                        assert(self.frames() == f1);
                    } else {
                        assert(strip_frames(f1).len() == f1.len());
                        assert(f1.len() > 1);
                    }
                    assert(self.frames()[0].1.len() == (if i + 1 == 4 * m + 3 {
                        1int
                    } else {
                        0
                    }));
                }
            }
            i = i + 1;
        }
        let ghost end_frames = self.frames();
        proof {
            if chain {
                lemma_chain_frames_len(sig, n as int);
                assert(strip_frames(end_frames).len() == end_frames.len());
            }
        }
        while self.cursor < self.lexemes.len()
            invariant
                self.wf(),
                self.lexemes == lexemes,
                chain ==> self.cursor() == self.source().len() && self.frames() == end_frames,
            decreases self.lexemes@.len() - self.cursor,
        {
            self.place();
        }
        while self.frames.len() > 1
            invariant
                self.wf(),
                self.lexemes == lexemes,
                self.cursor == self.lexemes@.len(),
                chain ==> self.frames() == end_frames && end_frames.len() == 1,
            decreases self.frames@.len(),
        {
            self.close();
        }
        proof {
            assert(lexemes_view(lexemes@).subrange(0, lexemes@.len() as int) =~= lexemes_view(lexemes@));
            let e = Seq::<(SyntaxKind, Vec<SyntaxElement>)>::empty();
            assert(self.frames@ =~= e.push(self.frames@[0]));
            lemma_frames_text_push(e, self.frames@[0]);
            assert(frames_text(self.frames@) =~= trees_text(elements_view(self.frames@[0].1@)));
        }
        let (_, mut top) = self.frames.pop().unwrap();
        let ghost full = top@;
        proof {
            lemma_elements_len(full);
        }
        if top.len() == 1 {
            let ghost whole = top@;
            let only = top.pop().unwrap();
            match only {
                SyntaxElement::Node(node) => {
                    proof {
                        assert(whole =~= Seq::<SyntaxElement>::empty().push(only));
                        lemma_push_element(Seq::<SyntaxElement>::empty(), only);
                        assert(elements_view(Seq::<SyntaxElement>::empty()) =~= Seq::<crate::syntax::TreeV>::empty());
                        assert(trees_text(elements_view(whole)) =~= tree_text(element_view(only)));
                        if chain {
                            lemma_elements_push(Seq::<SyntaxElement>::empty(), only);
                            lemma_strip_all_push(Seq::<TreeV>::empty(), element_view(only));
                            assert(sig.subrange(0, 2 * m + 1) =~= sig);
                            assert(elements_view(Seq::<SyntaxElement>::empty()) =~= Seq::<TreeV>::empty());
                            assert(strip_all(Seq::<TreeV>::empty()) =~= Seq::<TreeV>::empty());
                            assert(elements_view(whole) == seq![element_view(only)]);
                            assert(strip_frames(end_frames)[0].1 == strip_all(elements_view(whole)));
                            assert(strip_all(elements_view(whole)) == seq![TreeV::Node(SyntaxKind::Root, seq![part(sig, m)])]);
                            assert(node_view(node) == element_view(only));
                            assert(strip(node_view(node)) == TreeV::Node(node.kind, strip_all(elements_view(node.children@))));
                            let x = element_view(only);
                            assert(Seq::<TreeV>::empty().push(x) =~= seq![x]);
                            assert(strip_all(seq![x]) == seq![TreeV::Node(node.kind, strip_all(elements_view(node.children@)))]);
                            assert(strip_all(seq![x])[0] == TreeV::Node(SyntaxKind::Root, seq![part(sig, m)]));
                            assert(strip(node_view(node)) == TreeV::Node(SyntaxKind::Root, seq![part(sig, m)]));
                            assert(part(sig, m) == left_nested(sig));
                        }
                    }
                    return node;
                },
                SyntaxElement::Token(t) => {
                    proof {
                        if chain {
                            lemma_elements_push(Seq::<SyntaxElement>::empty(), only);
                            lemma_strip_all_push(Seq::<TreeV>::empty(), element_view(only));
                            assert(elements_view(Seq::<SyntaxElement>::empty()) =~= Seq::<TreeV>::empty());
                            assert(strip_all(Seq::<TreeV>::empty()) =~= Seq::<TreeV>::empty());
                            assert(elements_view(whole) == seq![element_view(only)]);
                            assert(strip_frames(end_frames)[0].1 == strip_all(elements_view(whole)));
                            assert(false);
                        }
                    }
                    top.push(SyntaxElement::Token(t));
                    assert(top@ =~= full);
                },
            }
        }
        assert(top@ == full);
        proof {
            if chain {
                assert(full.len() == 1);
            }
        }
        SyntaxNode { kind: SyntaxKind::Root, children: top }
    }
}

proof fn lemma_concat_texts_push(all: Seq<(SyntaxKind, Seq<char>)>, k: int)
    requires
        0 <= k < all.len(),
    ensures
        concat_texts(all.subrange(0, k + 1)) == concat_texts(all.subrange(0, k)) + all[k].1,
    decreases k,
{
    let a = all.subrange(0, k + 1);
    if k == 0 {
        assert(a.subrange(1, a.len() as int) =~= Seq::<(SyntaxKind, Seq<char>)>::empty());
        assert(all.subrange(0, 0) =~= Seq::<(SyntaxKind, Seq<char>)>::empty());
        assert(a[0].1 + Seq::<char>::empty() =~= a[0].1);
        assert(Seq::<char>::empty() + all[k].1 =~= all[k].1);
    } else {
        let tail = all.subrange(1, all.len() as int);
        lemma_concat_texts_push(tail, k - 1);
        assert(a.subrange(1, a.len() as int) =~= tail.subrange(0, k));
        let b = all.subrange(0, k);
        assert(b.subrange(1, b.len() as int) =~= tail.subrange(0, k - 1));
        assert(tail[k - 1] == all[k]);
    }
}

/// The events of a whole chain: a root node around the chain's events, with
/// every binary node opened at the root's first child.
pub open spec fn chain_stream(sig: Seq<(SyntaxKind, Seq<char>)>) -> Seq<EventV> {
    seq![EventV::StartNode(SyntaxKind::Root)] + chain_events(sig, 1) + seq![EventV::FinishNode]
}

/// Event `e` of `chain_events(sig, cp)`.
pub open spec fn chain_event_at(sig: Seq<(SyntaxKind, Seq<char>)>, cp: int, e: int) -> EventV {
    if e == 0 {
        EventV::AddToken(sig[0].0, sig[0].1)
    } else {
        let q = (e - 1) / 4;
        let r = (e - 1) % 4;
        if r == 0 {
            EventV::AddToken(sig[2 * q + 1].0, sig[2 * q + 1].1)
        } else if r == 1 {
            EventV::StartNodeAt(SyntaxKind::BinaryExpr, cp)
        } else if r == 2 {
            EventV::AddToken(sig[2 * q + 2].0, sig[2 * q + 2].1)
        } else {
            EventV::FinishNode
        }
    }
}

pub proof fn lemma_chain_events_at(sig: Seq<(SyntaxKind, Seq<char>)>, cp: int, m: int)
    requires
        m >= 0,
        sig.len() == 2 * m + 1,
    ensures
        chain_events(sig, cp).len() == 4 * m + 1,
        forall|e: int| 0 <= e < 4 * m + 1 ==> #[trigger] chain_events(sig, cp)[e] == chain_event_at(sig, cp, e),
    decreases m,
{
    if m > 0 {
        let n = sig.len() as int;
        let pre = sig.subrange(0, n - 2);
        lemma_chain_events_at(pre, cp, m - 1);
        let c = chain_events(sig, cp);
        assert forall|e: int| 0 <= e < 4 * m + 1 implies #[trigger] c[e] == chain_event_at(sig, cp, e) by {
            if e < 4 * m - 3 {
                assert(c[e] == chain_events(pre, cp)[e]);
                if e > 0 {
                    let q = (e - 1) / 4;
                    assert(2 * q + 2 < n - 2) by (nonlinear_arith)
                        requires
                            q == (e - 1) / 4,
                            e < 4 * m - 3,
                            e >= 1,
                            n == 2 * m + 1,
                    ;
                    assert(pre[2 * q + 1] == sig[2 * q + 1]);
                    assert(pre[2 * q + 2] == sig[2 * q + 2]);
                }
            } else {
                let q = (e - 1) / 4;
                assert(q == m - 1 && (e - 1) % 4 == e - (4 * m - 3)) by (nonlinear_arith)
                    requires
                        q == (e - 1) / 4,
                        4 * m - 3 <= e < 4 * m + 1,
                ;
            }
        }
    } else {
        assert(chain_events(sig, cp) =~= seq![EventV::AddToken(sig[0].0, sig[0].1)]);
    }
}

/// The number of operators of a chain.
pub open spec fn chain_ops(sig: Seq<(SyntaxKind, Seq<char>)>) -> int {
    (sig.len() - 1) / 2
}

/// The tree of the first `k + 1` operands of a chain, grouped to the left.
pub open spec fn part(sig: Seq<(SyntaxKind, Seq<char>)>, k: int) -> TreeV {
    left_nested(sig.subrange(0, 2 * k + 1))
}

pub open spec fn empty_frame(kind: SyntaxKind) -> (SyntaxKind, Seq<TreeV>) {
    (kind, Seq::empty())
}

/// The top level, the root, and `count` binary nodes, all still empty.
pub open spec fn waiting(count: int) -> Seq<(SyntaxKind, Seq<TreeV>)> {
    seq![empty_frame(SyntaxKind::Root), empty_frame(SyntaxKind::Root)] + Seq::new(
        count as nat,
        |j: int| empty_frame(SyntaxKind::BinaryExpr),
    )
}

/// The open nodes, without whitespace and comments, once the first `i`
/// events of `chain_stream(sig)` are replayed.
pub open spec fn chain_frames(sig: Seq<(SyntaxKind, Seq<char>)>, i: int) -> Seq<(SyntaxKind, Seq<TreeV>)> {
    let m = chain_ops(sig);
    if i == 0 {
        seq![empty_frame(SyntaxKind::Root)]
    } else if i == 1 {
        seq![empty_frame(SyntaxKind::Root), empty_frame(SyntaxKind::Root)]
    } else if i == 4 * m + 3 {
        seq![(SyntaxKind::Root, seq![TreeV::Node(SyntaxKind::Root, seq![part(sig, m)])])]
    } else {
        let q = (i - 2) / 4;
        let r = (i - 2) % 4;
        if r == 0 {
            if q < m {
                waiting(m - q - 1).push((SyntaxKind::BinaryExpr, seq![part(sig, q)]))
            } else {
                seq![empty_frame(SyntaxKind::Root), (SyntaxKind::Root, seq![part(sig, m)])]
            }
        } else if r == 1 || r == 2 {
            waiting(m - q - 1).push(
                (SyntaxKind::BinaryExpr, seq![part(sig, q), TreeV::Token(sig[2 * q + 1].0, sig[2 * q + 1].1)]),
            )
        } else {
            waiting(m - q - 1).push(
                (
                    SyntaxKind::BinaryExpr,
                    seq![
                        part(sig, q),
                        TreeV::Token(sig[2 * q + 1].0, sig[2 * q + 1].1),
                        TreeV::Token(sig[2 * q + 2].0, sig[2 * q + 2].1),
                    ],
                ),
            )
        }
    }
}

/// How many tokens the first `i` events of `chain_stream(sig)` place.
pub open spec fn chain_placed(sig: Seq<(SyntaxKind, Seq<char>)>, i: int) -> int {
    let m = chain_ops(sig);
    if i <= 1 {
        0
    } else if i == 4 * m + 3 {
        2 * m + 1
    } else {
        let q = (i - 2) / 4;
        let r = (i - 2) % 4;
        2 * q + 1 + (if r >= 1 {
            1int
        } else {
            0
        }) + (if r == 3 {
            1int
        } else {
            0
        })
    }
}

/// Event `i` of `chain_stream(sig)`, for a chain of `m` operators.
pub open spec fn stream_at(sig: Seq<(SyntaxKind, Seq<char>)>, i: int) -> EventV {
    if i == 0 {
        EventV::StartNode(SyntaxKind::Root)
    } else if i == 4 * chain_ops(sig) + 2 {
        EventV::FinishNode
    } else {
        chain_event_at(sig, 1, i - 1)
    }
}

pub proof fn lemma_chain_stream_at(sig: Seq<(SyntaxKind, Seq<char>)>, m: int)
    requires
        is_chain(sig),
        m == chain_ops(sig),
    ensures
        m >= 1,
        sig.len() == 2 * m + 1,
        chain_stream(sig).len() == 4 * m + 3,
        forall|i: int| 0 <= i < 4 * m + 3 ==> #[trigger] chain_stream(sig)[i] == stream_at(sig, i),
{
    lemma_chain_events_at(sig, 1, m);
    let c = chain_events(sig, 1);
    assert forall|i: int| 0 <= i < 4 * m + 3 implies #[trigger] chain_stream(sig)[i] == stream_at(sig, i) by {
        if i > 0 && i < 4 * m + 2 {
            assert(chain_stream(sig)[i] == c[i - 1]);
        }
    }
}

/// The frames before event `i` of a chain is replayed (once the nodes
/// pending at `i` are open).
pub open spec fn frames_before(sig: Seq<(SyntaxKind, Seq<char>)>, i: int) -> Seq<(SyntaxKind, Seq<TreeV>)> {
    if i == 1 {
        waiting(chain_ops(sig))
    } else {
        chain_frames(sig, i)
    }
}

pub open spec fn with_token(f: Seq<(SyntaxKind, Seq<TreeV>)>, x: (SyntaxKind, Seq<char>)) -> Seq<(SyntaxKind, Seq<TreeV>)> {
    f.update(f.len() - 1, (f.last().0, f.last().1.push(TreeV::Token(x.0, x.1))))
}

pub open spec fn close_top(f: Seq<(SyntaxKind, Seq<TreeV>)>) -> Seq<(SyntaxKind, Seq<TreeV>)> {
    let n = f.len() as int;
    f.subrange(0, n - 2).push((f[n - 2].0, f[n - 2].1.push(TreeV::Node(f[n - 1].0, f[n - 1].1))))
}

/// What event `i` of a chain does to the open nodes and to the count of
/// placed tokens.
pub proof fn lemma_chain_step(sig: Seq<(SyntaxKind, Seq<char>)>, i: int)
    requires
        is_chain(sig),
        0 <= i < 4 * chain_ops(sig) + 3,
    ensures
        ({
            let m = chain_ops(sig);
            let f = frames_before(sig, i);
            let t = chain_placed(sig, i);
            &&& 0 <= t <= sig.len()
            &&& f.len() >= 1
            &&& f[0] == empty_frame(SyntaxKind::Root)
            &&& match stream_at(sig, i) {
                EventV::StartNode(k) => i == 0 && chain_frames(sig, 1) == f.push(empty_frame(k))
                    && chain_placed(sig, 1) == t,
                EventV::StartNodeAt(_, _) => chain_frames(sig, i + 1) == f && chain_placed(sig, i + 1) == t,
                EventV::AddToken(k, text) => {
                    &&& t < sig.len()
                    &&& (k, text) == sig[t]
                    &&& f.len() >= 2
                    &&& chain_frames(sig, i + 1) == with_token(f, sig[t])
                    &&& chain_placed(sig, i + 1) == t + 1
                },
                EventV::FinishNode => {
                    &&& f.len() >= 2
                    &&& chain_frames(sig, i + 1) == close_top(f)
                    &&& chain_placed(sig, i + 1) == t
                    &&& (f.len() == 2 <==> i == 4 * m + 2)
                },
            }
        }),
{
    let m = chain_ops(sig);
    let f = frames_before(sig, i);
    assert(sig.len() == 2 * m + 1);
    let q = (i - 2) / 4;
    let r = (i - 2) % 4;
    if i == 0 {
        assert(chain_frames(sig, 1) =~= f.push(empty_frame(SyntaxKind::Root)));
    } else if i == 1 {
        assert(part(sig, 0) == TreeV::Token(sig[0].0, sig[0].1));
        assert(waiting(m)[0] == empty_frame(SyntaxKind::Root));
        assert(chain_frames(sig, 2) =~= with_token(f, sig[0]));
    } else if i == 4 * m + 2 {
        assert(chain_frames(sig, i + 1) =~= close_top(f));
    } else {
        assert(i == 4 * q + 2 + r);
        assert(q < m);
        assert(waiting(m - q - 1)[0] == empty_frame(SyntaxKind::Root));
        assert((i + 1 - 2) / 4 == q + (if r == 3 { 1int } else { 0 }));
        assert((i + 1 - 2) % 4 == (if r == 3 { 0int } else { r + 1 }));
        let a = TreeV::Token(sig[2 * q + 1].0, sig[2 * q + 1].1);
        let b = TreeV::Token(sig[2 * q + 2].0, sig[2 * q + 2].1);
        if r == 0 {
            assert(seq![part(sig, q)].push(a) =~= seq![part(sig, q), a]);
            assert(chain_frames(sig, i + 1) =~~= with_token(f, sig[2 * q + 1]));
        } else if r == 1 {
            assert(chain_frames(sig, i + 1) =~= f);
        } else if r == 2 {
            assert(seq![part(sig, q), a].push(b) =~= seq![part(sig, q), a, b]);
            assert(chain_frames(sig, i + 1) =~~= with_token(f, sig[2 * q + 2]));
        } else {
            lemma_part_step(sig, q);
            if q + 1 < m {
                assert(waiting(m - q - 1) =~= waiting(m - q - 2).push(empty_frame(SyntaxKind::BinaryExpr)));
            } else {
                assert(waiting(m - q - 1) =~= seq![empty_frame(SyntaxKind::Root), empty_frame(SyntaxKind::Root)]);
            }
            assert(chain_frames(sig, i + 1) =~= close_top(f));
        }
    }
}

pub proof fn lemma_chain_frames_len(sig: Seq<(SyntaxKind, Seq<char>)>, k: int)
    requires
        is_chain(sig),
        1 <= k <= 4 * chain_ops(sig) + 3,
    ensures
        k < 4 * chain_ops(sig) + 3 ==> chain_frames(sig, k).len() >= 2,
        k == 4 * chain_ops(sig) + 3 ==> chain_frames(sig, k).len() == 1,
{
}

} // verus!
