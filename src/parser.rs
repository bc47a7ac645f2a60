//! The precedence-climbing parser over lexemes. It emits events rather than
//! a tree: a binary node is opened after its left operand was read, at a
//! checkpoint taken before it.
use vstd::prelude::*;
use crate::ast::Op;
use crate::event::Event;
use crate::lexer::{lemma_lex_covers, lex, lex_spec, lexemes_view, Lexeme, SyntaxKind};
use crate::sink::{chain_stream, Sink};
use crate::syntax::{left_nested, node_view, strip, tree_text, SyntaxNode, TreeV};

verus! {

/// The lexemes of `s` that are not whitespace or comments.
pub open spec fn significant(s: Seq<(SyntaxKind, Seq<char>)>) -> Seq<(SyntaxKind, Seq<char>)>
    decreases s.len(),
{
    if s.len() == 0 {
        Seq::empty()
    } else if s.last().0.spec_is_trivia() {
        significant(s.drop_last())
    } else {
        significant(s.drop_last()).push(s.last())
    }
}

/// The (kind, text) pairs that the `AddToken` events of `events` carry.
pub open spec fn tokens(events: Seq<Event>) -> Seq<(SyntaxKind, Seq<char>)>
    decreases events.len(),
{
    if events.len() == 0 {
        Seq::empty()
    } else {
        match events.last() {
            Event::AddToken { kind, text } => tokens(events.drop_last()).push((kind, text@)),
            _ => tokens(events.drop_last()),
        }
    }
}

/// An event as a mathematical value.
pub enum EventV {
    StartNode(SyntaxKind),
    StartNodeAt(SyntaxKind, int),
    AddToken(SyntaxKind, Seq<char>),
    FinishNode,
}

pub open spec fn event_view(e: Event) -> EventV {
    match e {
        Event::StartNode { kind } => EventV::StartNode(kind),
        Event::StartNodeAt { kind, checkpoint } => EventV::StartNodeAt(kind, checkpoint as int),
        Event::AddToken { kind, text } => EventV::AddToken(kind, text@),
        Event::FinishNode => EventV::FinishNode,
    }
}

pub open spec fn events_view(events: Seq<Event>) -> Seq<EventV> {
    Seq::new(events.len(), |i: int| event_view(events[i]))
}

pub open spec fn is_operand(k: SyntaxKind) -> bool {
    k == SyntaxKind::Number || k == SyntaxKind::Ident
}

pub open spec fn is_binary_op(k: SyntaxKind) -> bool {
    k == SyntaxKind::Plus || k == SyntaxKind::Minus || k == SyntaxKind::Star || k == SyntaxKind::Slash
}

/// The left binding power of an operator token.
pub open spec fn token_power(k: SyntaxKind) -> int {
    if k == SyntaxKind::Plus || k == SyntaxKind::Minus {
        1
    } else {
        3
    }
}

/// `operand op operand op ... operand`, with at least one operator, and the
/// same operator throughout.
pub open spec fn is_chain(sig: Seq<(SyntaxKind, Seq<char>)>) -> bool {
    &&& sig.len() >= 3
    &&& sig.len() % 2 == 1
    &&& is_binary_op(sig[1].0)
    &&& forall|i: int| 0 <= i < sig.len() ==> if i % 2 == 0 {
        is_operand(#[trigger] sig[i].0)
    } else {
        sig[i].0 == sig[1].0
    }
}

/// The events of a chain whose binary nodes all open at `checkpoint`: the
/// first operand, then for each operator the operator, a node opened at the
/// checkpoint, the right operand, and the node's end.
pub open spec fn chain_events(sig: Seq<(SyntaxKind, Seq<char>)>, checkpoint: int) -> Seq<EventV>
    decreases sig.len(),
{
    if sig.len() < 3 {
        if sig.len() == 1 {
            seq![EventV::AddToken(sig[0].0, sig[0].1)]
        } else {
            Seq::empty()
        }
    } else {
        let n = sig.len() as int;
        chain_events(sig.subrange(0, n - 2), checkpoint) + seq![
            EventV::AddToken(sig[n - 2].0, sig[n - 2].1),
            EventV::StartNodeAt(SyntaxKind::BinaryExpr, checkpoint),
            EventV::AddToken(sig[n - 1].0, sig[n - 1].1),
            EventV::FinishNode,
        ]
    }
}

pub proof fn lemma_significant_concat(a: Seq<(SyntaxKind, Seq<char>)>, b: Seq<(SyntaxKind, Seq<char>)>)
    ensures
        significant(a + b) == significant(a) + significant(b),
    decreases b.len(),
{
    if b.len() == 0 {
        assert(a + b =~= a);
        assert(significant(a) + significant(b) =~= significant(a));
    } else {
        lemma_significant_concat(a, b.drop_last());
        assert((a + b).drop_last() =~= a + b.drop_last());
        assert(significant(a) + significant(b.drop_last()).push(b.last()) =~= (significant(a) + significant(b.drop_last())).push(b.last()));
    }
}

/// The significant lexemes from `c` on: those of the lexeme at `c`, then
/// those after it.
pub proof fn lemma_significant_from(s: Seq<(SyntaxKind, Seq<char>)>, c: int)
    requires
        0 <= c < s.len(),
    ensures
        significant(s.subrange(c, s.len() as int)) == if s[c].0.spec_is_trivia() {
            significant(s.subrange(c + 1, s.len() as int))
        } else {
            seq![s[c]] + significant(s.subrange(c + 1, s.len() as int))
        },
{
    let one = seq![s[c]];
    assert(s.subrange(c, s.len() as int) =~= one + s.subrange(c + 1, s.len() as int));
    lemma_significant_concat(one, s.subrange(c + 1, s.len() as int));
    assert(one.drop_last() =~= Seq::<(SyntaxKind, Seq<char>)>::empty());
    assert(significant(one.drop_last()) =~= Seq::<(SyntaxKind, Seq<char>)>::empty());
    if !s[c].0.spec_is_trivia() {
        assert(significant(one) =~= one);
    } else {
        assert(significant(one) =~= Seq::<(SyntaxKind, Seq<char>)>::empty());
        assert(significant(one) + significant(s.subrange(c + 1, s.len() as int)) =~= significant(
            s.subrange(c + 1, s.len() as int),
        ));
    }
}

/// How much an event deepens the open nodes.
pub open spec fn depth_change(e: EventV) -> int {
    match e {
        EventV::StartNode(_) | EventV::StartNodeAt(_, _) => 1,
        EventV::FinishNode => -1,
        EventV::AddToken(_, _) => 0,
    }
}

/// How many more nodes `events` open than they finish.
pub open spec fn depth(events: Seq<EventV>) -> int
    decreases events.len(),
{
    if events.len() == 0 {
        0
    } else {
        depth(events.drop_last()) + depth_change(events.last())
    }
}

/// Starts and finishes nest like parentheses.
pub open spec fn balanced(events: Seq<EventV>) -> bool {
    &&& depth(events) == 0
    &&& forall|k: int| 0 <= k <= events.len() ==> depth(#[trigger] events.subrange(0, k)) >= 0
}

/// Events that stand from index `base` of a stream on: balanced, with no
/// `StartNode`, and each `StartNodeAt` opening at a checkpoint from `base` on
/// and before itself.
pub open spec fn well_nested(events: Seq<EventV>, base: int) -> bool {
    &&& balanced(events)
    &&& forall|k: int| 0 <= k < events.len() ==> match #[trigger] events[k] {
        EventV::StartNode(_) => false,
        EventV::StartNodeAt(_, c) => base <= c < base + k,
        _ => true,
    }
}

pub proof fn lemma_depth_concat(a: Seq<EventV>, b: Seq<EventV>)
    ensures
        depth(a + b) == depth(a) + depth(b),
    decreases b.len(),
{
    if b.len() == 0 {
        assert(a + b =~= a);
    } else {
        lemma_depth_concat(a, b.drop_last());
        assert((a + b).drop_last() =~= a + b.drop_last());
    }
}

pub proof fn lemma_well_nested_concat(a: Seq<EventV>, b: Seq<EventV>, base: int)
    requires
        well_nested(a, base),
        well_nested(b, base + a.len()),
    ensures
        well_nested(a + b, base),
{
    lemma_depth_concat(a, b);
    assert forall|k: int| 0 <= k <= (a + b).len() implies depth(#[trigger] (a + b).subrange(0, k)) >= 0 by {
        if k <= a.len() {
            assert((a + b).subrange(0, k) =~= a.subrange(0, k));
        } else {
            assert((a + b).subrange(0, k) =~= a + b.subrange(0, k - a.len()));
            lemma_depth_concat(a, b.subrange(0, k - a.len()));
            assert(a.subrange(0, a.len() as int) =~= a);
        }
    }
    assert forall|k: int| 0 <= k < (a + b).len() implies match #[trigger] (a + b)[k] {
        EventV::StartNode(_) => false,
        EventV::StartNodeAt(_, c) => base <= c < base + k,
        _ => true,
    } by {
        if k >= a.len() {
            assert((a + b)[k] == b[k - a.len()]);
        }
    }
}

pub proof fn lemma_depth_one(e: EventV)
    ensures
        depth(seq![e]) == depth_change(e),
{
    assert(seq![e].drop_last() =~= Seq::<EventV>::empty());
    assert(depth(Seq::<EventV>::empty()) == 0);
}

pub proof fn lemma_token_nested(kind: SyntaxKind, text: Seq<char>, base: int)
    ensures
        well_nested(seq![EventV::AddToken(kind, text)], base),
{
    let s = seq![EventV::AddToken(kind, text)];
    lemma_depth_one(EventV::AddToken(kind, text));
    assert(depth(Seq::<EventV>::empty()) == 0);
    assert forall|k: int| 0 <= k <= s.len() implies depth(#[trigger] s.subrange(0, k)) >= 0 by {
        if k == 0 {
            assert(s.subrange(0, k) =~= Seq::<EventV>::empty());
        } else {
            assert(s.subrange(0, k) =~= s);
        }
    }
}

/// An operator token and a binary node opened at `base`, around the events
/// of the right operand, after those of the left one.
pub proof fn lemma_well_nested_wrap(seg: Seq<EventV>, op: (SyntaxKind, Seq<char>), r: Seq<EventV>, base: int)
    requires
        well_nested(seg, base),
        well_nested(r, base + seg.len() + 2),
    ensures
        well_nested(
            seg + seq![EventV::AddToken(op.0, op.1), EventV::StartNodeAt(SyntaxKind::BinaryExpr, base)] + r + seq![
                EventV::FinishNode,
            ],
            base,
        ),
{
    let head = seq![EventV::AddToken(op.0, op.1), EventV::StartNodeAt(SyntaxKind::BinaryExpr, base)];
    let tail = seq![EventV::FinishNode];
    let inner = head + r + tail;
    let a = EventV::AddToken(op.0, op.1);
    let b = EventV::StartNodeAt(SyntaxKind::BinaryExpr, base);
    lemma_depth_one(a);
    lemma_depth_one(b);
    lemma_depth_one(EventV::FinishNode);
    assert(head =~= seq![a] + seq![b]);
    lemma_depth_concat(seq![a], seq![b]);
    assert(depth(head) == 1);
    assert(depth(tail) == -1);
    assert(depth(Seq::<EventV>::empty()) == 0);
    lemma_depth_concat(head, r);
    lemma_depth_concat(head + r, tail);
    assert forall|k: int| 0 <= k <= inner.len() implies depth(#[trigger] inner.subrange(0, k)) >= 0 by {
        if k == 0 {
            assert(inner.subrange(0, k) =~= Seq::<EventV>::empty());
        } else if k == 1 {
            assert(inner.subrange(0, k) =~= seq![a]);
        } else if k <= 2 + r.len() {
            assert(inner.subrange(0, k) =~= head + r.subrange(0, k - 2));
            lemma_depth_concat(head, r.subrange(0, k - 2));
        } else {
            assert(inner.subrange(0, k) =~= inner);
        }
    }
    assert(seg + head + r + tail =~= seg + inner);
    assert forall|k: int| 0 <= k < (seg + inner).len() implies match #[trigger] (seg + inner)[k] {
        EventV::StartNode(_) => false,
        EventV::StartNodeAt(_, c) => base <= c < base + k,
        _ => true,
    } by {
        if k >= seg.len() {
            assert((seg + inner)[k] == inner[k - seg.len()]);
            let j = k - seg.len();
            if 2 <= j < 2 + r.len() {
                assert(inner[j] == r[j - 2]);
            }
        }
    }
    assert forall|k: int| 0 <= k <= (seg + inner).len() implies depth(#[trigger] (seg + inner).subrange(0, k)) >= 0 by {
        if k <= seg.len() {
            assert((seg + inner).subrange(0, k) =~= seg.subrange(0, k));
        } else {
            assert((seg + inner).subrange(0, k) =~= seg + inner.subrange(0, k - seg.len()));
            lemma_depth_concat(seg, inner.subrange(0, k - seg.len()));
            assert(seg.subrange(0, seg.len() as int) =~= seg);
        }
    }
    lemma_depth_concat(seg, inner);
}

pub struct Parser<'l, 'a> {
    lexemes: &'l Vec<Lexeme<'a>>,
    cursor: usize,
    events: Vec<Event>,
}

impl<'l, 'a> Parser<'l, 'a> {
    pub closed spec fn source(&self) -> Seq<(SyntaxKind, Seq<char>)> {
        lexemes_view(self.lexemes@)
    }

    pub closed spec fn cursor(&self) -> int {
        self.cursor as int
    }

    pub closed spec fn events(&self) -> Seq<Event> {
        self.events@
    }

    /// The significant lexemes from the cursor on.
    pub open spec fn ahead(&self) -> Seq<(SyntaxKind, Seq<char>)> {
        significant(self.source().subrange(self.cursor(), self.source().len() as int))
    }

    /// The tokens emitted so far are the significant lexemes before the
    /// cursor.
    pub open spec fn wf(&self) -> bool {
        &&& 0 <= self.cursor() <= self.source().len()
        &&& tokens(self.events()) == significant(self.source().subrange(0, self.cursor()))
    }

    /// Whether `self` is `old` with more events and the cursor no further
    /// back.
    pub open spec fn extends(&self, old: &Self) -> bool {
        &&& self.source() == old.source()
        &&& self.cursor() >= old.cursor()
        &&& self.events().len() >= old.events().len()
        &&& forall|i: int| 0 <= i < old.events().len() ==> #[trigger] self.events()[i] == old.events()[i]
    }

    pub fn new(lexemes: &'l Vec<Lexeme<'a>>) -> (r: Parser<'l, 'a>)
        ensures
            r.wf(),
            r.source() == lexemes_view(lexemes@),
            r.cursor() == 0,
            r.events() == Seq::<Event>::empty(),
    {
        let r = Parser { lexemes, cursor: 0, events: Vec::new() };
        assert(r.source().subrange(0, 0) =~= Seq::<(SyntaxKind, Seq<char>)>::empty());
        r
    }

    /// Parses one expression into a `Root` node, and puts any lexemes left
    /// after it into that node as well.
    pub fn parse(self) -> (r: Vec<Event>)
        requires
            self.wf(),
            self.cursor() == 0,
            self.events() == Seq::<Event>::empty(),
        ensures
            tokens(r@) == significant(self.source()),
            r@.len() >= 2,
            r@[0] == (Event::StartNode { kind: SyntaxKind::Root }),
            r@.last() == Event::FinishNode,
            well_nested(events_view(r@).subrange(1, r@.len() - 1), 1),
            significant(self.source()).len() == 0 ==> events_view(r@) == seq![
                EventV::StartNode(SyntaxKind::Root),
                EventV::FinishNode,
            ],
            is_chain(significant(self.source())) ==> events_view(r@) == seq![EventV::StartNode(SyntaxKind::Root)]
                + chain_events(significant(self.source()), 1) + seq![EventV::FinishNode],
    {
        let mut p = self;
        let ghost start = p;
        let ghost sig = significant(self.source());
        proof {
            assert(self.source().subrange(0, self.source().len() as int) =~= self.source());
            assert(events_view(self.events()) =~= Seq::<EventV>::empty());
        }
        p.start_node(SyntaxKind::Root);
        let ghost rooted = p;
        expr(&mut p);
        let ghost expected = seq![EventV::StartNode(SyntaxKind::Root)] + chain_events(sig, 1);
        proof {
            if is_chain(sig) {
                assert(events_view(p.events()) =~= expected);
            }
        }
        while p.peek().is_some()
            invariant
                p.wf(),
                p.extends(&start),
                p.events().len() >= 1,
                p.events()[0] == (Event::StartNode { kind: SyntaxKind::Root }),
                is_chain(sig) ==> p.ahead().len() == 0 && events_view(p.events()) == expected,
                p.extends(&rooted),
                rooted.events().len() == 1,
                well_nested(emitted(p, rooted), 1),
                sig.len() == 0 ==> p.events() == rooted.events() && p.ahead().len() == 0,
            decreases p.source().len() - p.cursor(),
        {
            let ghost before = p;
            let ghost x = p.ahead()[0];
            p.bump();
            proof {
                assert(events_view(p.events()) == events_view(before.events()).push(EventV::AddToken(x.0, x.1)));
                assert(events_view(before.events()).len() == before.events().len());
                lemma_token_nested(x.0, x.1, 1 + emitted(before, rooted).len() as int);
                lemma_well_nested_concat(emitted(before, rooted), seq![EventV::AddToken(x.0, x.1)], 1);
                assert(emitted(p, rooted) =~= emitted(before, rooted) + seq![EventV::AddToken(x.0, x.1)]);
            }
        }
        proof {
            assert(p.source().subrange(0, p.cursor()) =~= p.source());
        }
        let ghost last = p;
        p.finish_node();
        proof {
            if is_chain(sig) {
                assert(events_view(p.events()) =~= expected + seq![EventV::FinishNode]);
            }
            assert(events_view(p.events()).subrange(1, p.events().len() - 1) =~= emitted(last, rooted));
            if sig.len() == 0 {
                assert(events_view(p.events()) =~= seq![EventV::StartNode(SyntaxKind::Root), EventV::FinishNode]);
            }
        }
        p.events
    }

    /// The kind of the next lexeme that is not whitespace or a comment; the
    /// cursor moves past those.
    fn peek(&mut self) -> (r: Option<SyntaxKind>)
        requires
            old(self).wf(),
        ensures
            final(self).wf(),
            final(self).extends(old(self)),
            final(self).events() == old(self).events(),
            final(self).ahead() == old(self).ahead(),
            match r {
                Some(k) => final(self).cursor() < final(self).source().len() && k == final(self).source()[final(self).cursor()].0
                    && !k.spec_is_trivia() && old(self).ahead().len() > 0 && k == old(self).ahead()[0].0,
                None => final(self).cursor() == final(self).source().len() && old(self).ahead().len() == 0,
            },
    {
        self.eat_whitespace();
        proof {
            let s = self.source();
            let c = self.cursor();
            if c < s.len() {
                lemma_significant_from(s, c);
            } else {
                assert(s.subrange(c, s.len() as int) =~= Seq::<(SyntaxKind, Seq<char>)>::empty());
            }
        }
        self.peek_raw()
    }

    /// Moves the cursor past whitespace and comments.
    fn eat_whitespace(&mut self)
        requires
            old(self).wf(),
        ensures
            final(self).wf(),
            final(self).extends(old(self)),
            final(self).events() == old(self).events(),
            final(self).cursor() < final(self).source().len() ==> !final(self).source()[final(self).cursor()].0.spec_is_trivia(),
            old(self).cursor() < old(self).source().len() && !old(self).source()[old(self).cursor()].0.spec_is_trivia()
                ==> final(self).cursor() == old(self).cursor(),
            final(self).ahead() == old(self).ahead(),
    {
        let ghost all = self.source();
        while self.cursor < self.lexemes.len() && self.lexemes[self.cursor].kind.is_trivia()
            invariant
                self.wf(),
                self.extends(old(self)),
                self.events() == old(self).events(),
                all == self.source(),
                old(self).cursor() < old(self).source().len() && !old(self).source()[old(self).cursor()].0.spec_is_trivia()
                    ==> self.cursor() == old(self).cursor(),
                self.ahead() == old(self).ahead(),
            decreases self.lexemes@.len() - self.cursor,
        {
            proof {
                let c = self.cursor as int;
                assert(all.subrange(0, c + 1).drop_last() =~= all.subrange(0, c));
                lemma_significant_from(all, c);
            }
            self.cursor = self.cursor + 1;
        }
    }

    fn peek_raw(&self) -> (r: Option<SyntaxKind>)
        ensures
            match r {
                Some(k) => self.cursor() < self.source().len() && k == self.source()[self.cursor()].0,
                None => self.cursor() >= self.source().len(),
            },
    {
        if self.cursor < self.lexemes.len() {
            Some(self.lexemes[self.cursor].kind)
        } else {
            None
        }
    }

    /// Skips whitespace and comments, then emits the next lexeme as a token.
    fn bump(&mut self)
        requires
            old(self).wf(),
            old(self).ahead().len() > 0,
        ensures
            final(self).wf(),
            final(self).extends(old(self)),
            final(self).cursor() > old(self).cursor(),
            final(self).ahead() == old(self).ahead().drop_first(),
            events_view(final(self).events()) == events_view(old(self).events()).push(
                EventV::AddToken(old(self).ahead()[0].0, old(self).ahead()[0].1),
            ),
    {
        self.eat_whitespace();
        proof {
            let s = self.source();
            let c = self.cursor();
            if c == s.len() {
                assert(s.subrange(c, s.len() as int) =~= Seq::<(SyntaxKind, Seq<char>)>::empty());
            }
            lemma_significant_from(s, c);
            assert(self.ahead().drop_first() =~= significant(s.subrange(c + 1, s.len() as int)));
        }
        let n = self.lexemes.len();
        let ghost all = self.source();
        let ghost before = self.events@;
        let lexeme = &self.lexemes[self.cursor];
        self.events.push(Event::AddToken { kind: lexeme.kind, text: String::from_str(lexeme.text) });
        proof {
            let c = self.cursor as int;
            assert(all.subrange(0, c + 1).drop_last() =~= all.subrange(0, c));
            assert(self.events@.drop_last() =~= before);
            assert(events_view(self.events@) =~= events_view(before).push(EventV::AddToken(all[c].0, all[c].1)));
        }
        self.cursor = self.cursor + 1;
    }

    fn checkpoint(&self) -> (r: usize)
        ensures
            r == self.events().len(),
    {
        self.events.len()
    }

    fn push_event(&mut self, event: Event)
        requires
            old(self).wf(),
            !(event is AddToken),
        ensures
            final(self).wf(),
            final(self).extends(old(self)),
            final(self).cursor() == old(self).cursor(),
            final(self).events() == old(self).events().push(event),
            final(self).ahead() == old(self).ahead(),
            events_view(final(self).events()) == events_view(old(self).events()).push(event_view(event)),
    {
        let ghost before = self.events@;
        self.events.push(event);
        proof {
            assert(self.events@.drop_last() =~= before);
            assert(events_view(self.events@) =~= events_view(before).push(event_view(event)));
        }
    }

    fn start_node_at(&mut self, checkpoint: usize, kind: SyntaxKind)
        requires
            old(self).wf(),
        ensures
            final(self).wf(),
            final(self).extends(old(self)),
            final(self).cursor() == old(self).cursor(),
            final(self).events() == old(self).events().push(Event::StartNodeAt { kind, checkpoint }),
            final(self).ahead() == old(self).ahead(),
            events_view(final(self).events()) == events_view(old(self).events()).push(event_view(Event::StartNodeAt { kind, checkpoint })),
    {
        self.push_event(Event::StartNodeAt { kind, checkpoint });
    }

    fn start_node(&mut self, kind: SyntaxKind)
        requires
            old(self).wf(),
        ensures
            final(self).wf(),
            final(self).extends(old(self)),
            final(self).cursor() == old(self).cursor(),
            final(self).events() == old(self).events().push(Event::StartNode { kind }),
            final(self).ahead() == old(self).ahead(),
            events_view(final(self).events()) == events_view(old(self).events()).push(event_view(Event::StartNode { kind })),
    {
        self.push_event(Event::StartNode { kind });
    }

    fn finish_node(&mut self)
        requires
            old(self).wf(),
        ensures
            final(self).wf(),
            final(self).extends(old(self)),
            final(self).cursor() == old(self).cursor(),
            final(self).events() == old(self).events().push(Event::FinishNode),
            final(self).ahead() == old(self).ahead(),
            events_view(final(self).events()) == events_view(old(self).events()).push(event_view(Event::FinishNode)),
    {
        self.push_event(Event::FinishNode);
    }
}

/// Parses one expression.
fn expr(p: &mut Parser)
    requires
        old(p).wf(),
    ensures
        final(p).wf(),
        final(p).extends(old(p)),
        well_nested(emitted(*final(p), *old(p)), old(p).events().len() as int),
        old(p).ahead().len() == 0 ==> final(p).events() == old(p).events() && final(p).ahead().len() == 0,
        is_chain(old(p).ahead()) ==> {
            &&& final(p).ahead().len() == 0
            &&& events_view(final(p).events()) == events_view(old(p).events()) + chain_events(
                old(p).ahead(),
                old(p).events().len() as int,
            )
        },
{
    expr_binding_power(p, 0);
}

/// The events that `now` has emitted since `then`.
pub open spec fn emitted(now: Parser, then: Parser) -> Seq<EventV> {
    events_view(now.events()).subrange(then.events().len() as int, now.events().len() as int)
}

/// Whether `sig` starts with an operand that is followed by nothing, or by
/// an operator that binds less strongly than `min`.
pub open spec fn lone_operand(sig: Seq<(SyntaxKind, Seq<char>)>, min: int) -> bool {
    &&& sig.len() >= 1
    &&& is_operand(sig[0].0)
    &&& sig.len() == 1 || (is_binary_op(sig[1].0) && token_power(sig[1].0) < min)
}

/// An operand, then each operator whose left binding power is at least
/// `minimum_binding_power`, with its right operand; each such operator opens a
/// binary node at the checkpoint taken before the operand.
#[verifier::rlimit(50)]
pub fn expr_binding_power(p: &mut Parser, minimum_binding_power: u8)
    requires
        old(p).wf(),
    ensures
        final(p).wf(),
        final(p).extends(old(p)),
        well_nested(emitted(*final(p), *old(p)), old(p).events().len() as int),
        old(p).ahead().len() == 0 || (!is_operand(old(p).ahead()[0].0) && !is_binary_op(old(p).ahead()[0].0))
            ==> final(p).events() == old(p).events() && final(p).ahead() == old(p).ahead(),
        lone_operand(old(p).ahead(), minimum_binding_power as int) ==> {
            &&& final(p).ahead() == old(p).ahead().drop_first()
            &&& events_view(final(p).events()) == events_view(old(p).events()).push(
                EventV::AddToken(old(p).ahead()[0].0, old(p).ahead()[0].1),
            )
        },
        minimum_binding_power == 0 && is_chain(old(p).ahead()) ==> {
            &&& final(p).ahead().len() == 0
            &&& events_view(final(p).events()) == events_view(old(p).events()) + chain_events(
                old(p).ahead(),
                old(p).events().len() as int,
            )
        },
    decreases old(p).source().len() - old(p).cursor(),
{
    let ghost start = *p;
    let ghost sig = start.ahead();
    let ghost chain = minimum_binding_power == 0 && is_chain(sig);
    let ghost lone = lone_operand(sig, minimum_binding_power as int);
    let ghost e0 = start.events().len() as int;
    let ghost idle = sig.len() == 0 || (!is_operand(sig[0].0) && !is_binary_op(sig[0].0));
    let checkpoint = p.checkpoint();
    match p.peek() {
        Some(SyntaxKind::Number) | Some(SyntaxKind::Ident) => p.bump(),
        _ => {},
    }
    let ghost mut k: int = 0;
    proof {
        let s = emitted(*p, start);
        assert(events_view(p.events()).len() == p.events().len());
        if p.events().len() == start.events().len() {
            assert(s =~= Seq::<EventV>::empty());
            assert(depth(Seq::<EventV>::empty()) == 0);
            assert forall|k: int| 0 <= k <= s.len() implies depth(#[trigger] s.subrange(0, k)) >= 0 by {
                assert(s.subrange(0, k) =~= Seq::<EventV>::empty());
            }
        } else {
            let x = start.ahead()[0];
            assert(s =~= seq![EventV::AddToken(x.0, x.1)]);
            lemma_token_nested(x.0, x.1, e0);
        }
    }
    proof {
        if chain || lone {
            assert(is_operand(sig[0].0));
            assert(sig.subrange(0, 1) =~= seq![sig[0]]);
            assert(chain_events(sig.subrange(0, 1), checkpoint as int) =~= seq![EventV::AddToken(sig[0].0, sig[0].1)]);
            assert(p.ahead() =~= sig.subrange(1, sig.len() as int));
        }
    }
    loop
        invariant
            p.wf(),
            p.extends(&start),
            start == *old(p),
            sig == start.ahead(),
            checkpoint == start.events().len(),
            e0 == start.events().len(),
            well_nested(emitted(*p, start), e0),
            idle == (sig.len() == 0 || (!is_operand(sig[0].0) && !is_binary_op(sig[0].0))),
            idle ==> p.events() == start.events() && p.ahead() == sig,
            chain == (minimum_binding_power == 0 && is_chain(sig)),
            lone == lone_operand(sig, minimum_binding_power as int),
            lone ==> {
                &&& p.ahead() == sig.drop_first()
                &&& events_view(p.events()) == events_view(start.events()).push(EventV::AddToken(sig[0].0, sig[0].1))
            },
            chain ==> {
                &&& 0 <= k && 2 * k + 1 <= sig.len()
                &&& p.ahead() == sig.subrange(2 * k + 1, sig.len() as int)
                &&& events_view(p.events()) == events_view(start.events()) + chain_events(
                    sig.subrange(0, 2 * k + 1),
                    checkpoint as int,
                )
            },
        decreases p.source().len() - p.cursor(),
    {
        let ghost before = *p;
        let op = match p.peek() {
            Some(SyntaxKind::Plus) => Op::Add,
            Some(SyntaxKind::Minus) => Op::Sub,
            Some(SyntaxKind::Star) => Op::Mul,
            Some(SyntaxKind::Slash) => Op::Div,
            _ => {
                proof {
                    if chain {
                        if 2 * k + 1 < sig.len() {
                            assert(p.ahead()[0] == sig[2 * k + 1]);
                        }
                        assert(sig.subrange(0, 2 * k + 1) =~= sig);
                    }
                }
                return;
            },
        };
        let (left, right) = op.binding_power();
        proof {
            if lone {
                assert(sig.len() > 1);
                assert(before.ahead()[0] == sig[1]);
            }
        }
        if left < minimum_binding_power {
            proof {
                if chain {
                    assert(false);
                }
            }
            return;
        }
        proof {
            if lone {
                assert(token_power(sig[1].0) == left);
                assert(false);
            }
        }
        let ghost at_op = *p;
        proof {
            if idle {
                assert(is_binary_op(p.ahead()[0].0));
                assert(false);
            }
        }
        p.bump();
        p.start_node_at(checkpoint, SyntaxKind::BinaryExpr);
        let ghost at_rhs = *p;
        proof {
            if chain {
                let i = 2 * k + 1;
                assert(sig[i].0 == sig[1].0);
                assert(at_op.ahead()[0] == sig[i]);
                assert(i + 1 < sig.len()) by {
                    assert(sig.len() % 2 == 1);
                }
                assert(at_rhs.ahead() =~= sig.subrange(i + 1, sig.len() as int));
                assert(at_rhs.ahead()[0] == sig[i + 1]);
                assert(is_operand(sig[i + 1].0));
                if i + 2 < sig.len() {
                    assert(at_rhs.ahead()[1] == sig[i + 2]);
                    assert(sig[i + 2].0 == sig[1].0);
                }
                assert(lone_operand(at_rhs.ahead(), right as int));
            }
        }
        expr_binding_power(p, right);
        let ghost after_rhs = *p;
        p.finish_node();
        proof {
            let seg = emitted(before, start);
            let x = at_op.ahead()[0];
            let r = emitted(after_rhs, at_rhs);
            assert(events_view(at_rhs.events()) =~= events_view(before.events()).push(EventV::AddToken(x.0, x.1)).push(
                EventV::StartNodeAt(SyntaxKind::BinaryExpr, checkpoint as int),
            ));
            assert(events_view(after_rhs.events()) =~= events_view(at_rhs.events()) + r);
            lemma_well_nested_wrap(seg, x, r, e0);
            assert(emitted(*p, start) =~= seg + seq![
                EventV::AddToken(x.0, x.1),
                EventV::StartNodeAt(SyntaxKind::BinaryExpr, e0),
            ] + r + seq![EventV::FinishNode]);
        }
        proof {
            if chain {
                let i = 2 * k + 1;
                let n2 = sig.subrange(0, i + 2);
                assert(n2.subrange(0, i) =~= sig.subrange(0, i));
                assert(p.ahead() =~= sig.subrange(i + 2, sig.len() as int));
                assert(chain_events(n2, checkpoint as int) == chain_events(sig.subrange(0, i), checkpoint as int) + seq![
                    EventV::AddToken(sig[i].0, sig[i].1),
                    EventV::StartNodeAt(SyntaxKind::BinaryExpr, checkpoint as int),
                    EventV::AddToken(sig[i + 1].0, sig[i + 1].1),
                    EventV::FinishNode,
                ]);
                assert(events_view(p.events()) =~= events_view(start.events()) + chain_events(n2, checkpoint as int));
                k = k + 1;
            }
        }
    }
}

/// The syntax tree of a text.
pub struct Parse {
    pub tree: SyntaxNode,
}

/// Builds the lossless syntax tree of `input`: its token texts, in order,
/// are `input` itself. Where the significant lexemes are one operator
/// repeated between operands (`a - b - c`), the tree nests to the left:
/// whitespace and comments aside, the root holds one binary node per
/// operator, each holding the node of everything before its operator.
pub fn parse(input: &str) -> (r: Parse)
    ensures
        tree_text(node_view(r.tree)) == input@,
        is_chain(significant(lex_spec(input@))) ==> strip(node_view(r.tree)) == TreeV::Node(
            SyntaxKind::Root,
            seq![left_nested(significant(lex_spec(input@)))],
        ),
{
    let lexemes = lex(input);
    let parser = Parser::new(&lexemes);
    let events = parser.parse();
    let ghost sig = significant(lex_spec(input@));
    proof {
        if is_chain(sig) {
            assert(events_view(events@) =~= chain_stream(sig));
        }
    }
    let sink = Sink::new(&lexemes, events);
    let tree = sink.finish();
    proof {
        lemma_lex_covers(input@);
    }
    Parse { tree }
}

} // verus!
