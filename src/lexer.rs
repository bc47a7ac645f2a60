//! Cutting source text into classified lexemes.
use vstd::prelude::*;
use vstd::string::StrSliceExecFns;
use crate::utils::{
    alnum_char, alnum_len, digit_char, digits_len, is_alnum, is_alpha, is_digit, is_ws, lemma_span_bound,
    lemma_span_is, lemma_span_le, skip, span, take_while, ws_char, ws_len,
};

verus! {

broadcast use lemma_span_le;

/// The kind of a lexeme, or of a node of the syntax tree.
#[derive(Debug, Clone, Copy, PartialEq, Eq, Structural, Hash)]
pub enum SyntaxKind {
    Root,
    BinaryExpr,
    PrefixExpr,
    Whitespace,
    FnKw,
    LetKw,
    Ident,
    Number,
    Plus,
    Minus,
    Star,
    Slash,
    Equals,
    LBrace,
    RBrace,
    LParen,
    RParen,
    Comment,
    Error,
}

impl SyntaxKind {
    pub open spec fn spec_is_trivia(self) -> bool {
        self == SyntaxKind::Whitespace || self == SyntaxKind::Comment
    }

    /// Whitespace and comments, which carry no meaning.
    #[verifier::when_used_as_spec(spec_is_trivia)]
    pub fn is_trivia(self) -> (r: bool)
        ensures
            r == self.spec_is_trivia(),
    {
        match self {
            SyntaxKind::Whitespace | SyntaxKind::Comment => true,
            _ => false,
        }
    }
}

/// A classified piece of the source text.
#[derive(Debug, PartialEq)]
pub struct Lexeme<'a> {
    pub kind: SyntaxKind,
    pub text: &'a str,
}

pub open spec fn comment_len(s: Seq<char>) -> nat {
    span(s, |c: char| c != '\n')
}

/// The kind of a word: one of the two keywords, or an identifier.
pub open spec fn word_kind(w: Seq<char>) -> SyntaxKind {
    if w == seq!['f', 'n'] {
        SyntaxKind::FnKw
    } else if w == seq!['l', 'e', 't'] {
        SyntaxKind::LetKw
    } else {
        SyntaxKind::Ident
    }
}

/// The kind of a lexeme of one character.
pub open spec fn punct_kind(c: char) -> SyntaxKind {
    if c == '+' {
        SyntaxKind::Plus
    } else if c == '-' {
        SyntaxKind::Minus
    } else if c == '*' {
        SyntaxKind::Star
    } else if c == '/' {
        SyntaxKind::Slash
    } else if c == '=' {
        SyntaxKind::Equals
    } else if c == '{' {
        SyntaxKind::LBrace
    } else if c == '}' {
        SyntaxKind::RBrace
    } else if c == '(' {
        SyntaxKind::LParen
    } else if c == ')' {
        SyntaxKind::RParen
    } else {
        SyntaxKind::Error
    }
}

/// Kind and length of the longest lexeme at the start of a non-empty `s`:
/// blanks, a comment up to the end of its line, a word, a number, or one
/// character (an `Error` where it is no operator or bracket).
pub open spec fn first_lexeme(s: Seq<char>) -> (SyntaxKind, int) {
    let c = s[0];
    if is_ws(c) {
        (SyntaxKind::Whitespace, ws_len(s) as int)
    } else if c == '#' {
        (SyntaxKind::Comment, comment_len(s) as int)
    } else if is_alpha(c) {
        (word_kind(s.subrange(0, alnum_len(s) as int)), alnum_len(s) as int)
    } else if is_digit(c) {
        (SyntaxKind::Number, digits_len(s) as int)
    } else {
        (punct_kind(c), 1)
    }
}

pub proof fn lemma_first_lexeme_len(s: Seq<char>)
    requires
        s.len() > 0,
    ensures
        1 <= first_lexeme(s).1 <= s.len(),
{
    let c = s[0];
    if is_ws(c) {
        lemma_span_bound(s, |c: char| is_ws(c));
    } else if c == '#' {
        lemma_span_bound(s, |c: char| c != '\n');
    } else if is_alpha(c) {
        lemma_span_bound(s, |c: char| is_alnum(c));
    } else if is_digit(c) {
        lemma_span_bound(s, |c: char| is_digit(c));
    }
}

/// The lexemes of `s`, in order, as (kind, text) pairs.
pub open spec fn lex_spec(s: Seq<char>) -> Seq<(SyntaxKind, Seq<char>)>
    decreases s.len(),
{
    if s.len() == 0 {
        Seq::empty()
    } else {
        let (kind, n) = first_lexeme(s);
        if 1 <= n <= s.len() {
            seq![(kind, s.subrange(0, n))] + lex_spec(skip(s, n))
        } else {
            Seq::empty()
        }
    }
}

/// The texts of `lexemes`, one after the other.
pub open spec fn concat_texts(lexemes: Seq<(SyntaxKind, Seq<char>)>) -> Seq<char>
    decreases lexemes.len(),
{
    if lexemes.len() == 0 {
        Seq::empty()
    } else {
        lexemes[0].1 + concat_texts(lexemes.subrange(1, lexemes.len() as int))
    }
}

/// The lexemes cover the text: their texts, one after the other, are the
/// text itself.
pub proof fn lemma_lex_covers(s: Seq<char>)
    ensures
        concat_texts(lex_spec(s)) == s,
    decreases s.len(),
{
    if s.len() > 0 {
        lemma_first_lexeme_len(s);
        let n = first_lexeme(s).1;
        let l = lex_spec(s);
        lemma_lex_covers(skip(s, n));
        assert(l.subrange(1, l.len() as int) =~= lex_spec(skip(s, n)));
        assert(s.subrange(0, n) + skip(s, n) =~= s);
    } else {
        assert(concat_texts(lex_spec(s)) =~= s);
    }
}

fn not_newline(c: char) -> (b: bool)
    ensures
        b == (c != '\n'),
{
    c != '\n'
}

/// A cursor over the lexemes of a text; it yields them one at a time.
pub struct Lexer<'a> {
    rest: &'a str,
}

impl<'a> Lexer<'a> {
    /// The text not yet cut into lexemes.
    pub closed spec fn rest(&self) -> Seq<char> {
        self.rest@
    }

    pub fn new(input: &'a str) -> (r: Lexer<'a>)
        ensures
            r.rest() == input@,
    {
        Lexer { rest: input }
    }

    /// The next lexeme, or `None` at the end of the text.
    pub fn next(&mut self) -> (r: Option<Lexeme<'a>>)
        ensures
            match r {
                None => old(self).rest().len() == 0 && final(self).rest() == old(self).rest(),
                Some(l) => {
                    &&& final(self).rest().len() < old(self).rest().len()
                    &&& lex_spec(old(self).rest()) == seq![(l.kind, l.text@)] + lex_spec(final(self).rest())
                },
            },
    {
        let s = self.rest;
        let n = s.unicode_len();
        if n == 0 {
            return None;
        }
        proof {
            lemma_first_lexeme_len(s@);
        }
        let c = s.get_char(0);
        let (kind, k) = if c == ' ' || c == '\n' {
            let (_, taken) = take_while(s, ws_char);
            proof {
                lemma_span_is(s@, |c: char| is_ws(c), taken@.len() as int);
            }
            (SyntaxKind::Whitespace, taken.unicode_len())
        } else if c == '#' {
            let (_, taken) = take_while(s, not_newline);
            proof {
                lemma_span_is(s@, |c: char| c != '\n', taken@.len() as int);
            }
            (SyntaxKind::Comment, taken.unicode_len())
        } else if ('a' <= c && c <= 'z') || ('A' <= c && c <= 'Z') {
            let (_, word) = take_while(s, alnum_char);
            proof {
                lemma_span_is(s@, |c: char| is_alnum(c), word@.len() as int);
            }
            let k = word.unicode_len();
            let kind = if k == 2 && word.get_char(0) == 'f' && word.get_char(1) == 'n' {
                assert(word@ =~= seq!['f', 'n']);
                SyntaxKind::FnKw
            } else if k == 3 && word.get_char(0) == 'l' && word.get_char(1) == 'e' && word.get_char(2) == 't' {
                assert(word@ =~= seq!['l', 'e', 't']);
                SyntaxKind::LetKw
            } else {
                assert(word@ != seq!['f', 'n'] && word@ != seq!['l', 'e', 't']);
                SyntaxKind::Ident
            };
            (kind, k)
        } else if '0' <= c && c <= '9' {
            let (_, taken) = take_while(s, digit_char);
            proof {
                lemma_span_is(s@, |c: char| is_digit(c), taken@.len() as int);
            }
            (SyntaxKind::Number, taken.unicode_len())
        } else {
            let kind = if c == '+' {
                SyntaxKind::Plus
            } else if c == '-' {
                SyntaxKind::Minus
            } else if c == '*' {
                SyntaxKind::Star
            } else if c == '/' {
                SyntaxKind::Slash
            } else if c == '=' {
                SyntaxKind::Equals
            } else if c == '{' {
                SyntaxKind::LBrace
            } else if c == '}' {
                SyntaxKind::RBrace
            } else if c == '(' {
                SyntaxKind::LParen
            } else if c == ')' {
                SyntaxKind::RParen
            } else {
                SyntaxKind::Error
            };
            (kind, 1)
        };
        assert(first_lexeme(s@) == (kind, k as int));
        let text = s.substring_char(0, k);
        self.rest = s.substring_char(k, n);
        Some(Lexeme { kind, text })
    }
}

/// The (kind, text) pairs of `lexemes`.
pub open spec fn lexemes_view(lexemes: Seq<Lexeme>) -> Seq<(SyntaxKind, Seq<char>)> {
    Seq::new(lexemes.len(), |i: int| (lexemes[i].kind, lexemes[i].text@))
}

/// All the lexemes of `input`, in order.
pub fn lex(input: &str) -> (r: Vec<Lexeme>)
    ensures
        lexemes_view(r@) == lex_spec(input@),
{
    let mut lexer = Lexer::new(input);
    let mut r: Vec<Lexeme> = Vec::new();
    loop
        invariant
            lex_spec(input@) == lexemes_view(r@) + lex_spec(lexer.rest()),
        decreases lexer.rest().len(),
    {
        let ghost before = lexer.rest();
        match lexer.next() {
            Some(l) => {
                proof {
                    lemma_first_lexeme_len(before);
                }
                let ghost old_r = r@;
                r.push(l);
                assert(lexemes_view(r@) =~= lexemes_view(old_r) + seq![(l.kind, l.text@)]);
                assert(lexemes_view(r@) + lex_spec(lexer.rest()) =~= lexemes_view(old_r) + (seq![(l.kind, l.text@)] + lex_spec(lexer.rest())));
            },
            None => {
                assert(lexemes_view(r@) + lex_spec(lexer.rest()) =~= lexemes_view(r@));
                return r;
            },
        }
    }
}

} // verus!
