use vstd::prelude::*;
use vstd::string::StrSliceExecFns;
use vstd::string::StringExecFns;

verus! {

pub open spec fn is_digit(c: char) -> bool {
    '0' <= c && c <= '9'
}

pub open spec fn is_alpha(c: char) -> bool {
    ('a' <= c && c <= 'z') || ('A' <= c && c <= 'Z')
}

pub open spec fn is_alnum(c: char) -> bool {
    is_alpha(c) || is_digit(c)
}

/// Blank characters between tokens: spaces and newlines.
pub open spec fn is_ws(c: char) -> bool {
    c == ' ' || c == '\n'
}

pub open spec fn is_op_char(c: char) -> bool {
    c == '+' || c == '-' || c == '*' || c == '/'
}

/// Length of the longest prefix of `s` whose characters all satisfy `p`.
pub open spec fn span(s: Seq<char>, p: spec_fn(char) -> bool) -> nat
    decreases s.len(),
{
    if s.len() > 0 && p(s[0]) {
        1 + span(s.drop_first(), p)
    } else {
        0
    }
}

/// What is left of `s` once its first `k` characters are taken.
pub open spec fn skip(s: Seq<char>, k: int) -> Seq<char> {
    s.subrange(k, s.len() as int)
}

pub broadcast proof fn lemma_span_le(s: Seq<char>, p: spec_fn(char) -> bool)
    ensures
        #[trigger] span(s, p) <= s.len(),
{
    lemma_span_bound(s, p);
}

pub proof fn lemma_span_is(s: Seq<char>, p: spec_fn(char) -> bool, k: int)
    requires
        0 <= k <= s.len(),
        forall|i: int| 0 <= i < k ==> p(#[trigger] s[i]),
        k < s.len() ==> !p(s[k]),
    ensures
        span(s, p) == k,
    decreases k,
{
    if k > 0 {
        let t = s.drop_first();
        assert forall|i: int| 0 <= i < k - 1 implies p(#[trigger] t[i]) by {
            assert(t[i] == s[i + 1]);
        }
        if k - 1 < t.len() {
            assert(t[k - 1] == s[k]);
        }
        lemma_span_is(t, p, k - 1);
    }
}

pub proof fn lemma_span_bound(s: Seq<char>, p: spec_fn(char) -> bool)
    ensures
        span(s, p) <= s.len(),
        forall|i: int| 0 <= i < span(s, p) ==> p(#[trigger] s[i]),
        span(s, p) < s.len() ==> !p(s[span(s, p) as int]),
    decreases s.len(),
{
    if s.len() > 0 && p(s[0]) {
        let t = s.drop_first();
        lemma_span_bound(t, p);
        assert forall|i: int| 0 <= i < span(s, p) implies p(#[trigger] s[i]) by {
            if i > 0 {
                assert(s[i] == t[i - 1]);
            }
        }
        if span(s, p) < s.len() {
            assert(s[span(s, p) as int] == t[span(t, p) as int]);
        }
    }
}

/// Splits `s` after the longest prefix whose characters `f` accepts; returns
/// `(rest, prefix)`.
pub fn take_while<'a, F: Fn(char) -> bool>(s: &'a str, f: F) -> (r: (&'a str, &'a str))
    requires
        forall|c: char| #[trigger] f.requires((c,)),
    ensures
        r.1@.len() <= s@.len(),
        r.1@ == s@.subrange(0, r.1@.len() as int),
        r.0@ == skip(s@, r.1@.len() as int),
        forall|i: int| 0 <= i < r.1@.len() ==> f.ensures((#[trigger] s@[i],), true),
        r.1@.len() < s@.len() ==> f.ensures((s@[r.1@.len() as int],), false),
{
    let n = s.unicode_len();
    let mut i: usize = 0;
    while i < n
        invariant
            n == s@.len(),
            i <= n,
            forall|c: char| #[trigger] f.requires((c,)),
            forall|j: int| 0 <= j < i ==> f.ensures((#[trigger] s@[j],), true),
        ensures
            i <= n,
            forall|j: int| 0 <= j < i ==> f.ensures((#[trigger] s@[j],), true),
            i < n ==> f.ensures((s@[i as int],), false),
        decreases n - i,
    {
        let c = s.get_char(i);
        if !f(c) {
            break;
        }
        i = i + 1;
    }
    (s.substring_char(i, n), s.substring_char(0, i))
}

/// Like `take_while`, but fails with `msg` when not even one character is
/// accepted.
pub fn take_while1<'a, F: Fn(char) -> bool>(s: &'a str, f: F, msg: String) -> (r: Result<(&'a str, &'a str), String>)
    requires
        forall|c: char| #[trigger] f.requires((c,)),
    ensures
        match r {
            Ok((rest, taken)) => {
                &&& 0 < taken@.len() <= s@.len()
                &&& taken@ == s@.subrange(0, taken@.len() as int)
                &&& rest@ == skip(s@, taken@.len() as int)
                &&& forall|i: int| 0 <= i < taken@.len() ==> f.ensures((#[trigger] s@[i],), true)
                &&& taken@.len() < s@.len() ==> f.ensures((s@[taken@.len() as int],), false)
            },
            Err(m) => m == msg && (s@.len() > 0 ==> f.ensures((s@[0],), false)),
        },
{
    let (rest, taken) = take_while(s, f);
    if taken.unicode_len() == 0 {
        Err(msg)
    } else {
        Ok((rest, taken))
    }
}

pub open spec fn digits_len(s: Seq<char>) -> nat {
    span(s, |c: char| is_digit(c))
}

pub open spec fn alnum_len(s: Seq<char>) -> nat {
    span(s, |c: char| is_alnum(c))
}

pub open spec fn ws_len(s: Seq<char>) -> nat {
    span(s, |c: char| is_ws(c))
}

pub open spec fn spaces_len(s: Seq<char>) -> nat {
    span(s, |c: char| c == ' ')
}

/// `s` without its leading spaces and newlines.
pub open spec fn skip_ws(s: Seq<char>) -> Seq<char> {
    skip(s, ws_len(s) as int)
}

/// `s` without its leading spaces.
pub open spec fn skip_spaces(s: Seq<char>) -> Seq<char> {
    skip(s, spaces_len(s) as int)
}

/// Length of the identifier at the start of `s`: a letter, then letters and
/// digits; zero when `s` does not start with a letter.
pub open spec fn ident_len(s: Seq<char>) -> nat {
    if s.len() > 0 && is_alpha(s[0]) {
        alnum_len(s)
    } else {
        0
    }
}

pub open spec fn starts_with(s: Seq<char>, prefix: Seq<char>) -> bool {
    prefix.len() <= s.len() && s.subrange(0, prefix.len() as int) == prefix
}

/// Whether `s` starts with `word` as a whole word: no letter or digit
/// follows it.
pub open spec fn starts_with_word(s: Seq<char>, word: Seq<char>) -> bool {
    starts_with(s, word) && (s.len() == word.len() || !is_alnum(s[word.len() as int]))
}

pub proof fn lemma_ident_len(s: Seq<char>)
    ensures
        ident_len(s) <= s.len(),
        ident_len(s) > 0 ==> is_alpha(s[0]),
        s.len() > 0 && is_alpha(s[0]) ==> ident_len(s) > 0,
{
    lemma_span_bound(s, |c: char| is_alnum(c));
}

pub(crate) fn digit_char(c: char) -> (b: bool)
    ensures
        b == is_digit(c),
{
    '0' <= c && c <= '9'
}

pub(crate) fn alnum_char(c: char) -> (b: bool)
    ensures
        b == is_alnum(c),
{
    ('a' <= c && c <= 'z') || ('A' <= c && c <= 'Z') || ('0' <= c && c <= '9')
}

pub(crate) fn ws_char(c: char) -> (b: bool)
    ensures
        b == is_ws(c),
{
    c == ' ' || c == '\n'
}

fn space_char(c: char) -> (b: bool)
    ensures
        b == (c == ' '),
{
    c == ' '
}

pub fn extract_digits(s: &str) -> (r: Result<(&str, &str), String>)
    ensures
        match r {
            Ok((rest, taken)) => {
                &&& digits_len(s@) > 0
                &&& taken@ == s@.subrange(0, digits_len(s@) as int)
                &&& rest@ == skip(s@, digits_len(s@) as int)
            },
            Err(m) => digits_len(s@) == 0 && m@ == "expected digits"@,
        },
{
    let r = take_while1(
        s,
        digit_char,
        String::from_str("expected digits"),
    );
    proof {
        match r {
            Ok((rest, taken)) => lemma_span_is(s@, |c: char| is_digit(c), taken@.len() as int),
            Err(_) => lemma_span_is(s@, |c: char| is_digit(c), 0),
        }
    }
    r
}

/// Splits off the operator character that `s` starts with.
pub fn extract_op(s: &str) -> (r: (&str, &str))
    requires
        s@.len() > 0,
        is_op_char(s@[0]),
    ensures
        r.1@ == s@.subrange(0, 1),
        r.0@ == skip(s@, 1),
{
    let n = s.unicode_len();
    (s.substring_char(1, n), s.substring_char(0, 1))
}

pub fn extract_ident(s: &str) -> (r: Result<(&str, &str), String>)
    ensures
        match r {
            Ok((rest, taken)) => {
                &&& ident_len(s@) > 0
                &&& taken@ == s@.subrange(0, ident_len(s@) as int)
                &&& rest@ == skip(s@, ident_len(s@) as int)
            },
            Err(m) => ident_len(s@) == 0 && m@ == "expected identifier"@,
        },
{
    let valid = if s.unicode_len() > 0 {
        let c = s.get_char(0);
        ('a' <= c && c <= 'z') || ('A' <= c && c <= 'Z')
    } else {
        false
    };
    if valid {
        let (rest, taken) = take_while(
            s,
            alnum_char,
        );
        proof {
            lemma_span_is(s@, |c: char| is_alnum(c), taken@.len() as int);
        }
        Ok((rest, taken))
    } else {
        Err(String::from_str("expected identifier"))
    }
}

pub fn extract_whitespaces(s: &str) -> (r: (&str, &str))
    ensures
        r.1@ == s@.subrange(0, ws_len(s@) as int),
        r.0@ == skip_ws(s@),
{
    let r = take_while(
        s,
        ws_char,
    );
    proof {
        lemma_span_is(s@, |c: char| is_ws(c), r.1@.len() as int);
    }
    r
}

pub fn extract_whitespaces1(s: &str) -> (r: Result<(&str, &str), String>)
    ensures
        match r {
            Ok((rest, taken)) => {
                &&& ws_len(s@) > 0
                &&& taken@ == s@.subrange(0, ws_len(s@) as int)
                &&& rest@ == skip_ws(s@)
            },
            Err(m) => ws_len(s@) == 0 && m@ == "expected whitespace"@,
        },
{
    let r = take_while1(
        s,
        ws_char,
        String::from_str("expected whitespace"),
    );
    proof {
        match r {
            Ok((rest, taken)) => lemma_span_is(s@, |c: char| is_ws(c), taken@.len() as int),
            Err(_) => lemma_span_is(s@, |c: char| is_ws(c), 0),
        }
    }
    r
}

/// Splits off the leading spaces (not newlines) of `s`.
pub fn extract_spaces(s: &str) -> (r: (&str, &str))
    ensures
        r.1@ == s@.subrange(0, spaces_len(s@) as int),
        r.0@ == skip_spaces(s@),
{
    let r = take_while(
        s,
        space_char,
    );
    proof {
        lemma_span_is(s@, |c: char| c == ' ', r.1@.len() as int);
    }
    r
}

/// Strips `begin` from the front of `s`.
pub fn tag<'b>(begin: &str, s: &'b str) -> (r: Result<&'b str, String>)
    ensures
        match r {
            Ok(rest) => starts_with(s@, begin@) && rest@ == skip(s@, begin@.len() as int),
            Err(m) => !starts_with(s@, begin@) && m@ == "expected "@ + begin@,
        },
{
    let k = begin.unicode_len();
    let n = s.unicode_len();
    let mut ok = k <= n;
    if ok {
        let mut i: usize = 0;
        while i < k
            invariant
                k == begin@.len(),
                n == s@.len(),
                k <= n,
                i <= k,
                forall|j: int| 0 <= j < i ==> s@[j] == begin@[j],
            ensures
                i <= k,
                forall|j: int| 0 <= j < i ==> s@[j] == begin@[j],
                i < k ==> s@[i as int] != begin@[i as int],
            decreases k - i,
        {
            if s.get_char(i) != begin.get_char(i) {
                break;
            }
            i = i + 1;
        }
        ok = i == k;
        proof {
            if ok {
                assert(s@.subrange(0, k as int) =~= begin@);
            } else {
                assert(s@.subrange(0, k as int)[i as int] != begin@[i as int]);
            }
        }
    }
    if ok {
        Ok(s.substring_char(k, n))
    } else {
        Err(String::from_str("expected ").concat(begin))
    }
}

/// Whether a word that `s` follows ends where `s` starts: `s` is empty or
/// starts with neither a letter nor a digit.
pub fn at_word_end(s: &str) -> (r: bool)
    ensures
        r == (s@.len() == 0 || !is_alnum(s@[0])),
{
    if s.unicode_len() == 0 {
        true
    } else {
        !alnum_char(s.get_char(0))
    }
}

} // verus!
