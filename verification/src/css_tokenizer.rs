//! CSS tokenizer: a pull-based producer of CSS tokens over a borrowed
//! input string.
//!
//! The meaning of the tokenizer is given by the spec function
//! [`css_token_at`]: from any position it names the token recognized there
//! and the position where scanning resumes.  [`CssTokenizer::next_token`]
//! is proved to return exactly that token.  Malformed input never fails:
//! unterminated comments, strings and urls consume the rest of the input
//! and are still emitted.

use vstd::prelude::*;
use vstd::string::StrSliceExecFns;

use crate::text::alnum_char;
use crate::text::alnum_end;
use crate::text::alpha_char;
use crate::text::digit_char;
use crate::text::find_at;
use crate::text::is_alpha;
use crate::text::is_digit;
use crate::text::is_ws;
use crate::text::name_char;
use crate::text::name_end;
use crate::text::num_end;
use crate::text::trim;
use crate::text::trim_str;
use crate::text::str_eq;
use crate::text::ws_char;
use crate::text::ws_end;

verus! {

/// One CSS token.  All string-bearing variants borrow the input.
#[derive(Debug, Clone, Copy, PartialEq)]
pub enum CssToken<'a> {
    Ident(&'a str),
    QuotedString(&'a str),
    Number(&'a str),
    Dimension { value: &'a str, unit: &'a str },
    Percentage(&'a str),
    Hash(&'a str),
    Delim(char),
    LeftParen,
    RightParen,
    LeftBrace,
    RightBrace,
    LeftBracket,
    RightBracket,
    Colon,
    Semicolon,
    Comma,
    Whitespace,
    Comment(&'a str),
    AtKeyword(&'a str),
    Url(&'a str),
}

/// The mathematical shape of a CSS token: the same variants over
/// character sequences.
pub enum CssTok {
    Ident(Seq<char>),
    QuotedString(Seq<char>),
    Number(Seq<char>),
    Dimension { value: Seq<char>, unit: Seq<char> },
    Percentage(Seq<char>),
    Hash(Seq<char>),
    Delim(char),
    LeftParen,
    RightParen,
    LeftBrace,
    RightBrace,
    LeftBracket,
    RightBracket,
    Colon,
    Semicolon,
    Comma,
    Whitespace,
    Comment(Seq<char>),
    AtKeyword(Seq<char>),
    Url(Seq<char>),
}

impl<'a> View for CssToken<'a> {
    type V = CssTok;

    open spec fn view(&self) -> CssTok {
        match *self {
            CssToken::Ident(s) => CssTok::Ident(s@),
            CssToken::QuotedString(s) => CssTok::QuotedString(s@),
            CssToken::Number(s) => CssTok::Number(s@),
            CssToken::Dimension { value, unit } => CssTok::Dimension {
                value: value@,
                unit: unit@,
            },
            CssToken::Percentage(s) => CssTok::Percentage(s@),
            CssToken::Hash(s) => CssTok::Hash(s@),
            CssToken::Delim(c) => CssTok::Delim(c),
            CssToken::LeftParen => CssTok::LeftParen,
            CssToken::RightParen => CssTok::RightParen,
            CssToken::LeftBrace => CssTok::LeftBrace,
            CssToken::RightBrace => CssTok::RightBrace,
            CssToken::LeftBracket => CssTok::LeftBracket,
            CssToken::RightBracket => CssTok::RightBracket,
            CssToken::Colon => CssTok::Colon,
            CssToken::Semicolon => CssTok::Semicolon,
            CssToken::Comma => CssTok::Comma,
            CssToken::Whitespace => CssTok::Whitespace,
            CssToken::Comment(s) => CssTok::Comment(s@),
            CssToken::AtKeyword(s) => CssTok::AtKeyword(s@),
            CssToken::Url(s) => CssTok::Url(s@),
        }
    }
}

// ---------------------------------------------------------------------------
// Spec-level tokenization.
// ---------------------------------------------------------------------------

/// Position of the `*` of the first `*/` at or after `i`, or the length of
/// `s` if the comment never closes.
pub open spec fn comment_close(s: Seq<char>, i: nat) -> nat
    decreases s.len() - i,
{
    if i + 1 >= s.len() {
        s.len()
    } else if s[i as int] == '*' && s[i as int + 1] == '/' {
        i
    } else {
        comment_close(s, i + 1)
    }
}

/// Position of the closing quote `q` at or after `i`, where a backslash
/// escapes the character after it, or the length of `s` if the string never
/// closes.
pub open spec fn string_close(s: Seq<char>, i: nat, q: char) -> nat
    decreases s.len() - i,
{
    if i >= s.len() {
        s.len()
    } else if s[i as int] == q {
        i
    } else if s[i as int] == '\\' && i + 1 < s.len() {
        string_close(s, i + 2, q)
    } else {
        string_close(s, i + 1, q)
    }
}

/// The comment token starting at `i`, where `s[i] == '/'` and
/// `s[i as int + 1] == '*'`.
pub open spec fn css_comment(s: Seq<char>, i: nat) -> (CssTok, nat)
    recommends
        i + 2 <= s.len(),
{
    let start = i + 2;
    let j = comment_close(s, start);
    if j < s.len() {
        (CssTok::Comment(s.subrange(start as int, j as int)), j + 2)
    } else {
        (CssTok::Comment(s.subrange(start as int, s.len() as int)), s.len())
    }
}

/// The quoted-string token starting at the quote at `i`.
pub open spec fn css_string(s: Seq<char>, i: nat) -> (CssTok, nat)
    recommends
        i < s.len(),
{
    let q = s[i as int];
    let start = i + 1;
    let j = string_close(s, start, q);
    if j < s.len() {
        (CssTok::QuotedString(s.subrange(start as int, j as int)), j + 1)
    } else {
        (CssTok::QuotedString(s.subrange(start as int, s.len() as int)), s.len())
    }
}

/// The hash token (or bare `#` delimiter) starting at the `#` at `i`.
pub open spec fn css_hash(s: Seq<char>, i: nat) -> (CssTok, nat) {
    let e = name_end(s, i + 1);
    if e == i + 1 {
        (CssTok::Delim('#'), i + 1)
    } else {
        (CssTok::Hash(s.subrange(i as int + 1, e as int)), e)
    }
}

/// The at-keyword token (or bare `@` delimiter) starting at the `@` at `i`.
pub open spec fn css_at_keyword(s: Seq<char>, i: nat) -> (CssTok, nat) {
    let e = name_end(s, i + 1);
    if e == i + 1 {
        (CssTok::Delim('@'), i + 1)
    } else {
        (CssTok::AtKeyword(s.subrange(i as int + 1, e as int)), e)
    }
}

/// The numeric token starting at `i`: an optional `-`, digits with at most
/// one `.`, classified by what follows (`%` makes a percentage, letters a
/// dimension).  The token carries the number's textual form.
pub open spec fn css_number(s: Seq<char>, i: nat) -> (CssTok, nat)
    recommends
        i < s.len(),
{
    let d = if s[i as int] == '-' {
        i + 1
    } else {
        i
    };
    let e = num_end(s, d, false);
    let text = s.subrange(i as int, e as int);
    if e < s.len() && s[e as int] == '%' {
        (CssTok::Percentage(text), e + 1)
    } else if e < s.len() && is_alpha(s[e as int]) {
        let u = alnum_end(s, e);
        (CssTok::Dimension { value: text, unit: s.subrange(e as int, u as int) }, u)
    } else {
        (CssTok::Number(text), e)
    }
}

/// The url token starting just after `url(`, at `i`.  Interior whitespace
/// around the body is skipped; the body may be quoted or bare; an
/// unterminated url consumes the rest of the input.
pub open spec fn css_url(s: Seq<char>, i: nat) -> (CssTok, nat) {
    let w = ws_end(s, i);
    if w < s.len() && (s[w as int] == '"' || s[w as int] == '\'') {
        let q = s[w as int];
        let c = w + 1;
        let j = find_at(s, c, q);
        if j < s.len() {
            let w2 = ws_end(s, j + 1);
            let p = if w2 < s.len() && s[w2 as int] == ')' {
                w2 + 1
            } else {
                w2
            };
            (CssTok::Url(s.subrange(c as int, j as int)), p)
        } else {
            (CssTok::Url(s.subrange(c as int, s.len() as int)), s.len())
        }
    } else {
        let j = find_at(s, w, ')');
        if j < s.len() {
            (CssTok::Url(trim(s.subrange(w as int, j as int))), j + 1)
        } else {
            (CssTok::Url(s.subrange(w as int, s.len() as int)), s.len())
        }
    }
}

/// The identifier token starting at `i`; the identifier `url` immediately
/// followed by `(` instead produces a url token.
pub open spec fn css_ident_or_url(s: Seq<char>, i: nat) -> (CssTok, nat) {
    let e = name_end(s, i);
    let id = s.subrange(i as int, e as int);
    if id == "url"@ && e < s.len() && s[e as int] == '(' {
        css_url(s, e + 1)
    } else {
        (CssTok::Ident(id), e)
    }
}

/// The token recognized at position `i` of `s`, with the position where
/// scanning resumes, or `None` at the end of the input.
pub open spec fn css_token_at(s: Seq<char>, i: nat) -> Option<(CssTok, nat)> {
    if i >= s.len() {
        None
    } else {
        let c = s[i as int];
        Some(
            if is_ws(c) {
                (CssTok::Whitespace, ws_end(s, i))
            } else if c == '/' && i + 1 < s.len() && s[i as int + 1] == '*' {
                css_comment(s, i)
            } else if c == '{' {
                (CssTok::LeftBrace, i + 1)
            } else if c == '}' {
                (CssTok::RightBrace, i + 1)
            } else if c == '(' {
                (CssTok::LeftParen, i + 1)
            } else if c == ')' {
                (CssTok::RightParen, i + 1)
            } else if c == '[' {
                (CssTok::LeftBracket, i + 1)
            } else if c == ']' {
                (CssTok::RightBracket, i + 1)
            } else if c == ':' {
                (CssTok::Colon, i + 1)
            } else if c == ';' {
                (CssTok::Semicolon, i + 1)
            } else if c == ',' {
                (CssTok::Comma, i + 1)
            } else if c == '"' || c == '\'' {
                css_string(s, i)
            } else if c == '#' {
                css_hash(s, i)
            } else if c == '@' {
                css_at_keyword(s, i)
            } else if is_digit(c) {
                css_number(s, i)
            } else if c == '.' && i + 1 < s.len() && is_digit(s[i as int + 1]) {
                css_number(s, i)
            } else if c == '-' && i + 1 < s.len() && (is_digit(s[i as int + 1]) || s[i as int + 1] == '.') {
                css_number(s, i)
            } else if is_alpha(c) || c == '_' || c == '-' {
                css_ident_or_url(s, i)
            } else {
                (CssTok::Delim(c), i + 1)
            },
        )
    }
}

proof fn lemma_comment_close(s: Seq<char>, i: nat)
    requires
        i <= s.len(),
    ensures
        i <= comment_close(s, i) <= s.len(),
        comment_close(s, i) < s.len() ==> comment_close(s, i) + 2 <= s.len(),
    decreases s.len() - i,
{
    if i + 1 < s.len() && !(s[i as int] == '*' && s[i as int + 1] == '/') {
        lemma_comment_close(s, i + 1);
    }
}

proof fn lemma_string_close(s: Seq<char>, i: nat, q: char)
    requires
        i <= s.len(),
    ensures
        i <= string_close(s, i, q) <= s.len(),
        string_close(s, i, q) < s.len() ==> s[string_close(s, i, q) as int] == q,
    decreases s.len() - i,
{
    if i < s.len() && s[i as int] != q {
        if s[i as int] == '\\' && i + 1 < s.len() {
            lemma_string_close(s, i + 2, q);
        } else {
            lemma_string_close(s, i + 1, q);
        }
    }
}

/// Tokenization makes progress: within the input there is always a token,
/// and recognizing it advances the position.
pub proof fn lemma_css_token_at(s: Seq<char>, i: nat)
    requires
        i <= s.len(),
    ensures
        i < s.len() <==> css_token_at(s, i) is Some,
        css_token_at(s, i) matches Some((t, p)) ==> i < p <= s.len(),
{
    if i < s.len() {
        let c = s[i as int];
        crate::text::lemma_ws_end(s, i);
        crate::text::lemma_ws_end(s, i + 1);
        crate::text::lemma_name_end(s, i + 1);
        crate::text::lemma_name_end(s, i);
        if i + 2 <= s.len() {
            lemma_comment_close(s, i + 2);
        }
        lemma_string_close(s, i + 1, c);
        if is_digit(c) || (c == '.' && i + 1 < s.len() && is_digit(s[i as int + 1])) || (c == '-' && i + 1
            < s.len() && (is_digit(s[i as int + 1]) || s[i as int + 1] == '.')) {
            let d = if c == '-' {
                i + 1
            } else {
                i
            };
            crate::text::lemma_num_end(s, d, false);
            let e = num_end(s, d, false);
            if d < s.len() && is_digit(s[d as int]) {
                crate::text::lemma_num_end(s, d + 1, false);
            } else if d < s.len() && s[d as int] == '.' {
                crate::text::lemma_num_end(s, d + 1, true);
            }
            crate::text::lemma_alnum_end(s, e);
            if e < s.len() && s[e as int] != '%' && is_alpha(s[e as int]) {
                assert(alnum_end(s, e) > e);
            }
        }
        if (is_alpha(c) || c == '_' || c == '-') && !(c == '-' && i + 1 < s.len() && (is_digit(
            s[i as int + 1],
        ) || s[i as int + 1] == '.')) {
            let e = name_end(s, i);
            assert(e > i);
            if s.subrange(i as int, e as int) == "url"@ && e < s.len() && s[e as int] == '(' {
                lemma_css_url(s, e + 1);
            }
        }
    }
}

proof fn lemma_css_url(s: Seq<char>, i: nat)
    requires
        i <= s.len(),
    ensures
        i <= css_url(s, i).1 <= s.len(),
{
    crate::text::lemma_ws_end(s, i);
    let w = ws_end(s, i);
    if w < s.len() && (s[w as int] == '"' || s[w as int] == '\'') {
        let q = s[w as int];
        crate::text::lemma_find_at(s, w + 1, q);
        let j = find_at(s, w + 1, q);
        if j < s.len() {
            crate::text::lemma_ws_end(s, j + 1);
        }
    } else {
        crate::text::lemma_find_at(s, w, ')');
    }
}

proof fn lemma_comment_close_shift(s: Seq<char>, a: nat, b: nat, i: nat)
    requires
        a <= i <= b <= s.len(),
    ensures
        comment_close(s.subrange(a as int, b as int), (i - a) as nat) == if comment_close(s, i) + 1
            < b {
            (comment_close(s, i) - a) as nat
        } else {
            (b - a) as nat
        },
    decreases b - i,
{
    let sub = s.subrange(a as int, b as int);
    lemma_comment_close(s, i);
    if i + 1 < b {
        assert(sub[(i - a) as int] == s[i as int]);
        assert(sub[(i - a) as int + 1] == s[i as int + 1]);
        if !(s[i as int] == '*' && s[i as int + 1] == '/') {
            lemma_comment_close_shift(s, a, b, i + 1);
        }
    }
}

proof fn lemma_string_close_shift(s: Seq<char>, a: nat, b: nat, i: nat, q: char)
    requires
        a <= i <= b <= s.len(),
    ensures
        string_close(s.subrange(a as int, b as int), (i - a) as nat, q) == if string_close(
            s,
            i,
            q,
        ) < b {
            (string_close(s, i, q) - a) as nat
        } else {
            (b - a) as nat
        },
    decreases b - i,
{
    let sub = s.subrange(a as int, b as int);
    lemma_string_close(s, i, q);
    if i < b {
        assert(sub[(i - a) as int] == s[i as int]);
        if s[i as int] == q {
        } else if s[i as int] == '\\' {
            if i + 1 < b {
                lemma_string_close_shift(s, a, b, i + 2, q);
            } else {
                // The backslash is the last character of the span.
                assert(string_close(sub, ((i - a) + 1) as nat, q) == sub.len());
                if i + 1 < s.len() {
                    lemma_string_close(s, i + 2, q);
                    assert(string_close(s, i, q) == string_close(s, i + 2, q));
                } else {
                    assert(string_close(s, (i + 1) as nat, q) == s.len());
                    assert(string_close(s, i, q) == s.len());
                }
            }
        } else {
            lemma_string_close_shift(s, a, b, i + 1, q);
        }
    }
}

proof fn lemma_css_url_span(s: Seq<char>, a: nat, u: nat)
    requires
        a <= u <= s.len(),
        css_url(s, u).1 <= s.len(),
        u <= css_url(s, u).1,
    ensures
        ({
            let (t, p) = css_url(s, u);
            css_url(s.subrange(a as int, p as int), (u - a) as nat) == (t, (p - a) as nat)
        }),
{
    let (t, p) = css_url(s, u);
    let sub = s.subrange(a as int, p as int);
    crate::text::lemma_ws_end(s, u);
    let w = ws_end(s, u);
    crate::text::lemma_ws_end_shift(s, a, p, u);
    if w < s.len() && (s[w as int] == '"' || s[w as int] == '\'') {
        let q = s[w as int];
        crate::text::lemma_find_at(s, w + 1, q);
        let j = find_at(s, w + 1, q);
        if j < s.len() {
            crate::text::lemma_ws_end(s, j + 1);
            let w2 = ws_end(s, j + 1);
            assert(w < p);
            assert(sub[(w - a) as int] == s[w as int]);
            crate::text::lemma_find_at_shift(s, a, p, w + 1, q);
            assert(j < p);
            crate::text::lemma_ws_end_shift(s, a, p, j + 1);
            assert(sub.subrange((w - a) as int + 1, (j - a) as int) =~= s.subrange(
                w as int + 1,
                j as int,
            ));
            if w2 < s.len() && s[w2 as int] == ')' {
                assert(w2 < p);
                assert(sub[(w2 - a) as int] == s[w2 as int]);
            }
        } else {
            // Unterminated quoted url: the span runs to the end of the input.
            assert(p == s.len());
            assert(w < p) by {
                assert(s[w as int] != ')' || true);
            }
            assert(sub[(w - a) as int] == s[w as int]);
            crate::text::lemma_find_at_shift(s, a, p, w + 1, q);
            assert(sub.subrange((w - a) as int + 1, (p - a) as int) =~= s.subrange(
                w as int + 1,
                p as int,
            ));
        }
    } else {
        crate::text::lemma_find_at(s, w, ')');
        let j = find_at(s, w, ')');
        crate::text::lemma_find_at_shift(s, a, p, w, ')');
        if w < p {
            assert(sub[(w - a) as int] == s[w as int]);
        }
        if j < s.len() {
            assert(sub.subrange((w - a) as int, (j - a) as int) =~= s.subrange(
                w as int,
                j as int,
            ));
        } else {
            assert(sub.subrange((w - a) as int, (p - a) as int) =~= s.subrange(
                w as int,
                p as int,
            ));
        }
    }
}

/// Round-trip: a token claims exactly the span it was read from.
/// Tokenizing just that span — the characters from the token's start to
/// the position where scanning resumed — yields the same token again,
/// consuming the whole span.
pub proof fn lemma_css_token_round_trip(s: Seq<char>, i: nat)
    requires
        i <= s.len(),
        css_token_at(s, i) is Some,
    ensures
        ({
            let (t, p) = css_token_at(s, i)->0;
            css_token_at(s.subrange(i as int, p as int), 0) == Some((t, (p - i) as nat))
        }),
{
    let (t, p) = css_token_at(s, i)->0;
    lemma_css_token_at(s, i);
    let sub = s.subrange(i as int, p as int);
    let c = s[i as int];
    assert(sub[0] == c);
    if is_ws(c) {
        crate::text::lemma_ws_end(s, i);
        crate::text::lemma_ws_end_shift(s, i, p, i);
    } else if c == '/' && i + 1 < s.len() && s[i as int + 1] == '*' {
        assert(p >= i + 2) by {
            lemma_comment_close(s, i + 2);
        }
        assert(sub[1] == s[i as int + 1]);
        lemma_comment_close(s, i + 2);
        lemma_comment_close_shift(s, i, p, i + 2);
        let j = comment_close(s, i + 2);
        if j < s.len() {
            assert(sub.subrange(2, (j - i) as int) =~= s.subrange(i as int + 2, j as int));
        } else {
            assert(sub.subrange(2, (p - i) as int) =~= s.subrange(i as int + 2, p as int));
        }
    } else if c == '{' || c == '}' || c == '(' || c == ')' || c == '[' || c == ']' || c == ':'
        || c == ';' || c == ',' {
        assert(p == i + 1);
        assert(sub.len() == 1);
    } else if c == '"' || c == '\'' {
        lemma_string_close(s, i + 1, c);
        lemma_string_close_shift(s, i, p, i + 1, c);
        let j = string_close(s, i + 1, c);
        if j < s.len() {
            assert(sub.subrange(1, (j - i) as int) =~= s.subrange(i as int + 1, j as int));
        } else {
            assert(sub.subrange(1, (p - i) as int) =~= s.subrange(i as int + 1, p as int));
        }
    } else if c == '#' || c == '@' {
        crate::text::lemma_name_end(s, i + 1);
        crate::text::lemma_name_end_shift(s, i, p, i + 1);
        let e = name_end(s, i + 1);
        if e != i + 1 {
            assert(sub.subrange(1, (e - i) as int) =~= s.subrange(i as int + 1, e as int));
        }
    } else if is_digit(c) || (c == '.' && i + 1 < s.len() && is_digit(s[i as int + 1])) || (c
        == '-' && i + 1 < s.len() && (is_digit(s[i as int + 1]) || s[i as int + 1] == '.')) {
        let d = if c == '-' {
            i + 1
        } else {
            i
        };
        crate::text::lemma_num_end(s, d, false);
        let e = num_end(s, d, false);
        assert((t, p) == css_number(s, i));
        if e < s.len() && s[e as int] != '%' && is_alpha(s[e as int]) {
            crate::text::lemma_alnum_end(s, e);
        }
        assert(e <= p);
        if c == '-' || c == '.' {
            assert(e >= i + 2) by {
                if c == '-' {
                    if is_digit(s[d as int]) {
                        crate::text::lemma_num_end(s, d + 1, false);
                    } else {
                        crate::text::lemma_num_end(s, d + 1, true);
                    }
                } else {
                    assert(num_end(s, d, false) == num_end(s, d + 1, true));
                    crate::text::lemma_num_end(s, d + 2, true);
                }
            }
            assert(sub[1] == s[i as int + 1]);
        }
        crate::text::lemma_num_end_shift(s, i, p, d, false);
        assert(sub.subrange(0, (e - i) as int) =~= s.subrange(i as int, e as int));
        if e < s.len() && s[e as int] == '%' {
            assert(p == e + 1);
            assert(sub[(e - i) as int] == s[e as int]);
        } else if e < s.len() && is_alpha(s[e as int]) {
            crate::text::lemma_alnum_end(s, e);
            let un = alnum_end(s, e);
            assert(un > e);
            assert(sub[(e - i) as int] == s[e as int]);
            crate::text::lemma_alnum_end_shift(s, i, p, e);
            assert(sub.subrange((e - i) as int, (un - i) as int) =~= s.subrange(
                e as int,
                un as int,
            ));
        }
    } else if is_alpha(c) || c == '_' || c == '-' {
        crate::text::lemma_name_end(s, i);
        let e = name_end(s, i);
        crate::text::lemma_name_end_shift(s, i, p, i);
        let id = s.subrange(i as int, e as int);
        if id == "url"@ && e < s.len() && s[e as int] == '(' {
            lemma_css_url(s, e + 1);
            assert(e < p);
            assert(sub.subrange(0, (e - i) as int) =~= id);
            assert(sub[(e - i) as int] == s[e as int]);
            lemma_css_url_span(s, i, e + 1);
        } else {
            assert(p == e);
            assert(sub.subrange(0, (e - i) as int) =~= id);
        }
    } else {
        assert(p == i + 1);
        assert(sub.len() == 1);
    }
}

/// The sequence of all tokens from position `i` to the end of the input.
pub open spec fn css_tokens_from(s: Seq<char>, i: nat) -> Seq<CssTok>
    decreases s.len() - i,
    when i <= s.len()
    via css_tokens_from_dec
{
    match css_token_at(s, i) {
        None => Seq::empty(),
        Some((t, p)) => seq![t] + css_tokens_from(s, p),
    }
}

#[via_fn]
proof fn css_tokens_from_dec(s: Seq<char>, i: nat) {
    lemma_css_token_at(s, i);
}

/// The token stream of a whole input.
pub open spec fn css_tokens(s: Seq<char>) -> Seq<CssTok> {
    css_tokens_from(s, 0)
}

// ---------------------------------------------------------------------------
// The executable tokenizer.
// ---------------------------------------------------------------------------

/// Does the numeric run continue at a character `c`, given whether a
/// decimal point has already been consumed?
fn num_continues(c: char, has_dot: bool) -> (r: bool)
    ensures
        r == (is_digit(c) || (c == '.' && !has_dot)),
{
    digit_char(c) || (c == '.' && !has_dot)
}

/// A pull-based CSS tokenizer positioned inside a borrowed input string.
pub struct CssTokenizer<'a> {
    input: &'a str,
    position: usize,
}

impl<'a> CssTokenizer<'a> {
    /// The input being tokenized.
    pub closed spec fn src(&self) -> Seq<char> {
        self.input@
    }

    /// The current position, in characters.
    pub closed spec fn pos(&self) -> nat {
        self.position as nat
    }

    pub closed spec fn wf(&self) -> bool {
        self.position <= self.input@.len()
    }

    /// What well-formedness guarantees: the position stays within the
    /// input.
    pub proof fn lemma_wf(&self)
        requires
            self.wf(),
        ensures
            self.pos() <= self.src().len(),
    {
    }

    pub fn new(input: &'a str) -> (t: Self)
        ensures
            t.wf(),
            t.src() == input@,
            t.pos() == 0,
    {
        Self { input, position: 0 }
    }

    fn current_char(&self) -> (c: Option<char>)
        requires
            self.wf(),
        ensures
            match c {
                Some(ch) => self.pos() < self.src().len() && ch == self.src()[self.pos() as int],
                None => self.pos() == self.src().len(),
            },
    {
        if self.position < self.input.unicode_len() {
            Some(self.input.get_char(self.position))
        } else {
            None
        }
    }

    fn peek_char(&self, offset: usize) -> (c: Option<char>)
        requires
            self.wf(),
        ensures
            match c {
                Some(ch) => self.pos() + offset < self.src().len() && ch == self.src()[(self.pos()
                    + offset) as int],
                None => self.pos() + offset >= self.src().len(),
            },
    {
        let n = self.input.unicode_len();
        if offset < n && self.position < n - offset {
            Some(self.input.get_char(self.position + offset))
        } else {
            None
        }
    }

    fn advance(&mut self)
        requires
            old(self).wf(),
        ensures
            final(self).wf(),
            final(self).src() == old(self).src(),
            final(self).pos() == if old(self).pos() < old(self).src().len() {
                old(self).pos() + 1
            } else {
                old(self).pos()
            },
    {
        if self.position < self.input.unicode_len() {
            self.position = self.position + 1;
        }
    }

    fn skip_whitespace(&mut self)
        requires
            old(self).wf(),
        ensures
            final(self).wf(),
            final(self).src() == old(self).src(),
            final(self).pos() == ws_end(old(self).src(), old(self).pos()),
    {
        let ghost s = self.src();
        let ghost p0 = self.pos();
        let n = self.input.unicode_len();
        while self.position < n && ws_char(self.input.get_char(self.position))
            invariant
                self.wf(),
                self.src() == s,
                n == s.len(),
                ws_end(s, p0) == ws_end(s, self.pos()),
            decreases n - self.position,
        {
            self.position = self.position + 1;
        }
    }

    fn skip_name_run(&mut self)
        requires
            old(self).wf(),
        ensures
            final(self).wf(),
            final(self).src() == old(self).src(),
            old(self).pos() <= final(self).pos(),
            final(self).pos() == name_end(old(self).src(), old(self).pos()),
    {
        let ghost s = self.src();
        let ghost p0 = self.pos();
        let n = self.input.unicode_len();
        proof {
            crate::text::lemma_name_end(s, p0);
        }
        while self.position < n && name_char(self.input.get_char(self.position))
            invariant
                self.wf(),
                self.src() == s,
                n == s.len(),
                p0 <= self.pos(),
                name_end(s, p0) == name_end(s, self.pos()),
            decreases n - self.position,
        {
            self.position = self.position + 1;
        }
    }

    fn seek_char(&mut self, t: char)
        requires
            old(self).wf(),
        ensures
            final(self).wf(),
            final(self).src() == old(self).src(),
            old(self).pos() <= final(self).pos(),
            final(self).pos() == find_at(old(self).src(), old(self).pos(), t),
    {
        let ghost s = self.src();
        let ghost p0 = self.pos();
        let n = self.input.unicode_len();
        while self.position < n && self.input.get_char(self.position) != t
            invariant
                self.wf(),
                self.src() == s,
                n == s.len(),
                p0 <= self.pos(),
                find_at(s, p0, t) == find_at(s, self.pos(), t),
            decreases n - self.position,
        {
            self.position = self.position + 1;
        }
    }

    fn consume_whitespace(&mut self) -> (t: Option<CssToken<'a>>)
        requires
            old(self).wf(),
        ensures
            final(self).wf(),
            final(self).src() == old(self).src(),
            t matches Some(tk) && tk@ == CssTok::Whitespace,
            final(self).pos() == ws_end(old(self).src(), old(self).pos()),
    {
        self.skip_whitespace();
        Some(CssToken::Whitespace)
    }

    fn consume_comment(&mut self) -> (t: Option<CssToken<'a>>)
        requires
            old(self).wf(),
            old(self).pos() + 2 <= old(self).src().len(),
        ensures
            final(self).wf(),
            final(self).src() == old(self).src(),
            ({
                let (tok, p) = css_comment(old(self).src(), old(self).pos());
                t matches Some(tk) && tk@ == tok && final(self).pos() == p
            }),
    {
        let ghost s = self.src();
        let ghost i = self.pos();
        self.advance();  // skip '/'
        self.advance();  // skip '*'
        let start = self.position;
        let n = self.input.unicode_len();
        let inp = self.input;
        while self.position < n - 1
            invariant
                self.wf(),
                self.src() == s,
                n == s.len(),
                inp@ == s,
                n >= 2,
                start == i + 2,
                start <= self.pos(),
                comment_close(s, start as nat) == comment_close(s, self.pos()),
            decreases n - self.position,
        {
            if inp.get_char(self.position) == '*' && inp.get_char(self.position + 1) == '/' {
                let content = inp.substring_char(start, self.position);
                proof {
                    assert(comment_close(s, self.pos()) == self.pos());
                }
                self.advance();  // skip '*'
                self.advance();  // skip '/'
                return Some(CssToken::Comment(content));
            }
            self.position = self.position + 1;
        }
        // Unclosed comment: everything to the end of the input is its text.
        proof {
            assert(comment_close(s, self.pos()) == s.len());
        }
        let content = inp.substring_char(start, n);
        self.position = n;
        Some(CssToken::Comment(content))
    }

    fn consume_string(&mut self, quote: char) -> (t: Option<CssToken<'a>>)
        requires
            old(self).wf(),
            old(self).pos() < old(self).src().len(),
            old(self).src()[old(self).pos() as int] == quote,
        ensures
            final(self).wf(),
            final(self).src() == old(self).src(),
            ({
                let (tok, p) = css_string(old(self).src(), old(self).pos());
                t matches Some(tk) && tk@ == tok && final(self).pos() == p
            }),
    {
        let ghost s = self.src();
        let ghost i = self.pos();
        self.advance();  // skip the opening quote
        let start = self.position;
        let n = self.input.unicode_len();
        let inp = self.input;
        while self.position < n
            invariant
                self.wf(),
                self.src() == s,
                n == s.len(),
                inp@ == s,
                start == i + 1,
                start <= self.pos(),
                string_close(s, start as nat, quote) == string_close(s, self.pos(), quote),
            decreases n - self.position,
        {
            let ch = inp.get_char(self.position);
            if ch == quote {
                let content = inp.substring_char(start, self.position);
                proof {
                    assert(string_close(s, self.pos(), quote) == self.pos());
                }
                self.advance();  // skip the closing quote
                return Some(CssToken::QuotedString(content));
            } else if ch == '\\' {
                self.advance();  // skip the backslash
                if self.position < n {
                    self.advance();  // skip the escaped character
                }
            } else {
                self.advance();
            }
        }
        // Unclosed string: everything to the end of the input is its text.
        let content = inp.substring_char(start, n);
        Some(CssToken::QuotedString(content))
    }

    fn consume_hash(&mut self) -> (t: Option<CssToken<'a>>)
        requires
            old(self).wf(),
            old(self).pos() < old(self).src().len(),
        ensures
            final(self).wf(),
            final(self).src() == old(self).src(),
            ({
                let (tok, p) = css_hash(old(self).src(), old(self).pos());
                t matches Some(tk) && tk@ == tok && final(self).pos() == p
            }),
    {
        self.advance();  // skip '#'
        let start = self.position;
        self.skip_name_run();
        if start == self.position {
            Some(CssToken::Delim('#'))
        } else {
            let content = self.input.substring_char(start, self.position);
            Some(CssToken::Hash(content))
        }
    }

    fn consume_at_keyword(&mut self) -> (t: Option<CssToken<'a>>)
        requires
            old(self).wf(),
            old(self).pos() < old(self).src().len(),
        ensures
            final(self).wf(),
            final(self).src() == old(self).src(),
            ({
                let (tok, p) = css_at_keyword(old(self).src(), old(self).pos());
                t matches Some(tk) && tk@ == tok && final(self).pos() == p
            }),
    {
        self.advance();  // skip '@'
        let start = self.position;
        self.skip_name_run();
        if start == self.position {
            Some(CssToken::Delim('@'))
        } else {
            let content = self.input.substring_char(start, self.position);
            Some(CssToken::AtKeyword(content))
        }
    }

    fn consume_number(&mut self) -> (t: Option<CssToken<'a>>)
        requires
            old(self).wf(),
            old(self).pos() < old(self).src().len(),
        ensures
            final(self).wf(),
            final(self).src() == old(self).src(),
            ({
                let (tok, p) = css_number(old(self).src(), old(self).pos());
                t matches Some(tk) && tk@ == tok && final(self).pos() == p
            }),
    {
        let ghost s = self.src();
        let ghost i = self.pos();
        let start = self.position;
        let n = self.input.unicode_len();
        let inp = self.input;

        // Optional leading minus sign.
        let first = inp.get_char(self.position);
        if first == '-' {
            self.advance();
        }
        let ghost d = self.pos();

        // Digits, with at most one decimal point.
        let mut has_dot = false;
        while self.position < n && num_continues(inp.get_char(self.position), has_dot)
            invariant
                self.wf(),
                self.src() == s,
                n == s.len(),
                inp@ == s,
                d <= self.pos(),
                num_end(s, d, false) == num_end(s, self.pos(), has_dot),
            decreases n - self.position,
        {
            let ch = inp.get_char(self.position);
            if digit_char(ch) {
                self.advance();
            } else {
                has_dot = true;
                self.advance();
            }
        }
        proof {
            assert(num_end(s, d, false) == self.pos());
        }
        let number_str = inp.substring_char(start, self.position);

        // Classify by what follows: `%`, a unit, or nothing.
        let cur = self.current_char();
        match cur {
            Some(ch) => {
                if ch == '%' {
                    self.advance();
                    Some(CssToken::Percentage(number_str))
                } else if alpha_char(ch) {
                    let unit_start = self.position;
                    let ghost e = self.pos();
                    while self.position < n && alnum_char(inp.get_char(self.position))
                        invariant
                            self.wf(),
                            self.src() == s,
                            n == s.len(),
                            inp@ == s,
                            e <= self.pos(),
                            alnum_end(s, e) == alnum_end(s, self.pos()),
                        decreases n - self.position,
                    {
                        self.position = self.position + 1;
                    }
                    let unit = inp.substring_char(unit_start, self.position);
                    Some(CssToken::Dimension { value: number_str, unit })
                } else {
                    Some(CssToken::Number(number_str))
                }
            },
            None => Some(CssToken::Number(number_str)),
        }
    }

    fn consume_ident_or_url(&mut self) -> (t: Option<CssToken<'a>>)
        requires
            old(self).wf(),
            old(self).pos() < old(self).src().len(),
        ensures
            final(self).wf(),
            final(self).src() == old(self).src(),
            ({
                let (tok, p) = css_ident_or_url(old(self).src(), old(self).pos());
                t matches Some(tk) && tk@ == tok && final(self).pos() == p
            }),
    {
        let ghost s = self.src();
        let ghost i = self.pos();
        let start = self.position;
        let inp = self.input;
        self.skip_name_run();
        let ident = inp.substring_char(start, self.position);

        // `url` immediately followed by `(` switches to url-literal mode.
        let is_url = str_eq(ident, "url");
        let at_paren = match self.current_char() {
            Some(ch) => ch == '(',
            None => false,
        };
        if is_url && at_paren {
            self.advance();  // skip '('
            self.consume_url_body()
        } else {
            Some(CssToken::Ident(ident))
        }
    }

    fn consume_url_body(&mut self) -> (t: Option<CssToken<'a>>)
        requires
            old(self).wf(),
        ensures
            final(self).wf(),
            final(self).src() == old(self).src(),
            ({
                let (tok, p) = css_url(old(self).src(), old(self).pos());
                t matches Some(tk) && tk@ == tok && final(self).pos() == p
            }),
    {
        let ghost s = self.src();
        let ghost i = self.pos();
        let n = self.input.unicode_len();
        let inp = self.input;
        self.skip_whitespace();

        let quoted = match self.current_char() {
            Some(ch) => if ch == '"' || ch == '\'' {
                Some(ch)
            } else {
                None
            },
            None => None,
        };
        match quoted {
            Some(q) => {
                self.advance();  // skip the opening quote
                let content_start = self.position;
                self.seek_char(q);
                if self.position < n {
                    let url = inp.substring_char(content_start, self.position);
                    self.advance();  // skip the closing quote
                    self.skip_whitespace();
                    let at_rparen = match self.current_char() {
                        Some(ch) => ch == ')',
                        None => false,
                    };
                    if at_rparen {
                        self.advance();  // skip ')'
                    }
                    Some(CssToken::Url(url))
                } else {
                    // Unclosed url: everything to the end of the input.
                    let url = inp.substring_char(content_start, n);
                    Some(CssToken::Url(url))
                }
            },
            None => {
                let content_start = self.position;
                self.seek_char(')');
                if self.position < n {
                    let url = trim_str(inp.substring_char(content_start, self.position));
                    self.advance();  // skip ')'
                    Some(CssToken::Url(url))
                } else {
                    // Unclosed url: everything to the end of the input.
                    let url = inp.substring_char(content_start, n);
                    Some(CssToken::Url(url))
                }
            },
        }
    }

    /// The next token, or `None` at the end of the input: exactly what
    /// [`css_token_at`] names at the current position.
    pub fn next_token(&mut self) -> (t: Option<CssToken<'a>>)
        requires
            old(self).wf(),
        ensures
            final(self).wf(),
            final(self).src() == old(self).src(),
            match css_token_at(old(self).src(), old(self).pos()) {
                Some((tok, p)) => t matches Some(tk) && tk@ == tok && final(self).pos() == p,
                None => t is None && final(self).pos() == old(self).pos(),
            },
    {
        let n = self.input.unicode_len();
        if self.position >= n {
            return None;
        }

        let c = self.input.get_char(self.position);
        let peek_star = match self.peek_char(1) {
            Some(x) => x == '*',
            None => false,
        };
        let peek_digit = match self.peek_char(1) {
            Some(x) => digit_char(x),
            None => false,
        };

        if ws_char(c) {
            self.consume_whitespace()
        } else if c == '/' && peek_star {
            self.consume_comment()
        } else if c == '{' {
            self.advance();
            Some(CssToken::LeftBrace)
        } else if c == '}' {
            self.advance();
            Some(CssToken::RightBrace)
        } else if c == '(' {
            self.advance();
            Some(CssToken::LeftParen)
        } else if c == ')' {
            self.advance();
            Some(CssToken::RightParen)
        } else if c == '[' {
            self.advance();
            Some(CssToken::LeftBracket)
        } else if c == ']' {
            self.advance();
            Some(CssToken::RightBracket)
        } else if c == ':' {
            self.advance();
            Some(CssToken::Colon)
        } else if c == ';' {
            self.advance();
            Some(CssToken::Semicolon)
        } else if c == ',' {
            self.advance();
            Some(CssToken::Comma)
        } else if c == '"' || c == '\'' {
            self.consume_string(c)
        } else if c == '#' {
            self.consume_hash()
        } else if c == '@' {
            self.consume_at_keyword()
        } else if digit_char(c) {
            self.consume_number()
        } else if c == '.' && peek_digit {
            self.consume_number()
        } else if c == '-' && self.is_number_start() {
            self.consume_number()
        } else if alpha_char(c) || c == '_' || c == '-' {
            self.consume_ident_or_url()
        } else {
            self.advance();
            Some(CssToken::Delim(c))
        }
    }

    fn is_number_start(&self) -> (r: bool)
        requires
            self.wf(),
        ensures
            r == (self.pos() + 1 < self.src().len() && (is_digit(
                self.src()[self.pos() as int + 1],
            ) || self.src()[self.pos() as int + 1] == '.')),
    {
        match self.peek_char(1) {
            Some(next) => digit_char(next) || next == '.',
            None => false,
        }
    }
}

} // verus!
