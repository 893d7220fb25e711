//! HTML tokenizer: a pull-based producer of HTML tokens over a borrowed
//! input string.
//!
//! The meaning of the tokenizer is given by the spec function
//! [`html_token_at`]: from any position it names the token recognized
//! there (or `None`) and the position where scanning resumes.
//! [`HtmlTokenizer::next_token`] is proved to return exactly that.
//! Whitespace before a token is skipped, never emitted.  A `<` that opens
//! no recognizable construct ends the token stream.

use vstd::prelude::*;
use vstd::string::StrSliceExecFns;

use crate::text::find_at;
use crate::text::is_ws;
use crate::text::lower;
use crate::text::lower_char;
use crate::text::name_end;
use crate::text::scan_name;
use crate::text::scan_to_char;
use crate::text::scan_ws;
use crate::text::to_lower_char;
use crate::text::ws_char;
use crate::text::ws_end;

verus! {

/// One HTML token.  All string fields borrow the input.
#[derive(Debug, Clone, PartialEq)]
pub enum HtmlToken<'a> {
    StartTag { name: &'a str, attributes: Vec<(&'a str, &'a str)>, self_closing: bool },
    EndTag { name: &'a str },
    Text(&'a str),
    Comment(&'a str),
    Doctype(&'a str),
}

/// The mathematical shape of an HTML token.
pub enum HtmlTok {
    StartTag { name: Seq<char>, attributes: Seq<(Seq<char>, Seq<char>)>, self_closing: bool },
    EndTag { name: Seq<char> },
    Text(Seq<char>),
    Comment(Seq<char>),
    Doctype(Seq<char>),
}

/// The views of a list of borrowed attribute pairs.
pub open spec fn attrs_view(a: Seq<(&str, &str)>) -> Seq<(Seq<char>, Seq<char>)> {
    a.map_values(|p: (&str, &str)| (p.0@, p.1@))
}

impl<'a> View for HtmlToken<'a> {
    type V = HtmlTok;

    open spec fn view(&self) -> HtmlTok {
        match self {
            HtmlToken::StartTag { name, attributes, self_closing } => HtmlTok::StartTag {
                name: name@,
                attributes: attrs_view(attributes@),
                self_closing: *self_closing,
            },
            HtmlToken::EndTag { name } => HtmlTok::EndTag { name: name@ },
            HtmlToken::Text(s) => HtmlTok::Text(s@),
            HtmlToken::Comment(s) => HtmlTok::Comment(s@),
            HtmlToken::Doctype(s) => HtmlTok::Doctype(s@),
        }
    }
}

// ---------------------------------------------------------------------------
// Spec-level tokenization.
// ---------------------------------------------------------------------------

/// Position of the `-` of the first `-->` at or after `i`, or the length
/// of `s` if the comment never closes.
pub open spec fn hcomment_close(s: Seq<char>, i: nat) -> nat
    decreases s.len() - i,
{
    if i + 2 >= s.len() {
        s.len()
    } else if s[i as int] == '-' && s[i as int + 1] == '-' && s[i as int + 2] == '>' {
        i
    } else {
        hcomment_close(s, i + 1)
    }
}

/// End of an unquoted attribute value starting at `i`: the first
/// whitespace, `>` or `/`.
pub open spec fn uq_end(s: Seq<char>, i: nat) -> nat
    decreases s.len() - i,
{
    if i < s.len() && !(is_ws(s[i as int]) || s[i as int] == '>' || s[i as int] == '/') {
        uq_end(s, i + 1)
    } else {
        i
    }
}

/// Does a comment (`!--`) open at position `i` (just after a `<`)?
pub open spec fn comment_opens(s: Seq<char>, i: nat) -> bool {
    i + 3 <= s.len() && s[i as int] == '!' && s[i as int + 1] == '-' && s[i as int + 2] == '-'
}

/// Does a doctype (`!doctype`, any case) open at position `i` (just after
/// a `<`)?
pub open spec fn doctype_opens(s: Seq<char>, i: nat) -> bool {
    i + 8 <= s.len() && lower(s.subrange(i as int, i as int + 8)) == "!doctype"@
}

/// One attribute recognized at `i`: a name run (empty means no attribute),
/// then optionally `=` and a quoted or unquoted value; an attribute
/// without `=` has the empty value.
pub open spec fn attr_at(s: Seq<char>, i: nat) -> (Option<(Seq<char>, Seq<char>)>, nat) {
    let a = name_end(s, i);
    if a == i {
        (None, i)
    } else {
        let name = s.subrange(i as int, a as int);
        let b = ws_end(s, a);
        if b < s.len() && s[b as int] == '=' {
            let c = ws_end(s, b + 1);
            if c < s.len() && (s[c as int] == '"' || s[c as int] == '\'') {
                let q = s[c as int];
                let j = find_at(s, c + 1, q);
                if j < s.len() {
                    (Some((name, s.subrange(c as int + 1, j as int))), j + 1)
                } else {
                    (Some((name, s.subrange(c as int + 1, s.len() as int))), s.len())
                }
            } else {
                let e = uq_end(s, c);
                (Some((name, s.subrange(c as int, e as int))), e)
            }
        } else {
            (Some((name, Seq::empty())), b)
        }
    }
}

proof fn lemma_uq_end(s: Seq<char>, i: nat)
    requires
        i <= s.len(),
    ensures
        i <= uq_end(s, i) <= s.len(),
    decreases s.len() - i,
{
    if i < s.len() && !(is_ws(s[i as int]) || s[i as int] == '>' || s[i as int] == '/') {
        lemma_uq_end(s, i + 1);
    }
}

proof fn lemma_hcomment_close(s: Seq<char>, i: nat)
    requires
        i <= s.len(),
    ensures
        i <= hcomment_close(s, i) <= s.len(),
        hcomment_close(s, i) < s.len() ==> hcomment_close(s, i) + 3 <= s.len(),
    decreases s.len() - i,
{
    if i + 2 < s.len() && !(s[i as int] == '-' && s[i as int + 1] == '-' && s[i as int + 2]
        == '>') {
        lemma_hcomment_close(s, i + 1);
    }
}

proof fn lemma_attr_at(s: Seq<char>, i: nat)
    requires
        i <= s.len(),
    ensures
        attr_at(s, i).0 is None ==> attr_at(s, i).1 == i,
        attr_at(s, i).0 is Some ==> i < attr_at(s, i).1 <= s.len(),
{
    crate::text::lemma_name_end(s, i);
    let a = name_end(s, i);
    if a != i {
        crate::text::lemma_ws_end(s, a);
        let b = ws_end(s, a);
        if b < s.len() && s[b as int] == '=' {
            crate::text::lemma_ws_end(s, b + 1);
            let c = ws_end(s, b + 1);
            if c < s.len() && (s[c as int] == '"' || s[c as int] == '\'') {
                crate::text::lemma_find_at(s, c + 1, s[c as int]);
            } else {
                lemma_uq_end(s, c);
            }
        }
    }
}

/// The attribute loop of a start tag, beginning at `i`: skips whitespace,
/// collects attributes, notices `/>`, and stops at `>`, at an attribute
/// that cannot start, or at the end of the input.  Returns the attributes,
/// the self-closing flag, and the position where scanning resumes.
pub open spec fn attrs_scan(s: Seq<char>, i: nat) -> (Seq<(Seq<char>, Seq<char>)>, bool, nat)
    decreases s.len() - i,
    when i <= s.len()
    via attrs_scan_dec
{
    let w = ws_end(s, i);
    if w >= s.len() {
        (Seq::empty(), false, w)
    } else if s[w as int] == '>' {
        (Seq::empty(), false, w + 1)
    } else if s[w as int] == '/' {
        if w + 1 < s.len() && s[w as int + 1] == '>' {
            (Seq::empty(), true, w + 2)
        } else {
            attrs_scan(s, w + 1)
        }
    } else {
        let (att, p) = attr_at(s, w);
        match att {
            None => (Seq::empty(), false, w),
            Some(pair) => {
                let (rest, sc, e) = attrs_scan(s, p);
                (seq![pair] + rest, sc, e)
            },
        }
    }
}

#[via_fn]
proof fn attrs_scan_dec(s: Seq<char>, i: nat) {
    crate::text::lemma_ws_end(s, i);
    let w = ws_end(s, i);
    if w < s.len() {
        lemma_attr_at(s, w);
    }
}

proof fn lemma_attrs_scan(s: Seq<char>, i: nat)
    requires
        i <= s.len(),
    ensures
        i <= attrs_scan(s, i).2 <= s.len(),
    decreases s.len() - i,
{
    crate::text::lemma_ws_end(s, i);
    let w = ws_end(s, i);
    if w < s.len() {
        lemma_attr_at(s, w);
        if s[w as int] == '/' && !(w + 1 < s.len() && s[w as int + 1] == '>') {
            lemma_attrs_scan(s, w + 1);
        } else if s[w as int] != '>' && s[w as int] != '/' {
            let (att, p) = attr_at(s, w);
            if att is Some {
                lemma_attrs_scan(s, p);
            }
        }
    }
}

/// The construct opened by the `<` at position `w`: a comment, a doctype,
/// an end tag, or a start tag with its attributes.  A `<` that opens none
/// of these (no name characters follow) yields `None` with the position
/// reset to the `<` itself, which ends the token stream.
pub open spec fn html_tag_at(s: Seq<char>, w: nat) -> (Option<HtmlTok>, nat)
    recommends
        w < s.len(),
{
    if comment_opens(s, w + 1) {
        let cstart = w + 4;
        let j = hcomment_close(s, cstart);
        if j < s.len() {
            (Some(HtmlTok::Comment(s.subrange(cstart as int, j as int))), j + 3)
        } else {
            (Some(HtmlTok::Comment(s.subrange(cstart as int, s.len() as int))), s.len())
        }
    } else if doctype_opens(s, w + 1) {
        let j = find_at(s, w + 1, '>');
        if j < s.len() {
            (Some(HtmlTok::Doctype(s.subrange(w as int + 1, j as int))), j + 1)
        } else {
            (Some(HtmlTok::Doctype(s.subrange(w as int + 1, s.len() as int))), s.len())
        }
    } else {
        let is_end = w + 1 < s.len() && s[w as int + 1] == '/';
        let nstart = if is_end {
            w + 2
        } else {
            w + 1
        };
        let e = name_end(s, nstart);
        if e == nstart {
            (None, w)
        } else {
            let name = s.subrange(nstart as int, e as int);
            if is_end {
                let j = find_at(s, e, '>');
                let p = if j < s.len() {
                    j + 1
                } else {
                    j
                };
                (Some(HtmlTok::EndTag { name }), p)
            } else {
                let (attrs, sc, p) = attrs_scan(s, e);
                (Some(HtmlTok::StartTag { name, attributes: attrs, self_closing: sc }), p)
            }
        }
    }
}

/// The token recognized at position `i` of `s` (after skipping leading
/// whitespace) and the position where scanning resumes.  `None` means the
/// stream ends there: the end of the input, or a `<` that opens nothing.
pub open spec fn html_token_at(s: Seq<char>, i: nat) -> (Option<HtmlTok>, nat) {
    let w = ws_end(s, i);
    if w >= s.len() {
        (None, w)
    } else if s[w as int] == '<' {
        html_tag_at(s, w)
    } else {
        let e = find_at(s, w, '<');
        (Some(HtmlTok::Text(s.subrange(w as int, e as int))), e)
    }
}

/// Tokenization makes progress: a recognized token advances the position,
/// and a `None` answer repeats itself, ending the stream.
pub proof fn lemma_html_token_at(s: Seq<char>, i: nat)
    requires
        i <= s.len(),
    ensures
        html_token_at(s, i).0 is Some ==> i < html_token_at(s, i).1 <= s.len(),
        html_token_at(s, i).0 is None ==> i <= html_token_at(s, i).1 <= s.len()
            && html_token_at(s, html_token_at(s, i).1) == (None::<HtmlTok>, html_token_at(s, i).1),
{
    crate::text::lemma_ws_end(s, i);
    let w = ws_end(s, i);
    if w >= s.len() {
        assert(ws_end(s, w) == w);
    } else if s[w as int] == '<' {
        lemma_html_tag_at(s, w);
        if html_tag_at(s, w).0 is None {
            assert(ws_end(s, w) == w);
        }
    } else {
        crate::text::lemma_find_at(s, w, '<');
        assert(find_at(s, w, '<') > w);
    }
}

proof fn lemma_html_tag_at(s: Seq<char>, w: nat)
    requires
        w < s.len(),
        s[w as int] == '<',
    ensures
        html_tag_at(s, w).0 is Some ==> w < html_tag_at(s, w).1 <= s.len(),
        html_tag_at(s, w).0 is None ==> html_tag_at(s, w).1 == w,
{
    if comment_opens(s, w + 1) {
        lemma_hcomment_close(s, w + 4);
    } else if doctype_opens(s, w + 1) {
        crate::text::lemma_find_at(s, w + 1, '>');
    } else {
        let is_end = w + 1 < s.len() && s[w as int + 1] == '/';
        let nstart = if is_end {
            w + 2
        } else {
            w + 1
        };
        crate::text::lemma_name_end(s, nstart);
        let e = name_end(s, nstart);
        if e != nstart {
            if is_end {
                crate::text::lemma_find_at(s, e, '>');
            } else {
                lemma_attrs_scan(s, e);
            }
        }
    }
}

proof fn lemma_hcomment_close_shift(s: Seq<char>, a: nat, b: nat, i: nat)
    requires
        a <= i <= b <= s.len(),
    ensures
        hcomment_close(s.subrange(a as int, b as int), (i - a) as nat) == if hcomment_close(s, i)
            + 2 < b {
            (hcomment_close(s, i) - a) as nat
        } else {
            (b - a) as nat
        },
    decreases b - i,
{
    let sub = s.subrange(a as int, b as int);
    lemma_hcomment_close(s, i);
    if i + 2 < b {
        assert(sub[(i - a) as int] == s[i as int]);
        assert(sub[(i - a) as int + 1] == s[i as int + 1]);
        assert(sub[(i - a) as int + 2] == s[i as int + 2]);
        if !(s[i as int] == '-' && s[i as int + 1] == '-' && s[i as int + 2] == '>') {
            lemma_hcomment_close_shift(s, a, b, i + 1);
        }
    }
}

proof fn lemma_uq_end_shift(s: Seq<char>, a: nat, b: nat, i: nat)
    requires
        a <= i <= b <= s.len(),
    ensures
        uq_end(s.subrange(a as int, b as int), (i - a) as nat) == if uq_end(s, i) <= b {
            (uq_end(s, i) - a) as nat
        } else {
            (b - a) as nat
        },
    decreases b - i,
{
    let sub = s.subrange(a as int, b as int);
    lemma_uq_end(s, i);
    if i < b {
        assert(sub[(i - a) as int] == s[i as int]);
        if !(is_ws(s[i as int]) || s[i as int] == '>' || s[i as int] == '/') {
            lemma_uq_end_shift(s, a, b, i + 1);
        }
    }
}

proof fn lemma_attr_at_shift(s: Seq<char>, a: nat, b: nat, i: nat)
    requires
        a <= i <= b <= s.len(),
        attr_at(s, i).1 <= b,
    ensures
        attr_at(s.subrange(a as int, b as int), (i - a) as nat) == (
            attr_at(s, i).0,
            (attr_at(s, i).1 - a) as nat,
        ),
{
    let sub = s.subrange(a as int, b as int);
    lemma_attr_at(s, i);
    crate::text::lemma_name_end(s, i);
    let nend = name_end(s, i);
    if nend != i {
        crate::text::lemma_ws_end(s, nend);
        let be = ws_end(s, nend);
        if be < s.len() && s[be as int] == '=' {
            crate::text::lemma_ws_end(s, be + 1);
            let c = ws_end(s, be + 1);
            if c < s.len() && (s[c as int] == '"' || s[c as int] == '\'') {
                let q = s[c as int];
                crate::text::lemma_find_at(s, c + 1, q);
                let j = find_at(s, c + 1, q);
                // positions: i < nend <= be < c < attr end <= b
                crate::text::lemma_name_end_shift(s, a, b, i);
                crate::text::lemma_ws_end_shift(s, a, b, nend);
                crate::text::lemma_ws_end_shift(s, a, b, be + 1);
                crate::text::lemma_find_at_shift(s, a, b, c + 1, q);
                assert(sub[(be - a) as int] == s[be as int]);
                assert(sub[(c - a) as int] == s[c as int]);
                assert(sub.subrange((i - a) as int, (nend - a) as int) =~= s.subrange(
                    i as int,
                    nend as int,
                ));
                if j < s.len() {
                    assert(sub.subrange((c - a) as int + 1, (j - a) as int) =~= s.subrange(
                        c as int + 1,
                        j as int,
                    ));
                } else {
                    assert(b == s.len());
                    assert(sub.subrange((c - a) as int + 1, (b - a) as int) =~= s.subrange(
                        c as int + 1,
                        s.len() as int,
                    ));
                }
            } else {
                lemma_uq_end(s, c);
                let e = uq_end(s, c);
                crate::text::lemma_name_end_shift(s, a, b, i);
                crate::text::lemma_ws_end_shift(s, a, b, nend);
                crate::text::lemma_ws_end_shift(s, a, b, be + 1);
                lemma_uq_end_shift(s, a, b, c);
                assert(sub[(be - a) as int] == s[be as int]);
                if c < b && c < s.len() {
                    assert(sub[(c - a) as int] == s[c as int]);
                }
                assert(sub.subrange((i - a) as int, (nend - a) as int) =~= s.subrange(
                    i as int,
                    nend as int,
                ));
                assert(sub.subrange((c - a) as int, (e - a) as int) =~= s.subrange(
                    c as int,
                    e as int,
                ));
            }
        } else {
            // No `=`: the value is empty.  In the subrange either the same
            // non-`=` character follows, or the span ends here.
            crate::text::lemma_name_end_shift(s, a, b, i);
            crate::text::lemma_ws_end_shift(s, a, b, nend);
            assert(sub.subrange((i - a) as int, (nend - a) as int) =~= s.subrange(
                i as int,
                nend as int,
            ));
            if be < b {
                assert(sub[(be - a) as int] == s[be as int]);
            }
        }
    } else {
        crate::text::lemma_name_end_shift(s, a, b, i);
    }
}

proof fn lemma_attrs_scan_shift(s: Seq<char>, a: nat, b: nat, i: nat)
    requires
        a <= i <= b <= s.len(),
        attrs_scan(s, i).2 <= b,
    ensures
        attrs_scan(s.subrange(a as int, b as int), (i - a) as nat) == (
            attrs_scan(s, i).0,
            attrs_scan(s, i).1,
            (attrs_scan(s, i).2 - a) as nat,
        ),
    decreases b - i,
{
    let sub = s.subrange(a as int, b as int);
    lemma_attrs_scan(s, i);
    crate::text::lemma_ws_end(s, i);
    crate::text::lemma_ws_end_shift(s, a, b, i);
    let w = ws_end(s, i);
    if w >= s.len() {
        assert(attrs_scan(s, i).2 == w);
        assert(b == s.len());
    } else if s[w as int] == '>' {
        assert(w < b);
        assert(sub[(w - a) as int] == s[w as int]);
    } else if s[w as int] == '/' {
        assert(w < b) by {
            if w + 1 < s.len() && s[w as int + 1] == '>' {
            } else {
                lemma_attrs_scan(s, w + 1);
            }
        }
        assert(sub[(w - a) as int] == s[w as int]);
        if w + 1 < s.len() && s[w as int + 1] == '>' {
            assert(w + 1 < b);
            assert(sub[(w - a) as int + 1] == s[w as int + 1]);
        } else {
            lemma_attrs_scan(s, w + 1);
            lemma_attrs_scan_shift(s, a, b, w + 1);
            if w + 1 < b && w + 1 < s.len() {
                assert(sub[(w - a) as int + 1] == s[w as int + 1]);
            }
            if w + 1 == b {
                // The `/` is the last character of the span: both sides
                // stop scanning at the end.
                assert(attrs_scan(sub, ((w - a) + 1) as nat) == (
                    Seq::<(Seq<char>, Seq<char>)>::empty(),
                    false,
                    (b - a) as nat,
                )) by {
                    crate::text::lemma_ws_end(sub, ((w - a) + 1) as nat);
                }
            }
        }
    } else {
        lemma_attr_at(s, w);
        let (att, p) = attr_at(s, w);
        match att {
            None => {
                if w < b {
                    assert(sub[(w - a) as int] == s[w as int]);
                    lemma_attr_at_shift(s, a, b, w);
                }
            },
            Some(pair) => {
                lemma_attrs_scan(s, p);
                assert(w < p <= b);
                assert(sub[(w - a) as int] == s[w as int]);
                lemma_attr_at_shift(s, a, b, w);
                lemma_attrs_scan_shift(s, a, b, p);
            },
        }
    }
}

/// Round-trip: a token claims exactly the span it was read from
/// (including the whitespace skipped before it).  Tokenizing just that
/// span yields the same token again.
pub proof fn lemma_html_token_round_trip(s: Seq<char>, i: nat)
    requires
        i <= s.len(),
        html_token_at(s, i).0 is Some,
    ensures
        ({
            let (t, p) = html_token_at(s, i);
            html_token_at(s.subrange(i as int, p as int), 0) == (t, (p - i) as nat)
        }),
{
    let (t, p) = html_token_at(s, i);
    lemma_html_token_at(s, i);
    let sub = s.subrange(i as int, p as int);
    crate::text::lemma_ws_end(s, i);
    let w = ws_end(s, i);
    if s[w as int] == '<' {
        lemma_html_tag_at(s, w);
        assert(w < p);
        crate::text::lemma_ws_end_shift(s, i, p, i);
        assert(sub[(w - i) as int] == s[w as int]);
        lemma_html_tag_round_trip(s, i, w, p);
    } else {
        crate::text::lemma_find_at(s, w, '<');
        crate::text::lemma_ws_end_shift(s, i, p, i);
        crate::text::lemma_find_at_shift(s, i, p, w, '<');
        assert(sub[(w - i) as int] == s[w as int]);
        assert(sub.subrange((w - i) as int, (p - i) as int) =~= s.subrange(w as int, p as int));
    }
}

proof fn lemma_html_tag_round_trip(s: Seq<char>, i: nat, w: nat, p: nat)
    requires
        i <= w < p <= s.len(),
        s[w as int] == '<',
        html_tag_at(s, w).0 is Some,
        html_tag_at(s, w).1 == p,
    ensures
        html_tag_at(s.subrange(i as int, p as int), (w - i) as nat) == (
            html_tag_at(s, w).0,
            (p - i) as nat,
        ),
{
    let sub = s.subrange(i as int, p as int);
    lemma_html_tag_at(s, w);
    if comment_opens(s, w + 1) {
        lemma_hcomment_close(s, w + 4);
        let j = hcomment_close(s, w + 4);
        assert(p >= w + 4);
        assert(comment_opens(sub, (w - i) as nat + 1)) by {
            assert(sub[(w - i) as int + 1] == s[w as int + 1]);
            assert(sub[(w - i) as int + 2] == s[w as int + 2]);
            assert(sub[(w - i) as int + 3] == s[w as int + 3]);
        }
        lemma_hcomment_close_shift(s, i, p, w + 4);
        if j < s.len() {
            assert(sub.subrange((w - i) as int + 4, (j - i) as int) =~= s.subrange(
                w as int + 4,
                j as int,
            ));
        } else {
            assert(sub.subrange((w - i) as int + 4, (p - i) as int) =~= s.subrange(
                w as int + 4,
                p as int,
            ));
        }
    } else if doctype_opens(s, w + 1) {
        crate::text::lemma_find_at(s, w + 1, '>');
        let j = find_at(s, w + 1, '>');
        assert(j >= w + 9) by {
            reveal_strlit("!doctype");
            if j < w + 9 {
                // the found `>` would lie inside the doctype keyword
                let dsub = s.subrange(w as int + 1, w as int + 9);
                assert(lower(dsub)[j - (w + 1)] == lower_char(s[j as int]));
                assert(lower_char('>') == '>');
            }
        }
        assert(p >= w + 9);
        assert(doctype_opens(sub, (w - i) as nat + 1)) by {
            assert(sub.subrange((w - i) as int + 1, (w - i) as int + 9) =~= s.subrange(
                w as int + 1,
                w as int + 9,
            ));
        }
        assert(!comment_opens(sub, (w - i) as nat + 1)) by {
            if comment_opens(sub, (w - i) as nat + 1) {
                assert(s[w as int + 1] == sub[(w - i) as int + 1]);
                assert(s[w as int + 2] == sub[(w - i) as int + 2]);
                assert(s[w as int + 3] == sub[(w - i) as int + 3]);
            }
        }
        crate::text::lemma_find_at_shift(s, i, p, w + 1, '>');
        if j < s.len() {
            assert(sub.subrange((w - i) as int + 1, (j - i) as int) =~= s.subrange(
                w as int + 1,
                j as int,
            ));
        } else {
            assert(sub.subrange((w - i) as int + 1, (p - i) as int) =~= s.subrange(
                w as int + 1,
                p as int,
            ));
        }
    } else {
        let is_end = w + 1 < s.len() && s[w as int + 1] == '/';
        let nstart = if is_end {
            w + 2
        } else {
            w + 1
        };
        crate::text::lemma_name_end(s, nstart);
        let e = name_end(s, nstart);
        assert(e != nstart);
        assert(e > nstart);
        assert(p >= e) by {
            if is_end {
                crate::text::lemma_find_at(s, e, '>');
            } else {
                lemma_attrs_scan(s, e);
            }
        }
        assert(!comment_opens(sub, (w - i) as nat + 1)) by {
            if comment_opens(sub, (w - i) as nat + 1) {
                assert(s[w as int + 1] == sub[(w - i) as int + 1]);
                assert(s[w as int + 2] == sub[(w - i) as int + 2]);
                assert(s[w as int + 3] == sub[(w - i) as int + 3]);
            }
        }
        assert(!doctype_opens(sub, (w - i) as nat + 1)) by {
            if doctype_opens(sub, (w - i) as nat + 1) {
                assert(sub.subrange((w - i) as int + 1, (w - i) as int + 9) =~= s.subrange(
                    w as int + 1,
                    w as int + 9,
                ));
            }
        }
        if is_end {
            assert(w + 1 < p);
            assert(sub[(w - i) as int + 1] == s[w as int + 1]);
        } else {
            if w + 1 < p && w + 1 < s.len() {
                assert(sub[(w - i) as int + 1] == s[w as int + 1]);
            }
        }
        crate::text::lemma_name_end_shift(s, i, p, nstart);
        assert(sub.subrange(((nstart - i)) as int, (e - i) as int) =~= s.subrange(
            nstart as int,
            e as int,
        ));
        if is_end {
            crate::text::lemma_find_at(s, e, '>');
            crate::text::lemma_find_at_shift(s, i, p, e, '>');
            let j = find_at(s, e, '>');
            if j < s.len() {
                assert(p == j + 1);
            }
        } else {
            lemma_attrs_scan(s, e);
            lemma_attrs_scan_shift(s, i, p, e);
        }
    }
}

/// The sequence of all tokens from position `i` to the end of the stream.
pub open spec fn html_tokens_from(s: Seq<char>, i: nat) -> Seq<HtmlTok>
    decreases s.len() - i,
    when i <= s.len()
    via html_tokens_from_dec
{
    match html_token_at(s, i) {
        (None, _) => Seq::empty(),
        (Some(t), p) => seq![t] + html_tokens_from(s, p),
    }
}

#[via_fn]
proof fn html_tokens_from_dec(s: Seq<char>, i: nat) {
    lemma_html_token_at(s, i);
}

/// The token stream of a whole input.
pub open spec fn html_tokens(s: Seq<char>) -> Seq<HtmlTok> {
    html_tokens_from(s, 0)
}

// ---------------------------------------------------------------------------
// The executable tokenizer.
// ---------------------------------------------------------------------------

/// Does the unquoted attribute value continue at `c`?
fn uq_continues(c: char) -> (r: bool)
    ensures
        r == !(is_ws(c) || c == '>' || c == '/'),
{
    !(ws_char(c) || c == '>' || c == '/')
}

/// A pull-based HTML tokenizer positioned inside a borrowed input string.
pub struct HtmlTokenizer<'a> {
    input: &'a str,
    position: usize,
}

impl<'a> HtmlTokenizer<'a> {
    /// The input being tokenized.
    pub closed spec fn src(&self) -> Seq<char> {
        self.input@
    }

    /// The current position, in characters.
    pub closed spec fn pos(&self) -> nat {
        self.position as nat
    }

    pub closed spec fn wf(&self) -> bool {
        self.position <= self.input@.len()
    }

    /// What well-formedness guarantees: the position stays within the
    /// input.
    pub proof fn lemma_wf(&self)
        requires
            self.wf(),
        ensures
            self.pos() <= self.src().len(),
    {
    }

    pub fn new(input: &'a str) -> (t: Self)
        ensures
            t.wf(),
            t.src() == input@,
            t.pos() == 0,
    {
        Self { input, position: 0 }
    }

    fn current_char(&self) -> (c: Option<char>)
        requires
            self.wf(),
        ensures
            match c {
                Some(ch) => self.pos() < self.src().len() && ch == self.src()[self.pos() as int],
                None => self.pos() == self.src().len(),
            },
    {
        if self.position < self.input.unicode_len() {
            Some(self.input.get_char(self.position))
        } else {
            None
        }
    }

    fn advance(&mut self)
        requires
            old(self).wf(),
        ensures
            final(self).wf(),
            final(self).src() == old(self).src(),
            final(self).pos() == if old(self).pos() < old(self).src().len() {
                old(self).pos() + 1
            } else {
                old(self).pos()
            },
    {
        if self.position < self.input.unicode_len() {
            self.position = self.position + 1;
        }
    }

    fn skip_whitespace(&mut self)
        requires
            old(self).wf(),
        ensures
            final(self).wf(),
            final(self).src() == old(self).src(),
            final(self).pos() == ws_end(old(self).src(), old(self).pos()),
    {
        self.position = scan_ws(self.input, self.position);
    }

    /// The next token, or `None` where the stream ends: exactly what
    /// [`html_token_at`] names at the current position.
    pub fn next_token(&mut self) -> (t: Option<HtmlToken<'a>>)
        requires
            old(self).wf(),
        ensures
            final(self).wf(),
            final(self).src() == old(self).src(),
            ({
                let (tok, p) = html_token_at(old(self).src(), old(self).pos());
                final(self).pos() == p && (match (t, tok) {
                    (Some(tk), Some(m)) => tk@ == m,
                    (None, None) => true,
                    _ => false,
                })
            }),
    {
        self.skip_whitespace();

        let n = self.input.unicode_len();
        if self.position >= n {
            return None;
        }

        let c = self.input.get_char(self.position);
        if c == '<' {
            self.parse_tag_or_comment()
        } else {
            proof {
                crate::text::lemma_find_at(self.src(), self.pos(), '<');
                crate::text::lemma_find_at(self.src(), self.pos() + 1, '<');
            }
            self.parse_text()
        }
    }

    /// Does `!--` stand just after the current position (which holds `<`)?
    fn peek_comment_open(&self) -> (r: bool)
        requires
            self.wf(),
        ensures
            r == comment_opens(self.src(), self.pos() + 1),
    {
        let n = self.input.unicode_len();
        self.position < n && n - self.position > 3 && self.input.get_char(self.position + 1) == '!'
            && self.input.get_char(self.position + 2) == '-' && self.input.get_char(
            self.position + 3,
        ) == '-'
    }

    /// Does `!doctype` (any case) stand just after the current position
    /// (which holds `<`)?
    fn peek_doctype_open(&self) -> (r: bool)
        requires
            self.wf(),
        ensures
            r == doctype_opens(self.src(), self.pos() + 1),
    {
        let n = self.input.unicode_len();
        if !(self.position < n && n - self.position > 8) {
            return false;
        }
        let q = self.position + 1;
        let r = to_lower_char(self.input.get_char(q)) == '!' && to_lower_char(
            self.input.get_char(q + 1),
        ) == 'd' && to_lower_char(self.input.get_char(q + 2)) == 'o' && to_lower_char(
            self.input.get_char(q + 3),
        ) == 'c' && to_lower_char(self.input.get_char(q + 4)) == 't' && to_lower_char(
            self.input.get_char(q + 5),
        ) == 'y' && to_lower_char(self.input.get_char(q + 6)) == 'p' && to_lower_char(
            self.input.get_char(q + 7),
        ) == 'e';
        proof {
            reveal_strlit("!doctype");
            let sub = self.src().subrange(q as int, q as int + 8);
            assert(lower(sub).len() == 8);
            if r {
                assert forall|k: int| 0 <= k < 8 implies lower(sub)[k] == ("!doctype"@)[k] by {
                    assert(lower(sub)[k] == lower_char(sub[k]));
                    assert(sub[k] == self.src()[q + k]);
                }
                assert(lower(sub) =~= "!doctype"@);
            } else {
                assert(lower(sub) != "!doctype"@) by {
                    if lower(sub) == "!doctype"@ {
                        assert(lower_char(self.src()[q as int]) == lower(sub)[0]);
                        assert(lower_char(self.src()[q as int + 1]) == lower(sub)[1]);
                        assert(lower_char(self.src()[q as int + 2]) == lower(sub)[2]);
                        assert(lower_char(self.src()[q as int + 3]) == lower(sub)[3]);
                        assert(lower_char(self.src()[q as int + 4]) == lower(sub)[4]);
                        assert(lower_char(self.src()[q as int + 5]) == lower(sub)[5]);
                        assert(lower_char(self.src()[q as int + 6]) == lower(sub)[6]);
                        assert(lower_char(self.src()[q as int + 7]) == lower(sub)[7]);
                    }
                }
            }
        }
        r
    }

    fn parse_tag_or_comment(&mut self) -> (t: Option<HtmlToken<'a>>)
        requires
            old(self).wf(),
            old(self).pos() < old(self).src().len(),
            old(self).src()[old(self).pos() as int] == '<',
        ensures
            final(self).wf(),
            final(self).src() == old(self).src(),
            ({
                let (tok, p) = html_tag_at(old(self).src(), old(self).pos());
                final(self).pos() == p && (match (t, tok) {
                    (Some(tk), Some(m)) => tk@ == m,
                    (None, None) => true,
                    _ => false,
                })
            }),
    {
        let ghost s = self.src();
        let ghost w = self.pos();
        let inp = self.input;
        let n = self.input.unicode_len();
        let start_pos = self.position;

        // Comment?
        if self.peek_comment_open() {
            self.advance();  // skip '<'
            return self.parse_comment();
        }

        // Doctype?
        if self.peek_doctype_open() {
            self.advance();  // skip '<'
            return self.parse_doctype();
        }

        self.advance();  // skip '<'

        // End tag?
        let is_end_tag = match self.current_char() {
            Some(ch) => ch == '/',
            None => false,
        };
        if is_end_tag {
            self.advance();  // skip '/'
        }

        // Tag name.
        let name_start = self.position;
        self.position = scan_name(inp, self.position);
        if name_start == self.position {
            // No name: the `<` opens nothing.  Reread it as text, which
            // consumes no characters and ends the stream.
            self.position = start_pos;
            return self.parse_text();
        }
        let name = inp.substring_char(name_start, self.position);

        if is_end_tag {
            // Discard everything to the closing '>' (attributes on end
            // tags are ignored).
            self.position = scan_to_char(inp, self.position, '>');
            if self.position < n {
                self.advance();  // skip '>'
            }
            return Some(HtmlToken::EndTag { name });
        }

        // Start tag: collect attributes.
        let mut attributes: Vec<(&'a str, &'a str)> = Vec::new();
        let self_closing = self.scan_attributes(&mut attributes);

        Some(HtmlToken::StartTag { name, attributes, self_closing })
    }

    /// The attribute loop of a start tag; returns the self-closing flag.
    fn scan_attributes(&mut self, attributes: &mut Vec<(&'a str, &'a str)>) -> (sc: bool)
        requires
            old(self).wf(),
        ensures
            final(self).wf(),
            final(self).src() == old(self).src(),
            ({
                let (a, sc2, p) = attrs_scan(old(self).src(), old(self).pos());
                final(self).pos() == p && sc == sc2 && attrs_view(final(attributes)@)
                    == attrs_view(old(attributes)@) + a
            }),
        decreases old(self).src().len() - old(self).pos(),
    {
        let ghost s = self.src();
        let ghost i = self.pos();
        self.skip_whitespace();
        proof {
            crate::text::lemma_ws_end(s, i);
            if self.pos() < s.len() {
                lemma_attr_at(s, self.pos());
            }
        }

        match self.current_char() {
            None => {
                proof {
                    assert(attrs_view(attributes@) =~= attrs_view(attributes@) + Seq::empty());
                }
                false
            },
            Some(ch) => {
                if ch == '>' {
                    self.advance();
                    proof {
                        assert(attrs_view(attributes@) =~= attrs_view(attributes@) + Seq::empty());
                    }
                    false
                } else if ch == '/' {
                    self.advance();
                    let at_gt = match self.current_char() {
                        Some(c2) => c2 == '>',
                        None => false,
                    };
                    if at_gt {
                        self.advance();
                        proof {
                            assert(attrs_view(attributes@) =~= attrs_view(attributes@)
                                + Seq::empty());
                        }
                        true
                    } else {
                        self.scan_attributes(attributes)
                    }
                } else {
                    match self.parse_attribute() {
                        Some(pair) => {
                            let ghost before = attributes@;
                            attributes.push(pair);
                            proof {
                                assert(attrs_view(attributes@) =~= attrs_view(before) + seq![
                                    (pair.0@, pair.1@),
                                ]);
                            }
                            let ghost mid = attributes@;
                            let sc = self.scan_attributes(attributes);
                            proof {
                                let w = ws_end(s, i);
                                let (att, p) = attr_at(s, w);
                                let (rest, sc2, e) = attrs_scan(s, p);
                                assert(attrs_view(attributes@) =~= attrs_view(before) + (seq![
                                    (pair.0@, pair.1@),
                                ] + rest));
                            }
                            sc
                        },
                        None => {
                            // An attribute cannot start here: stop, leaving
                            // the position on the offending character.
                            proof {
                                assert(attrs_view(attributes@) =~= attrs_view(attributes@)
                                    + Seq::empty());
                            }
                            false
                        },
                    }
                }
            },
        }
    }

    fn parse_attribute(&mut self) -> (r: Option<(&'a str, &'a str)>)
        requires
            old(self).wf(),
        ensures
            final(self).wf(),
            final(self).src() == old(self).src(),
            ({
                let (att, p) = attr_at(old(self).src(), old(self).pos());
                final(self).pos() == p && (match (r, att) {
                    (Some(rv), Some(m)) => rv.0@ == m.0 && rv.1@ == m.1,
                    (None, None) => true,
                    _ => false,
                })
            }),
    {
        let ghost s = self.src();
        let inp = self.input;
        let n = self.input.unicode_len();

        // Attribute name.
        let name_start = self.position;
        self.position = scan_name(inp, self.position);
        if name_start == self.position {
            return None;
        }
        let name = inp.substring_char(name_start, self.position);

        self.skip_whitespace();

        // Without `=`, the attribute's value is the empty string.
        let at_eq = match self.current_char() {
            Some(ch) => ch == '=',
            None => false,
        };
        if !at_eq {
            proof {
                reveal_strlit("");
                assert(""@ =~= Seq::<char>::empty());
            }
            return Some((name, ""));
        }
        self.advance();  // skip '='
        self.skip_whitespace();

        // Quoted or unquoted value.
        let quote = match self.current_char() {
            Some(ch) => if ch == '"' || ch == '\'' {
                Some(ch)
            } else {
                None
            },
            None => None,
        };
        match quote {
            Some(q) => {
                self.advance();  // skip the opening quote
                let value_start = self.position;
                self.position = scan_to_char(inp, self.position, q);
                if self.position < n {
                    let value = inp.substring_char(value_start, self.position);
                    self.advance();  // skip the closing quote
                    Some((name, value))
                } else {
                    // Unterminated value: everything to the end of the input.
                    let value = inp.substring_char(value_start, n);
                    Some((name, value))
                }
            },
            None => {
                let value_start = self.position;
                let ghost c = self.pos();
                while self.position < n && uq_continues(inp.get_char(self.position))
                    invariant
                        self.wf(),
                        self.src() == s,
                        value_start <= self.position <= n,
                        uq_end(s, c) == uq_end(s, self.pos()),
                    decreases n - self.position,
                {
                    self.position = self.position + 1;
                }
                let value = inp.substring_char(value_start, self.position);
                Some((name, value))
            },
        }
    }

    fn parse_comment(&mut self) -> (t: Option<HtmlToken<'a>>)
        requires
            old(self).wf(),
            old(self).pos() + 3 <= old(self).src().len(),
        ensures
            final(self).wf(),
            final(self).src() == old(self).src(),
            ({
                let cstart = old(self).pos() + 3;
                let j = hcomment_close(old(self).src(), cstart as nat);
                t matches Some(tk) && (if j < old(self).src().len() {
                    tk@ == HtmlTok::Comment(old(self).src().subrange(cstart as int, j as int))
                        && final(self).pos() == j + 3
                } else {
                    tk@ == HtmlTok::Comment(
                        old(self).src().subrange(cstart as int, old(self).src().len() as int),
                    ) && final(self).pos() == old(self).src().len()
                })
            }),
    {
        let ghost s = self.src();
        let inp = self.input;
        let n = self.input.unicode_len();
        self.position = self.position + 3;  // skip "!--"
        let content_start = self.position;

        while self.position < n - 2 && !(inp.get_char(self.position) == '-' && inp.get_char(
            self.position + 1,
        ) == '-' && inp.get_char(self.position + 2) == '>')
            invariant
                self.wf(),
                self.src() == s,
                content_start <= self.position <= n,
                hcomment_close(s, content_start as nat) == hcomment_close(s, self.pos()),
            decreases n - self.position,
        {
            self.position = self.position + 1;
        }

        if self.position < n - 2 {
            // Found "-->".
            proof {
                assert(hcomment_close(s, self.pos()) == self.pos());
            }
            let content = inp.substring_char(content_start, self.position);
            self.position = self.position + 3;  // skip "-->"
            Some(HtmlToken::Comment(content))
        } else {
            // Unclosed comment: everything to the end of the input.
            proof {
                assert(hcomment_close(s, self.pos()) == s.len());
            }
            let content = inp.substring_char(content_start, n);
            self.position = n;
            Some(HtmlToken::Comment(content))
        }
    }

    fn parse_doctype(&mut self) -> (t: Option<HtmlToken<'a>>)
        requires
            old(self).wf(),
        ensures
            final(self).wf(),
            final(self).src() == old(self).src(),
            ({
                let j = find_at(old(self).src(), old(self).pos(), '>');
                t matches Some(tk) && (if j < old(self).src().len() {
                    tk@ == HtmlTok::Doctype(
                        old(self).src().subrange(old(self).pos() as int, j as int),
                    ) && final(self).pos() == j + 1
                } else {
                    tk@ == HtmlTok::Doctype(
                        old(self).src().subrange(
                            old(self).pos() as int,
                            old(self).src().len() as int,
                        ),
                    ) && final(self).pos() == old(self).src().len()
                })
            }),
    {
        let inp = self.input;
        let n = self.input.unicode_len();
        let start = self.position;
        self.position = scan_to_char(inp, self.position, '>');
        if self.position < n {
            let content = inp.substring_char(start, self.position);
            self.advance();  // skip '>'
            Some(HtmlToken::Doctype(content))
        } else {
            let content = inp.substring_char(start, n);
            Some(HtmlToken::Doctype(content))
        }
    }

    fn parse_text(&mut self) -> (t: Option<HtmlToken<'a>>)
        requires
            old(self).wf(),
        ensures
            final(self).wf(),
            final(self).src() == old(self).src(),
            ({
                let e = find_at(old(self).src(), old(self).pos(), '<');
                if e == old(self).pos() {
                    t is None && final(self).pos() == old(self).pos()
                } else {
                    t matches Some(tk) && tk@ == HtmlTok::Text(
                        old(self).src().subrange(old(self).pos() as int, e as int),
                    ) && final(self).pos() == e
                }
            }),
    {
        let inp = self.input;
        let start = self.position;
        self.position = scan_to_char(inp, self.position, '<');
        if start == self.position {
            return None;
        }
        let text = inp.substring_char(start, self.position);
        Some(HtmlToken::Text(text))
    }
}

} // verus!
