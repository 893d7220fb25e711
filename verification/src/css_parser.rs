//! CSS parser: recursive descent over the CSS token stream, building an
//! ordered list of style rules.
//!
//! The meaning of the parser is given by spec functions over the token
//! sequence of the input ([`css_parse_s`], [`parse_rule_s`], ...);
//! [`CssParser::parse`] is proved to return exactly those rules.  The
//! parser never fails: a span in which no rule can be recognized is
//! skipped one token at a time until parsing can resynchronize.

use vstd::prelude::*;
use vstd::string::StringExecFns;
use vstd::string::StrSliceExecFns;

use crate::css_tokenizer::css_token_at;
use crate::css_tokenizer::css_tokens;
use crate::css_tokenizer::css_tokens_from;
use crate::css_tokenizer::lemma_css_token_at;
use crate::css_tokenizer::CssTok;
use crate::css_tokenizer::CssToken;
use crate::css_tokenizer::CssTokenizer;
use crate::strmap::StrMap;
use crate::text::trim;
use crate::text::trim_str;

verus! {

/// A selector: a simple selector, or a binary combinator over two owned
/// subselectors.  Combinators associate to the left as they are read.
#[derive(Debug)]
pub enum Selector {
    Type(String),
    Class(String),
    Id(String),
    Universal,
    Descendant(Box<Selector>, Box<Selector>),
    Child(Box<Selector>, Box<Selector>),
    Adjacent(Box<Selector>, Box<Selector>),
    GeneralSibling(Box<Selector>, Box<Selector>),
}

/// One style rule: one or more selectors (the rule applies to their
/// union) and a declaration map (last occurrence of a property wins).
#[derive(Debug)]
pub struct Rule {
    pub selectors: Vec<Selector>,
    pub declarations: StrMap,
}

/// The mathematical shape of a selector.
pub enum SelectorModel {
    Type(Seq<char>),
    Class(Seq<char>),
    Id(Seq<char>),
    Universal,
    Descendant(Box<SelectorModel>, Box<SelectorModel>),
    Child(Box<SelectorModel>, Box<SelectorModel>),
    Adjacent(Box<SelectorModel>, Box<SelectorModel>),
    GeneralSibling(Box<SelectorModel>, Box<SelectorModel>),
}

/// The mathematical shape of a rule.
pub struct RuleModel {
    pub selectors: Seq<SelectorModel>,
    pub declarations: Map<Seq<char>, Seq<char>>,
}

pub open spec fn selector_model(s: Selector) -> SelectorModel
    decreases s,
{
    match s {
        Selector::Type(n) => SelectorModel::Type(n@),
        Selector::Class(n) => SelectorModel::Class(n@),
        Selector::Id(n) => SelectorModel::Id(n@),
        Selector::Universal => SelectorModel::Universal,
        Selector::Descendant(l, r) => SelectorModel::Descendant(
            Box::new(selector_model(*l)),
            Box::new(selector_model(*r)),
        ),
        Selector::Child(l, r) => SelectorModel::Child(
            Box::new(selector_model(*l)),
            Box::new(selector_model(*r)),
        ),
        Selector::Adjacent(l, r) => SelectorModel::Adjacent(
            Box::new(selector_model(*l)),
            Box::new(selector_model(*r)),
        ),
        Selector::GeneralSibling(l, r) => SelectorModel::GeneralSibling(
            Box::new(selector_model(*l)),
            Box::new(selector_model(*r)),
        ),
    }
}

pub open spec fn selector_models(ss: Seq<Selector>) -> Seq<SelectorModel>
    decreases ss,
{
    if ss.len() == 0 {
        Seq::empty()
    } else {
        selector_models(ss.drop_last()).push(selector_model(ss.last()))
    }
}

pub open spec fn rule_model(r: Rule) -> RuleModel {
    RuleModel { selectors: selector_models(r.selectors@), declarations: r.declarations@ }
}

pub open spec fn rule_models(rs: Seq<Rule>) -> Seq<RuleModel>
    decreases rs.len(),
{
    if rs.len() == 0 {
        Seq::empty()
    } else {
        rule_models(rs.drop_last()).push(rule_model(rs.last()))
    }
}

impl View for Selector {
    type V = SelectorModel;

    open spec fn view(&self) -> SelectorModel {
        selector_model(*self)
    }
}

impl View for Rule {
    type V = RuleModel;

    open spec fn view(&self) -> RuleModel {
        rule_model(*self)
    }
}

// ---------------------------------------------------------------------------
// Spec-level parsing, over the token sequence.
// ---------------------------------------------------------------------------

/// First index at or after `i` whose token is neither whitespace nor a
/// comment.
pub open spec fn skip_ws_idx(toks: Seq<CssTok>, i: nat) -> nat
    decreases toks.len() - i,
{
    if i < toks.len() && (toks[i as int] is Whitespace || toks[i as int] is Comment) {
        skip_ws_idx(toks, i + 1)
    } else {
        i
    }
}

/// The textual form in which a token reappears inside a declaration
/// value.  Structural tokens have no textual form.
pub open spec fn tok_text(t: CssTok) -> Seq<char> {
    match t {
        CssTok::Ident(s) => s,
        CssTok::QuotedString(s) => seq!['"'] + s + seq!['"'],
        CssTok::Number(s) => s,
        CssTok::Dimension { value, unit } => value + unit,
        CssTok::Percentage(s) => s + seq!['%'],
        CssTok::Hash(h) => seq!['#'] + h,
        CssTok::Delim(c) => seq![c],
        CssTok::Url(u) => "url("@ + u + seq![')'],
        _ => Seq::empty(),
    }
}

/// One simple selector at `i`: a type, id, class or universal selector.
/// `None` with an unchanged index means nothing was recognized; the `.`
/// of a failed class selector is still consumed.
pub open spec fn parse_simple_selector_s(toks: Seq<CssTok>, i: nat) -> (
    Option<SelectorModel>,
    nat,
) {
    if i >= toks.len() {
        (None, i)
    } else {
        match toks[i as int] {
            CssTok::Ident(n) => (Some(SelectorModel::Type(n)), i + 1),
            CssTok::Hash(h) => (Some(SelectorModel::Id(h)), i + 1),
            CssTok::Delim(c) => {
                if c == '.' {
                    if i + 1 < toks.len() {
                        match toks[i as int + 1] {
                            CssTok::Ident(n) => (Some(SelectorModel::Class(n)), i + 2),
                            _ => (None, i + 1),
                        }
                    } else {
                        (None, i + 1)
                    }
                } else if c == '*' {
                    (Some(SelectorModel::Universal), i + 1)
                } else {
                    (None, i)
                }
            },
            _ => (None, i),
        }
    }
}

proof fn lemma_parse_simple_selector_s(toks: Seq<CssTok>, i: nat)
    requires
        i <= toks.len(),
    ensures
        i <= parse_simple_selector_s(toks, i).1 <= toks.len(),
        parse_simple_selector_s(toks, i).0 is Some ==> i < parse_simple_selector_s(toks, i).1,
{
}

proof fn lemma_skip_ws_idx(toks: Seq<CssTok>, i: nat)
    requires
        i <= toks.len(),
    ensures
        i <= skip_ws_idx(toks, i) <= toks.len(),
        skip_ws_idx(toks, skip_ws_idx(toks, i)) == skip_ws_idx(toks, i),
    decreases toks.len() - i,
{
    if i < toks.len() && (toks[i as int] is Whitespace || toks[i as int] is Comment) {
        lemma_skip_ws_idx(toks, i + 1);
    }
}

/// The combinator loop: having parsed `acc`, keep combining it with
/// further simple selectors — `>`, `+` and `~` name their combinator, and
/// a bare simple selector means descendancy — until a `{`, a comma, the
/// end of the stream, or a token that starts no simple selector.
pub open spec fn sel_rest_s(toks: Seq<CssTok>, i: nat, acc: SelectorModel) -> (SelectorModel, nat)
    decreases toks.len() - i,
    when i <= toks.len()
    via sel_rest_s_dec
{
    let j = skip_ws_idx(toks, i);
    if j >= toks.len() || toks[j as int] is LeftBrace || toks[j as int] is Comma {
        (acc, j)
    } else if toks[j as int] == CssTok::Delim('>') {
        let k = skip_ws_idx(toks, j + 1);
        match parse_simple_selector_s(toks, k) {
            (Some(right), k2) => sel_rest_s(
                toks,
                k2,
                SelectorModel::Child(Box::new(acc), Box::new(right)),
            ),
            (None, k2) => sel_rest_s(toks, k2, acc),
        }
    } else if toks[j as int] == CssTok::Delim('+') {
        let k = skip_ws_idx(toks, j + 1);
        match parse_simple_selector_s(toks, k) {
            (Some(right), k2) => sel_rest_s(
                toks,
                k2,
                SelectorModel::Adjacent(Box::new(acc), Box::new(right)),
            ),
            (None, k2) => sel_rest_s(toks, k2, acc),
        }
    } else if toks[j as int] == CssTok::Delim('~') {
        let k = skip_ws_idx(toks, j + 1);
        match parse_simple_selector_s(toks, k) {
            (Some(right), k2) => sel_rest_s(
                toks,
                k2,
                SelectorModel::GeneralSibling(Box::new(acc), Box::new(right)),
            ),
            (None, k2) => sel_rest_s(toks, k2, acc),
        }
    } else {
        match parse_simple_selector_s(toks, j) {
            (Some(right), k2) => sel_rest_s(
                toks,
                k2,
                SelectorModel::Descendant(Box::new(acc), Box::new(right)),
            ),
            (None, k2) => (acc, k2),
        }
    }
}

#[via_fn]
proof fn sel_rest_s_dec(toks: Seq<CssTok>, i: nat, acc: SelectorModel) {
    lemma_skip_ws_idx(toks, i);
    let j = skip_ws_idx(toks, i);
    if j < toks.len() {
        lemma_skip_ws_idx(toks, j + 1);
        let k = skip_ws_idx(toks, j + 1);
        lemma_parse_simple_selector_s(toks, k);
        lemma_parse_simple_selector_s(toks, j);
    }
}

proof fn lemma_sel_rest_s(toks: Seq<CssTok>, i: nat, acc: SelectorModel)
    requires
        i <= toks.len(),
    ensures
        i <= sel_rest_s(toks, i, acc).1 <= toks.len(),
    decreases toks.len() - i,
{
    lemma_skip_ws_idx(toks, i);
    let j = skip_ws_idx(toks, i);
    if !(j >= toks.len() || toks[j as int] is LeftBrace || toks[j as int] is Comma) {
        if toks[j as int] == CssTok::Delim('>') || toks[j as int] == CssTok::Delim('+')
            || toks[j as int] == CssTok::Delim('~') {
            lemma_skip_ws_idx(toks, j + 1);
            let k = skip_ws_idx(toks, j + 1);
            lemma_parse_simple_selector_s(toks, k);
            let (r, k2) = parse_simple_selector_s(toks, k);
            match r {
                Some(right) => {
                    if toks[j as int] == CssTok::Delim('>') {
                        lemma_sel_rest_s(
                            toks,
                            k2,
                            SelectorModel::Child(Box::new(acc), Box::new(right)),
                        );
                    } else if toks[j as int] == CssTok::Delim('+') {
                        lemma_sel_rest_s(
                            toks,
                            k2,
                            SelectorModel::Adjacent(Box::new(acc), Box::new(right)),
                        );
                    } else {
                        lemma_sel_rest_s(
                            toks,
                            k2,
                            SelectorModel::GeneralSibling(Box::new(acc), Box::new(right)),
                        );
                    }
                },
                None => {
                    lemma_sel_rest_s(toks, k2, acc);
                },
            }
        } else {
            lemma_parse_simple_selector_s(toks, j);
            let (r, k2) = parse_simple_selector_s(toks, j);
            match r {
                Some(right) => {
                    lemma_sel_rest_s(
                        toks,
                        k2,
                        SelectorModel::Descendant(Box::new(acc), Box::new(right)),
                    );
                },
                None => {},
            }
        }
    }
}

/// One selector at `i`: a simple selector followed by the combinator
/// loop.
pub open spec fn parse_selector_s(toks: Seq<CssTok>, i: nat) -> (Option<SelectorModel>, nat) {
    let j = skip_ws_idx(toks, i);
    match parse_simple_selector_s(toks, j) {
        (None, k) => (None, k),
        (Some(first), k) => {
            let (sm, e) = sel_rest_s(toks, k, first);
            (Some(sm), e)
        },
    }
}

proof fn lemma_parse_selector_s(toks: Seq<CssTok>, i: nat)
    requires
        i <= toks.len(),
    ensures
        i <= parse_selector_s(toks, i).1 <= toks.len(),
        parse_selector_s(toks, i).0 is Some ==> i < parse_selector_s(toks, i).1,
    decreases toks.len() - i,
{
    lemma_skip_ws_idx(toks, i);
    let j = skip_ws_idx(toks, i);
    lemma_parse_simple_selector_s(toks, j);
    let (first, k) = parse_simple_selector_s(toks, j);
    match first {
        Some(f) => {
            lemma_sel_rest_s(toks, k, f);
        },
        None => {},
    }
}

/// The comma-separated selector list at `i`; empty means no rule starts
/// here.
pub open spec fn parse_selectors_s(toks: Seq<CssTok>, i: nat) -> (Seq<SelectorModel>, nat)
    decreases toks.len() - i,
    when i <= toks.len()
    via parse_selectors_s_dec
{
    match parse_selector_s(toks, i) {
        (None, j) => (Seq::empty(), j),
        (Some(s), j) => {
            let j2 = skip_ws_idx(toks, j);
            if j2 < toks.len() && toks[j2 as int] is Comma {
                let (rest, e) = parse_selectors_s(toks, j2 + 1);
                (seq![s] + rest, e)
            } else {
                (seq![s], j2)
            }
        },
    }
}

#[via_fn]
proof fn parse_selectors_s_dec(toks: Seq<CssTok>, i: nat) {
    lemma_parse_selector_s(toks, i);
    let (s, j) = parse_selector_s(toks, i);
    if s is Some {
        lemma_skip_ws_idx(toks, j);
    }
}

proof fn lemma_parse_selectors_s(toks: Seq<CssTok>, i: nat)
    requires
        i <= toks.len(),
    ensures
        i <= parse_selectors_s(toks, i).1 <= toks.len(),
        parse_selectors_s(toks, i).0.len() > 0 ==> i < parse_selectors_s(toks, i).1,
    decreases toks.len() - i,
{
    lemma_parse_selector_s(toks, i);
    let (s, j) = parse_selector_s(toks, i);
    if s is Some {
        lemma_skip_ws_idx(toks, j);
        let j2 = skip_ws_idx(toks, j);
        if j2 < toks.len() && toks[j2 as int] is Comma {
            lemma_parse_selectors_s(toks, j2 + 1);
        }
    }
}

/// The declaration-value loop: collect the textual forms of the tokens up
/// to `;`, `}` or the end of the stream, collapsing each whitespace run
/// inside the value to a single space.  `acc` is the text so far, `any`
/// whether any non-whitespace token has been seen.
pub open spec fn decl_value_s(toks: Seq<CssTok>, i: nat, acc: Seq<char>, any: bool) -> (
    Seq<char>,
    bool,
    nat,
)
    decreases toks.len() - i,
{
    if i >= toks.len() || toks[i as int] is Semicolon || toks[i as int] is RightBrace {
        (acc, any, i)
    } else if toks[i as int] is Whitespace {
        decl_value_s(
            toks,
            i + 1,
            if any {
                acc + seq![' ']
            } else {
                acc
            },
            any,
        )
    } else {
        decl_value_s(toks, i + 1, acc + tok_text(toks[i as int]), true)
    }
}

proof fn lemma_decl_value_s(toks: Seq<CssTok>, i: nat, acc: Seq<char>, any: bool)
    requires
        i <= toks.len(),
    ensures
        i <= decl_value_s(toks, i, acc, any).2 <= toks.len(),
    decreases toks.len() - i,
{
    if !(i >= toks.len() || toks[i as int] is Semicolon || toks[i as int] is RightBrace) {
        if toks[i as int] is Whitespace {
            lemma_decl_value_s(
                toks,
                i + 1,
                if any {
                    acc + seq![' ']
                } else {
                    acc
                },
                any,
            );
        } else {
            lemma_decl_value_s(toks, i + 1, acc + tok_text(toks[i as int]), true);
        }
    }
}

/// One declaration at `i`: a property identifier, a colon, and a value;
/// `None` if any of the three is missing (the tokens looked at are still
/// consumed).
pub open spec fn parse_declaration_s(toks: Seq<CssTok>, i: nat) -> (
    Option<(Seq<char>, Seq<char>)>,
    nat,
) {
    if i < toks.len() && toks[i as int] is Ident {
        let prop = toks[i as int]->Ident_0;
        let j = skip_ws_idx(toks, i + 1);
        if j < toks.len() && toks[j as int] is Colon {
            let k = skip_ws_idx(toks, j + 1);
            let (v, any, e) = decl_value_s(toks, k, Seq::empty(), false);
            if any {
                (Some((prop, trim(v))), e)
            } else {
                (None, e)
            }
        } else {
            (None, j)
        }
    } else {
        (None, i)
    }
}

proof fn lemma_parse_declaration_s(toks: Seq<CssTok>, i: nat)
    requires
        i <= toks.len(),
    ensures
        i <= parse_declaration_s(toks, i).1 <= toks.len(),
        i < toks.len() && toks[i as int] is Ident ==> i < parse_declaration_s(toks, i).1,
{
    if i < toks.len() && toks[i as int] is Ident {
        lemma_skip_ws_idx(toks, i + 1);
        let j = skip_ws_idx(toks, i + 1);
        if j < toks.len() && toks[j as int] is Colon {
            lemma_skip_ws_idx(toks, j + 1);
            let k = skip_ws_idx(toks, j + 1);
            lemma_decl_value_s(toks, k, Seq::empty(), false);
        }
    }
}

/// The declaration block at `i`, up to (but not including) the closing
/// `}` or the end of the stream.  A token at which no declaration can
/// start is skipped, so that the block always makes progress.  Later
/// occurrences of a property win.
pub open spec fn parse_declarations_s(toks: Seq<CssTok>, i: nat) -> (
    Map<Seq<char>, Seq<char>>,
    nat,
)
    decreases toks.len() - i,
    when i <= toks.len()
    via parse_declarations_s_dec
{
    let j = skip_ws_idx(toks, i);
    if j >= toks.len() || toks[j as int] is RightBrace {
        (Map::empty(), j)
    } else if toks[j as int] is Ident {
        let (d, k) = parse_declaration_s(toks, j);
        let k2 = if k < toks.len() && toks[k as int] is Semicolon {
            k + 1
        } else {
            k
        };
        let kn = if j < k2 && k2 <= toks.len() {
            k2
        } else {
            j + 1
        };
        let (m, e) = parse_declarations_s(toks, kn);
        match d {
            Some(pv) => {
                if m.contains_key(pv.0) {
                    (m, e)
                } else {
                    (m.insert(pv.0, pv.1), e)
                }
            },
            None => (m, e),
        }
    } else {
        // Nothing that could start a declaration: skip one token.
        parse_declarations_s(toks, j + 1)
    }
}

#[via_fn]
proof fn parse_declarations_s_dec(toks: Seq<CssTok>, i: nat) {
    lemma_skip_ws_idx(toks, i);
}

proof fn lemma_parse_declarations_s(toks: Seq<CssTok>, i: nat)
    requires
        i <= toks.len(),
    ensures
        i <= parse_declarations_s(toks, i).1 <= toks.len(),
    decreases toks.len() - i,
{
    lemma_skip_ws_idx(toks, i);
    let j = skip_ws_idx(toks, i);
    if j < toks.len() && !(toks[j as int] is RightBrace) {
        if toks[j as int] is Ident {
            lemma_parse_declaration_s(toks, j);
            let (d, k) = parse_declaration_s(toks, j);
            let k2 = if k < toks.len() && toks[k as int] is Semicolon {
                k + 1
            } else {
                k
            };
            let kn = if j < k2 && k2 <= toks.len() {
                k2
            } else {
                j + 1
            };
            lemma_parse_declarations_s(toks, kn);
        } else {
            lemma_parse_declarations_s(toks, j + 1);
        }
    }
}

/// One rule at `i`: a non-empty selector list, `{`, the declarations, and
/// an optional `}` (a missing closing brace is tolerated).  `None` means
/// no rule could be recognized.
pub open spec fn parse_rule_s(toks: Seq<CssTok>, i: nat) -> (Option<RuleModel>, nat) {
    let (sels, j) = parse_selectors_s(toks, i);
    if sels.len() == 0 {
        (None, j)
    } else {
        let j2 = skip_ws_idx(toks, j);
        if j2 < toks.len() && toks[j2 as int] is LeftBrace {
            let (m, k) = parse_declarations_s(toks, j2 + 1);
            let k2 = if k < toks.len() && toks[k as int] is RightBrace {
                k + 1
            } else {
                k
            };
            (Some(RuleModel { selectors: sels, declarations: m }), k2)
        } else {
            (None, j2)
        }
    }
}

proof fn lemma_parse_rule_s(toks: Seq<CssTok>, i: nat)
    requires
        i <= toks.len(),
    ensures
        i <= parse_rule_s(toks, i).1 <= toks.len(),
        parse_rule_s(toks, i).0 is Some ==> i < parse_rule_s(toks, i).1,
{
    lemma_parse_selectors_s(toks, i);
    let (sels, j) = parse_selectors_s(toks, i);
    if sels.len() > 0 {
        lemma_skip_ws_idx(toks, j);
        let j2 = skip_ws_idx(toks, j);
        if j2 < toks.len() && toks[j2 as int] is LeftBrace {
            lemma_parse_declarations_s(toks, j2 + 1);
        }
    }
}

/// The whole stylesheet from `i`: skip whitespace, recognize a rule, and
/// on failure skip one token and retry (resynchronization); never fails.
pub open spec fn css_parse_s(toks: Seq<CssTok>, i: nat) -> (Seq<RuleModel>, nat)
    decreases toks.len() - i,
    when i <= toks.len()
    via css_parse_s_dec
{
    if i >= toks.len() {
        (Seq::empty(), i)
    } else {
        let j = skip_ws_idx(toks, i);
        let (rule, k) = parse_rule_s(toks, j);
        match rule {
            Some(r) => {
                let kn = if i < k && k <= toks.len() {
                    k
                } else {
                    i + 1
                };
                let (rest, e) = css_parse_s(toks, kn);
                (seq![r] + rest, e)
            },
            None => {
                let ka = if k < toks.len() {
                    k + 1
                } else {
                    k
                };
                let kn = if i < ka && ka <= toks.len() {
                    ka
                } else {
                    i + 1
                };
                css_parse_s(toks, kn)
            },
        }
    }
}

#[via_fn]
proof fn css_parse_s_dec(toks: Seq<CssTok>, i: nat) {
}

proof fn lemma_selector_models_push(before: Seq<Selector>, s: Selector)
    ensures
        selector_models(before.push(s)) == selector_models(before).push(selector_model(s)),
{
    assert(before.push(s).drop_last() =~= before);
    assert(before.push(s).last() == s);
}

proof fn lemma_rule_models_push(before: Seq<Rule>, r: Rule)
    ensures
        rule_models(before.push(r)) == rule_models(before).push(rule_model(r)),
{
    assert(before.push(r).drop_last() =~= before);
    assert(before.push(r).last() == r);
}

// ---------------------------------------------------------------------------
// The executable parser.
// ---------------------------------------------------------------------------

/// Relies on char::to_string: the string holding exactly this character.
#[verifier::external_body]
fn char_to_string(c: char) -> (r: String)
    ensures
        r@ == seq![c],
{
    c.to_string()
}

/// A pull-based CSS parser: a tokenizer plus one token of lookahead.
pub struct CssParser<'a> {
    tokenizer: CssTokenizer<'a>,
    current_token: Option<CssToken<'a>>,
    index: Ghost<nat>,
}

impl<'a> CssParser<'a> {
    /// The input being parsed.
    pub closed spec fn src(&self) -> Seq<char> {
        self.tokenizer.src()
    }

    /// The token stream of the input.
    pub closed spec fn toks(&self) -> Seq<CssTok> {
        css_tokens(self.tokenizer.src())
    }

    /// The index of the lookahead token within the stream.
    pub closed spec fn idx(&self) -> nat {
        self.index@
    }

    /// The lookahead token.
    pub closed spec fn cur(&self) -> Option<CssTok> {
        match self.current_token {
            Some(t) => Some(t@),
            None => None,
        }
    }

    pub closed spec fn wf(&self) -> bool {
        &&& self.tokenizer.wf()
        &&& self.idx() <= self.toks().len()
        &&& match self.current_token {
            Some(t) => self.idx() < self.toks().len() && t@ == self.toks()[self.idx() as int]
                && css_tokens_from(self.src(), self.tokenizer.pos()) == self.toks().skip(
                self.idx() as int + 1,
            ),
            None => self.idx() == self.toks().len() && css_token_at(
                self.src(),
                self.tokenizer.pos(),
            ) is None,
        }
    }

    /// A parser over `input`, primed with one token of lookahead.
    pub fn new(input: &'a str) -> (p: Self)
        ensures
            p.wf(),
            p.src() == input@,
            p.toks() == css_tokens(input@),
            p.idx() == 0,
    {
        let mut tokenizer = CssTokenizer::new(input);
        let current_token = tokenizer.next_token();
        proof {
            lemma_css_token_at(input@, 0);
            match css_token_at(input@, 0) {
                Some((t0, p0)) => {
                    assert(css_tokens(input@) == seq![t0] + css_tokens_from(input@, p0));
                    assert((seq![t0] + css_tokens_from(input@, p0)).skip(1) =~= css_tokens_from(
                        input@,
                        p0,
                    ));
                },
                None => {},
            }
        }
        Self { tokenizer, current_token, index: Ghost(0) }
    }

    /// Replace the lookahead with the next token.
    fn advance(&mut self)
        requires
            old(self).wf(),
        ensures
            final(self).wf(),
            final(self).src() == old(self).src(),
            final(self).toks() == old(self).toks(),
            old(self).cur() is Some ==> final(self).idx() == old(self).idx() + 1,
            old(self).cur() is None ==> final(self).idx() == old(self).idx()
                && final(self).cur() is None,
    {
        let ghost s = self.src();
        let ghost toks = self.toks();
        let ghost i = self.idx();
        let had = self.current_token.is_some();
        let next = self.tokenizer.next_token();
        self.current_token = next;
        proof {
            let p0 = old(self).tokenizer.pos();
            old(self).tokenizer.lemma_wf();
            lemma_css_token_at(s, p0);
            if old(self).current_token is Some {
                assert(css_tokens_from(s, p0) == toks.skip(i as int + 1));
                match css_token_at(s, p0) {
                    Some((t, p2)) => {
                        assert(css_tokens_from(s, p0) == seq![t] + css_tokens_from(s, p2));
                        assert(toks.skip(i as int + 1)[0] == toks[i as int + 1]);
                        assert(toks[i as int + 1] == t);
                        assert(i + 1 < toks.len()) by {
                            assert(toks.skip(i as int + 1).len() > 0);
                        }
                        assert(css_tokens_from(s, p2) =~= toks.skip(i as int + 2)) by {
                            assert(forall|m: int|
                                0 <= m < css_tokens_from(s, p2).len() ==> css_tokens_from(s, p2)[m]
                                    == toks.skip(i as int + 1)[m + 1]);
                        }
                    },
                    None => {
                        assert(css_tokens_from(s, p0) == Seq::<CssTok>::empty());
                        assert(toks.skip(i as int + 1).len() == 0);
                        assert(i + 1 == toks.len());
                    },
                }
            }
        }
        self.index = Ghost(
            if had {
                self.index@ + 1
            } else {
                self.index@
            },
        );
    }

    /// Is the lookahead whitespace or a comment?
    fn at_trivia(&self) -> (r: bool)
        ensures
            r == (self.cur() matches Some(t) && (t is Whitespace || t is Comment)),
    {
        match &self.current_token {
            Some(CssToken::Whitespace) => true,
            Some(CssToken::Comment(_)) => true,
            _ => false,
        }
    }

    /// Skip whitespace and comment tokens.
    fn skip_whitespace(&mut self)
        requires
            old(self).wf(),
        ensures
            final(self).wf(),
            final(self).toks() == old(self).toks(),
            final(self).src() == old(self).src(),
            final(self).idx() == skip_ws_idx(old(self).toks(), old(self).idx()),
            old(self).idx() <= final(self).idx() <= old(self).toks().len(),
    {
        let ghost toks = self.toks();
        let ghost i0 = self.idx();
        proof {
            self.tokenizer.lemma_wf();
            lemma_skip_ws_idx(toks, i0);
        }
        while self.at_trivia()
            invariant
                self.wf(),
                self.toks() == toks,
                self.src() == old(self).src(),
                skip_ws_idx(toks, i0) == skip_ws_idx(toks, self.idx()),
            decreases toks.len() - self.idx(),
        {
            self.advance();
        }
    }

    /// One simple selector, if the lookahead starts one: exactly
    /// [`parse_simple_selector_s`].
    fn parse_simple_selector(&mut self) -> (r: Option<Selector>)
        requires
            old(self).wf(),
        ensures
            final(self).wf(),
            final(self).toks() == old(self).toks(),
            final(self).src() == old(self).src(),
            ({
                let (sm, j) = parse_simple_selector_s(old(self).toks(), old(self).idx());
                final(self).idx() == j && (match (r, sm) {
                    (Some(sel), Some(m)) => selector_model(sel) == m,
                    (None, None) => true,
                    _ => false,
                })
            }),
            old(self).idx() <= final(self).idx() <= old(self).toks().len(),
            ({
                let (sm, j) = parse_simple_selector_s(old(self).toks(), old(self).idx());
                sm is Some ==> old(self).idx() < j
            }),
    {
        proof {
            lemma_parse_simple_selector_s(self.toks(), self.idx());
        }
        match self.current_token {
            Some(CssToken::Ident(name)) => {
                let selector = Selector::Type(String::from_str(name));
                self.advance();
                Some(selector)
            },
            Some(CssToken::Hash(id)) => {
                let selector = Selector::Id(String::from_str(id));
                self.advance();
                Some(selector)
            },
            Some(CssToken::Delim(c)) => {
                if c == '.' {
                    self.advance();  // skip '.'
                    match self.current_token {
                        Some(CssToken::Ident(class)) => {
                            let selector = Selector::Class(String::from_str(class));
                            self.advance();
                            Some(selector)
                        },
                        _ => None,
                    }
                } else if c == '*' {
                    self.advance();
                    Some(Selector::Universal)
                } else {
                    None
                }
            },
            _ => None,
        }
    }

    /// One selector: a simple selector followed by the combinator loop.
    fn parse_selector(&mut self) -> (r: Option<Selector>)
        requires
            old(self).wf(),
        ensures
            final(self).wf(),
            final(self).toks() == old(self).toks(),
            final(self).src() == old(self).src(),
            ({
                let (sm, j) = parse_selector_s(old(self).toks(), old(self).idx());
                final(self).idx() == j && (match (r, sm) {
                    (Some(sel), Some(m)) => selector_model(sel) == m,
                    (None, None) => true,
                    _ => false,
                })
            }),
    {
        self.skip_whitespace();
        match self.parse_simple_selector() {
            None => None,
            Some(first) => Some(self.parse_selector_rest(first)),
        }
    }

    /// The combinator loop: exactly [`sel_rest_s`] over the selector
    /// built so far.
    fn parse_selector_rest(&mut self, acc: Selector) -> (r: Selector)
        requires
            old(self).wf(),
        ensures
            final(self).wf(),
            final(self).toks() == old(self).toks(),
            final(self).src() == old(self).src(),
            ({
                let (sm, j) = sel_rest_s(old(self).toks(), old(self).idx(), selector_model(acc));
                selector_model(r) == sm && final(self).idx() == j
            }),
        decreases old(self).toks().len() - old(self).idx(),
    {
        self.skip_whitespace();
        match self.current_token {
            None => acc,
            Some(CssToken::LeftBrace) => acc,
            Some(CssToken::Comma) => acc,
            Some(CssToken::Delim(c)) => {
                if c == '>' {
                    self.advance();  // skip '>'
                    self.skip_whitespace();
                    match self.parse_simple_selector() {
                        Some(right) => self.parse_selector_rest(
                            Selector::Child(Box::new(acc), Box::new(right)),
                        ),
                        None => self.parse_selector_rest(acc),
                    }
                } else if c == '+' {
                    self.advance();  // skip '+'
                    self.skip_whitespace();
                    match self.parse_simple_selector() {
                        Some(right) => self.parse_selector_rest(
                            Selector::Adjacent(Box::new(acc), Box::new(right)),
                        ),
                        None => self.parse_selector_rest(acc),
                    }
                } else if c == '~' {
                    self.advance();  // skip '~'
                    self.skip_whitespace();
                    match self.parse_simple_selector() {
                        Some(right) => self.parse_selector_rest(
                            Selector::GeneralSibling(Box::new(acc), Box::new(right)),
                        ),
                        None => self.parse_selector_rest(acc),
                    }
                } else {
                    // Descendant combinator (whitespace between selectors).
                    match self.parse_simple_selector() {
                        Some(right) => self.parse_selector_rest(
                            Selector::Descendant(Box::new(acc), Box::new(right)),
                        ),
                        None => acc,
                    }
                }
            },
            Some(_) => {
                // Descendant combinator (whitespace between selectors).
                match self.parse_simple_selector() {
                    Some(right) => self.parse_selector_rest(
                        Selector::Descendant(Box::new(acc), Box::new(right)),
                    ),
                    None => acc,
                }
            },
        }
    }

    /// The comma-separated selector list; `None` if no selector could be
    /// recognized.
    fn parse_selectors(&mut self) -> (r: Option<Vec<Selector>>)
        requires
            old(self).wf(),
        ensures
            final(self).wf(),
            final(self).toks() == old(self).toks(),
            final(self).src() == old(self).src(),
            ({
                let (sels, j) = parse_selectors_s(old(self).toks(), old(self).idx());
                final(self).idx() == j && (match r {
                    Some(v) => v@.len() > 0 && selector_models(v@) == sels,
                    None => sels.len() == 0,
                })
            }),
    {
        let mut selectors: Vec<Selector> = Vec::new();
        self.collect_selectors(&mut selectors);
        if selectors.len() == 0 {
            proof {
                assert(selector_models(selectors@).len() == 0);
            }
            None
        } else {
            proof {
                if selector_models(selectors@).len() == 0 {
                    assert(selectors@.len() == 0);
                }
            }
            Some(selectors)
        }
    }

    /// Collect comma-separated selectors into `selectors`.
    fn collect_selectors(&mut self, selectors: &mut Vec<Selector>)
        requires
            old(self).wf(),
        ensures
            final(self).wf(),
            final(self).toks() == old(self).toks(),
            final(self).src() == old(self).src(),
            ({
                let (sels, j) = parse_selectors_s(old(self).toks(), old(self).idx());
                selector_models(final(selectors)@) == selector_models(old(selectors)@) + sels
                    && final(self).idx() == j
            }),
        decreases old(self).toks().len() - old(self).idx(),
    {
        let ghost toks = self.toks();
        let ghost i = self.idx();
        proof {
            lemma_parse_selector_s(toks, i);
        }
        match self.parse_selector() {
            None => {
                proof {
                    assert(selector_models(selectors@) + Seq::<SelectorModel>::empty()
                        =~= selector_models(selectors@));
                }
            },
            Some(sel) => {
                let ghost before = selectors@;
                let ghost sm = selector_model(sel);
                selectors.push(sel);
                proof {
                    lemma_selector_models_push(before, selectors@.last());
                }
                self.skip_whitespace();
                if matches!(self.current_token, Some(CssToken::Comma)) {
                    self.advance();  // skip ','
                    self.collect_selectors(selectors);
                    proof {
                        let j = parse_selector_s(toks, i).1;
                        let j2 = skip_ws_idx(toks, j);
                        let (rest, e) = parse_selectors_s(toks, j2 + 1);
                        assert(selector_models(before) + (seq![sm] + rest) =~= selector_models(
                            before,
                        ).push(sm) + rest);
                    }
                } else {
                    proof {
                        assert(selector_models(before) + seq![sm] =~= selector_models(
                            before,
                        ).push(sm));
                    }
                }
            },
        }
    }

    /// Is the lookahead something that ends a declaration value?
    fn at_value_end(&self) -> (r: bool)
        ensures
            r == (match self.cur() {
                None => true,
                Some(t) => t is Semicolon || t is RightBrace,
            }),
    {
        match &self.current_token {
            None => true,
            Some(CssToken::Semicolon) => true,
            Some(CssToken::RightBrace) => true,
            _ => false,
        }
    }

    /// One declaration: a property identifier, `:`, and the value text;
    /// exactly [`parse_declaration_s`].
    fn parse_declaration(&mut self) -> (r: Option<(String, String)>)
        requires
            old(self).wf(),
        ensures
            final(self).wf(),
            final(self).toks() == old(self).toks(),
            final(self).src() == old(self).src(),
            ({
                let (d, e) = parse_declaration_s(old(self).toks(), old(self).idx());
                final(self).idx() == e && (match (r, d) {
                    (Some(pv), Some(m)) => pv.0@ == m.0 && pv.1@ == m.1,
                    (None, None) => true,
                    _ => false,
                })
            }),
    {
        let ghost toks = self.toks();

        // Property name.
        let property = match self.current_token {
            Some(CssToken::Ident(name)) => {
                let prop = String::from_str(name);
                self.advance();
                prop
            },
            _ => {
                return None;
            },
        };

        self.skip_whitespace();

        // Expect ':'.
        if !matches!(self.current_token, Some(CssToken::Colon)) {
            return None;
        }
        self.advance();  // skip ':'
        self.skip_whitespace();

        // Value text: tokens reproduced verbatim, whitespace runs
        // collapsed to one space.
        let ghost k0 = self.idx();
        let mut value = String::new();
        let mut any = false;
        while !self.at_value_end()
            invariant
                self.wf(),
                self.toks() == toks,
                self.src() == old(self).src(),
                decl_value_s(toks, k0, Seq::empty(), false) == decl_value_s(
                    toks,
                    self.idx(),
                    value@,
                    any,
                ),
            decreases toks.len() - self.idx(),
        {
            match self.current_token {
                Some(CssToken::Whitespace) => {
                    if any {
                        value.append(" ");
                        proof {
                            reveal_strlit(" ");
                            assert(" "@ =~= seq![' ']);
                        }
                    }
                    self.advance();
                },
                Some(t) => {
                    let piece = self.token_to_string(&t);
                    value.append(piece.as_str());
                    any = true;
                    self.advance();
                },
                None => {
                    proof {
                        assert(false);
                    }
                },
            }
        }

        if !any {
            return None;
        }
        let trimmed = String::from_str(trim_str(value.as_str()));
        Some((property, trimmed))
    }

    /// The textual form of a token inside a declaration value: exactly
    /// [`tok_text`].
    fn token_to_string(&self, token: &CssToken<'a>) -> (r: String)
        ensures
            r@ == tok_text(token@),
    {
        match *token {
            CssToken::Ident(s) => String::from_str(s),
            CssToken::QuotedString(s) => {
                let mut out = String::from_str("\"");
                out.append(s);
                out.append("\"");
                proof {
                    reveal_strlit("\"");
                    assert(out@ =~= seq!['"'] + s@ + seq!['"']);
                }
                out
            },
            CssToken::Number(s) => String::from_str(s),
            CssToken::Dimension { value, unit } => {
                let mut out = String::from_str(value);
                out.append(unit);
                out
            },
            CssToken::Percentage(s) => {
                let mut out = String::from_str(s);
                out.append("%");
                proof {
                    reveal_strlit("%");
                    assert(out@ =~= s@ + seq!['%']);
                }
                out
            },
            CssToken::Hash(h) => {
                let mut out = String::from_str("#");
                out.append(h);
                proof {
                    reveal_strlit("#");
                    assert(out@ =~= seq!['#'] + h@);
                }
                out
            },
            CssToken::Delim(c) => char_to_string(c),
            CssToken::Url(u) => {
                let mut out = String::from_str("url(");
                out.append(u);
                out.append(")");
                proof {
                    reveal_strlit(")");
                    assert(out@ =~= "url("@ + u@ + seq![')']);
                }
                out
            },
            _ => String::new(),
        }
    }

    /// Is the lookahead something that ends a declaration block?
    fn at_block_end(&self) -> (r: bool)
        ensures
            r == (match self.cur() {
                None => true,
                Some(t) => t is RightBrace,
            }),
    {
        match &self.current_token {
            None => true,
            Some(CssToken::RightBrace) => true,
            _ => false,
        }
    }

    /// The declaration block, up to (but not including) `}` or the end of
    /// the input: exactly [`parse_declarations_s`].
    #[verifier::rlimit(60)]
    fn parse_declarations(&mut self) -> (m: StrMap)
        requires
            old(self).wf(),
        ensures
            final(self).wf(),
            final(self).toks() == old(self).toks(),
            final(self).src() == old(self).src(),
            m.wf(),
            ({
                let (mm, e) = parse_declarations_s(old(self).toks(), old(self).idx());
                m@ == mm && final(self).idx() == e
            }),
    {
        let ghost toks = self.toks();
        let ghost i0 = self.idx();
        let mut declarations = StrMap::new();
        self.skip_whitespace();
        proof {
            self.tokenizer.lemma_wf();
            lemma_skip_ws_idx(toks, i0);
        }
        while !self.at_block_end()
            invariant
                self.wf(),
                self.toks() == toks,
                self.src() == old(self).src(),
                declarations.wf(),
                skip_ws_idx(toks, self.idx()) == self.idx(),
                parse_declarations_s(toks, i0).0 == declarations@.union_prefer_right(
                    parse_declarations_s(toks, self.idx()).0,
                ),
                parse_declarations_s(toks, i0).1 == parse_declarations_s(toks, self.idx()).1,
            decreases toks.len() - self.idx(),
        {
            let ghost j = self.idx();
            proof {
                lemma_parse_declaration_s(toks, j);
                lemma_parse_declarations_s(toks, j);
            }
            if matches!(self.current_token, Some(CssToken::Ident(_))) {
                let ghost d_spec = parse_declaration_s(toks, j);
                let declared = self.parse_declaration();
                let ghost k = self.idx();
                if matches!(self.current_token, Some(CssToken::Semicolon)) {
                    self.advance();  // skip ';'
                }
                let ghost k2 = self.idx();
                let ghost rest = parse_declarations_s(toks, k2).0;
                proof {
                    assert(j < k2 && k2 <= toks.len());
                    assert(parse_declarations_s(toks, j).1 == parse_declarations_s(toks, k2).1);
                }
                match declared {
                    Some(pv) => {
                        let (property, val) = pv;
                        let ghost before = declarations@;
                        declarations.insert(property, val);
                        proof {
                            let pvs = d_spec.0->0;
                            let p = pvs.0;
                            let v = pvs.1;
                            assert(declarations@ == before.insert(p, v));
                            assert(before.insert(p, v).union_prefer_right(rest)
                                =~= before.union_prefer_right(
                                if rest.contains_key(p) {
                                    rest
                                } else {
                                    rest.insert(p, v)
                                },
                            ));
                        }
                    },
                    None => {},
                }
            } else {
                self.advance();
            }
            let ghost mid = self.idx();
            self.skip_whitespace();
            proof {
                lemma_skip_ws_idx(toks, mid);
                assert(parse_declarations_s(toks, self.idx()) == parse_declarations_s(toks, mid));
            }
        }
        proof {
            assert(parse_declarations_s(toks, self.idx()) == (
                Map::<Seq<char>, Seq<char>>::empty(),
                self.idx(),
            ));
            assert(declarations@.union_prefer_right(Map::<Seq<char>, Seq<char>>::empty())
                =~= declarations@);
        }
        declarations
    }

    /// One rule: selectors, `{`, declarations, optional `}`: exactly
    /// [`parse_rule_s`].
    fn parse_rule(&mut self) -> (r: Option<Rule>)
        requires
            old(self).wf(),
        ensures
            final(self).wf(),
            final(self).toks() == old(self).toks(),
            final(self).src() == old(self).src(),
            ({
                let (rm, k) = parse_rule_s(old(self).toks(), old(self).idx());
                final(self).idx() == k && (match (r, rm) {
                    (Some(rule), Some(m)) => rule_model(rule) == m && rule.declarations.wf()
                        && rule.selectors@.len() > 0,
                    (None, None) => true,
                    _ => false,
                })
            }),
    {
        let selectors = match self.parse_selectors() {
            Some(s) => s,
            None => {
                return None;
            },
        };

        self.skip_whitespace();

        // Expect '{'.
        if !matches!(self.current_token, Some(CssToken::LeftBrace)) {
            return None;
        }
        self.advance();  // skip '{'

        let declarations = self.parse_declarations();

        // A missing closing brace is tolerated.
        if matches!(self.current_token, Some(CssToken::RightBrace)) {
            self.advance();  // skip '}'
        }

        Some(Rule { selectors, declarations })
    }

    /// The ordered list of recognized rules: exactly [`css_parse_s`] at
    /// the current position.  Never fails; unparseable spans are skipped
    /// token by token.
    pub fn parse(&mut self) -> (rules: Vec<Rule>)
        requires
            old(self).wf(),
        ensures
            final(self).wf(),
            final(self).toks() == old(self).toks(),
            ({
                let (rs, e) = css_parse_s(old(self).toks(), old(self).idx());
                rule_models(rules@) == rs && final(self).idx() == e
            }),
            forall|m: int| 0 <= m < rules@.len() ==> (#[trigger] rules@[m]).declarations.wf(),
    {
        let ghost toks = self.toks();
        let ghost i0 = self.idx();
        let mut rules: Vec<Rule> = Vec::new();
        proof {
            assert(rule_models(rules@) + css_parse_s(toks, i0).0 =~= css_parse_s(toks, i0).0);
        }
        while self.current_token.is_some()
            invariant
                self.wf(),
                self.toks() == toks,
                css_parse_s(toks, i0).0 == rule_models(rules@) + css_parse_s(toks, self.idx()).0,
                css_parse_s(toks, i0).1 == css_parse_s(toks, self.idx()).1,
                forall|m: int| 0 <= m < rules@.len() ==> (#[trigger] rules@[m]).declarations.wf(),
            decreases toks.len() - self.idx(),
        {
            let ghost k = self.idx();
            proof {
                self.tokenizer.lemma_wf();
                lemma_skip_ws_idx(toks, k);
            }
            self.skip_whitespace();
            let ghost j = self.idx();
            proof {
                lemma_parse_rule_s(toks, j);
            }
            match self.parse_rule() {
                Some(rule) => {
                    let ghost before = rules@;
                    let ghost rm = rule_model(rule);
                    rules.push(rule);
                    proof {
                        lemma_rule_models_push(before, rules@.last());
                        let (rest, e) = css_parse_s(toks, self.idx());
                        assert(rule_models(before) + (seq![rm] + rest) =~= rule_models(
                            before,
                        ).push(rm) + rest);
                    }
                },
                None => {
                    // Skip one token and retry (resynchronization).
                    self.advance();
                },
            }
        }
        proof {
            assert(css_parse_s(toks, self.idx()).0 =~= Seq::<RuleModel>::empty());
            assert(rule_models(rules@) + Seq::<RuleModel>::empty() =~= rule_models(rules@));
        }
        rules
    }
}

} // verus!
