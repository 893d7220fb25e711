//! HTML parser: recursive descent over the token stream, building an
//! ordered list of tree nodes.
//!
//! The meaning of the parser is given by spec functions over the token
//! sequence of the input ([`parse_top_s`], [`element_s`], [`children_s`]);
//! [`HtmlParser::parse`] is proved to return exactly those nodes.  The
//! parser never fails: a mismatched end tag becomes a literal text node,
//! a doctype anywhere is skipped, and the end of the input closes every
//! element still open.

use vstd::prelude::*;
use vstd::string::StringExecFns;
use vstd::string::StrSliceExecFns;

use crate::html_tokenizer::attrs_view;
use crate::html_tokenizer::html_token_at;
use crate::html_tokenizer::html_tokens;
use crate::html_tokenizer::html_tokens_from;
use crate::html_tokenizer::lemma_html_token_at;
use crate::html_tokenizer::HtmlTok;
use crate::html_tokenizer::HtmlToken;
use crate::html_tokenizer::HtmlTokenizer;
use crate::strmap::StrMap;
use crate::text::all_ws;
use crate::text::all_ws_str;
use crate::text::lower;
use crate::text::lower_eq;
use crate::text::str_eq;

verus! {

/// An element: a tag name, an attribute map (duplicates collapse, last
/// wins), and the ordered list of child nodes it exclusively owns.
#[derive(Debug)]
pub struct Element {
    pub tag_name: String,
    pub attributes: StrMap,
    pub children: Vec<Node>,
}

/// One node of the document tree.
#[derive(Debug)]
pub enum Node {
    Element(Element),
    Text(String),
    Comment(String),
}

/// The mathematical shape of an element.
pub struct ElementModel {
    pub tag_name: Seq<char>,
    pub attributes: Map<Seq<char>, Seq<char>>,
    pub children: Seq<NodeModel>,
}

/// The mathematical shape of a node.
pub enum NodeModel {
    Element(ElementModel),
    Text(Seq<char>),
    Comment(Seq<char>),
}

pub open spec fn node_model(n: Node) -> NodeModel
    decreases n,
{
    match n {
        Node::Element(e) => NodeModel::Element(element_model(e)),
        Node::Text(s) => NodeModel::Text(s@),
        Node::Comment(s) => NodeModel::Comment(s@),
    }
}

pub open spec fn element_model(e: Element) -> ElementModel
    decreases e,
{
    ElementModel {
        tag_name: e.tag_name@,
        attributes: e.attributes@,
        children: node_models(e.children@),
    }
}

pub open spec fn node_models(ns: Seq<Node>) -> Seq<NodeModel>
    decreases ns,
{
    if ns.len() == 0 {
        Seq::empty()
    } else {
        node_models(ns.drop_last()).push(node_model(ns.last()))
    }
}

proof fn lemma_node_models_push(before: Seq<Node>, n: Node)
    ensures
        node_models(before.push(n)) == node_models(before).push(node_model(n)),
{
    assert(before.push(n).drop_last() =~= before);
    assert(before.push(n).last() == n);
}

impl View for Node {
    type V = NodeModel;

    open spec fn view(&self) -> NodeModel {
        node_model(*self)
    }
}

impl View for Element {
    type V = ElementModel;

    open spec fn view(&self) -> ElementModel {
        element_model(*self)
    }
}

// ---------------------------------------------------------------------------
// Spec-level parsing.
// ---------------------------------------------------------------------------

/// The attribute map built from an ordered attribute list: later
/// occurrences of a name win.
pub open spec fn attrs_map(a: Seq<(Seq<char>, Seq<char>)>) -> Map<Seq<char>, Seq<char>>
    decreases a.len(),
{
    if a.len() == 0 {
        Map::empty()
    } else {
        attrs_map(a.drop_last()).insert(a.last().0, a.last().1)
    }
}

/// The literal text a mismatched end tag turns into: `</name>`.
pub open spec fn end_tag_text(name: Seq<char>) -> Seq<char> {
    seq!['<', '/'] + name + seq!['>']
}

/// Is `name` a void element (can never have children or an end tag)?
/// The comparison ignores case.
pub open spec fn is_void(name: Seq<char>) -> bool {
    ||| lower(name) == "area"@
    ||| lower(name) == "base"@
    ||| lower(name) == "br"@
    ||| lower(name) == "col"@
    ||| lower(name) == "embed"@
    ||| lower(name) == "hr"@
    ||| lower(name) == "img"@
    ||| lower(name) == "input"@
    ||| lower(name) == "link"@
    ||| lower(name) == "meta"@
    ||| lower(name) == "param"@
    ||| lower(name) == "source"@
    ||| lower(name) == "track"@
    ||| lower(name) == "wbr"@
}

/// The element opened by a start tag with the given name, attributes and
/// self-closing flag, whose tag token stands just before index `k` of the
/// token stream.  A self-closing or void element takes no children;
/// otherwise its children run to the matching end tag or the end of the
/// stream.  Returns the element and the index where parsing resumes.
pub open spec fn element_s(
    toks: Seq<HtmlTok>,
    k: nat,
    name: Seq<char>,
    attrs: Seq<(Seq<char>, Seq<char>)>,
    sc: bool,
) -> (ElementModel, nat)
    decreases toks.len() - k, 1nat,
    when k <= toks.len()
{
    if sc || is_void(name) {
        (ElementModel { tag_name: name, attributes: attrs_map(attrs), children: Seq::empty() }, k)
    } else {
        let (ch, k2) = children_s(toks, k, name);
        (ElementModel { tag_name: name, attributes: attrs_map(attrs), children: ch }, k2)
    }
}

/// The children of an open element named `name`, read from index `k`:
/// a matching end tag closes the element; a mismatched end tag becomes the
/// literal text `</name>`; a start tag opens a child element; text that is
/// not all whitespace and comments are kept; doctypes are skipped; the end
/// of the stream closes the element silently.
pub open spec fn children_s(toks: Seq<HtmlTok>, k: nat, name: Seq<char>) -> (
    Seq<NodeModel>,
    nat,
)
    decreases toks.len() - k, 0nat,
    when k <= toks.len()
{
    if k >= toks.len() {
        (Seq::empty(), k)
    } else {
        match toks[k as int] {
            HtmlTok::EndTag { name: n } => {
                if n == name {
                    (Seq::empty(), k + 1)
                } else {
                    let (rest, e) = children_s(toks, k + 1, name);
                    (seq![NodeModel::Text(end_tag_text(n))] + rest, e)
                }
            },
            HtmlTok::StartTag { name: n2, attributes: a2, self_closing: s2 } => {
                let (el, k2) = element_s(toks, k + 1, n2, a2, s2);
                let kn = if k + 1 <= k2 && k2 <= toks.len() {
                    k2
                } else {
                    k + 1
                };
                let (rest, e) = children_s(toks, kn, name);
                (seq![NodeModel::Element(el)] + rest, e)
            },
            HtmlTok::Text(t) => {
                let (rest, e) = children_s(toks, k + 1, name);
                if all_ws(t) {
                    (rest, e)
                } else {
                    (seq![NodeModel::Text(t)] + rest, e)
                }
            },
            HtmlTok::Comment(c) => {
                let (rest, e) = children_s(toks, k + 1, name);
                (seq![NodeModel::Comment(c)] + rest, e)
            },
            HtmlTok::Doctype(_) => children_s(toks, k + 1, name),
        }
    }
}

proof fn lemma_element_s(
    toks: Seq<HtmlTok>,
    k: nat,
    name: Seq<char>,
    attrs: Seq<(Seq<char>, Seq<char>)>,
    sc: bool,
)
    requires
        k <= toks.len(),
    ensures
        k <= element_s(toks, k, name, attrs, sc).1 <= toks.len(),
    decreases toks.len() - k, 1nat,
{
    if !(sc || is_void(name)) {
        lemma_children_s(toks, k, name);
    }
}

proof fn lemma_children_s(toks: Seq<HtmlTok>, k: nat, name: Seq<char>)
    requires
        k <= toks.len(),
    ensures
        k <= children_s(toks, k, name).1 <= toks.len(),
    decreases toks.len() - k, 0nat,
{
    if k < toks.len() {
        match toks[k as int] {
            HtmlTok::EndTag { name: n } => {
                if n != name {
                    lemma_children_s(toks, k + 1, name);
                }
            },
            HtmlTok::StartTag { name: n2, attributes: a2, self_closing: s2 } => {
                lemma_element_s(toks, k + 1, n2, a2, s2);
                let k2 = element_s(toks, k + 1, n2, a2, s2).1;
                lemma_children_s(toks, k2, name);
            },
            HtmlTok::Text(_) => {
                lemma_children_s(toks, k + 1, name);
            },
            HtmlTok::Comment(_) => {
                lemma_children_s(toks, k + 1, name);
            },
            HtmlTok::Doctype(_) => {
                lemma_children_s(toks, k + 1, name);
            },
        }
    }
}

/// The ordered list of top-level nodes read from index `k`: like
/// [`children_s`], but a bare end tag ends parsing instead of becoming
/// text, and nothing closes.
pub open spec fn parse_top_s(toks: Seq<HtmlTok>, k: nat) -> (Seq<NodeModel>, nat)
    decreases toks.len() - k,
    when k <= toks.len()
{
    if k >= toks.len() {
        (Seq::empty(), k)
    } else {
        match toks[k as int] {
            HtmlTok::StartTag { name: n, attributes: a, self_closing: s } => {
                let (el, k2) = element_s(toks, k + 1, n, a, s);
                let kn = if k + 1 <= k2 && k2 <= toks.len() {
                    k2
                } else {
                    k + 1
                };
                let (rest, e) = parse_top_s(toks, kn);
                (seq![NodeModel::Element(el)] + rest, e)
            },
            HtmlTok::Text(t) => {
                let (rest, e) = parse_top_s(toks, k + 1);
                if all_ws(t) {
                    (rest, e)
                } else {
                    (seq![NodeModel::Text(t)] + rest, e)
                }
            },
            HtmlTok::Comment(c) => {
                let (rest, e) = parse_top_s(toks, k + 1);
                (seq![NodeModel::Comment(c)] + rest, e)
            },
            HtmlTok::Doctype(_) => parse_top_s(toks, k + 1),
            HtmlTok::EndTag { .. } => (Seq::empty(), k),
        }
    }
}

// ---------------------------------------------------------------------------
// The executable parser.
// ---------------------------------------------------------------------------

/// A pull-based HTML parser: a tokenizer plus one token of lookahead.
pub struct HtmlParser<'a> {
    tokenizer: HtmlTokenizer<'a>,
    current_token: Option<HtmlToken<'a>>,
    index: Ghost<nat>,
}

impl<'a> HtmlParser<'a> {
    /// The input being parsed.
    pub closed spec fn src(&self) -> Seq<char> {
        self.tokenizer.src()
    }

    /// The token stream of the input.
    pub closed spec fn toks(&self) -> Seq<HtmlTok> {
        html_tokens(self.tokenizer.src())
    }

    /// The index of the lookahead token within the stream.
    pub closed spec fn idx(&self) -> nat {
        self.index@
    }

    /// The lookahead token.
    pub closed spec fn cur(&self) -> Option<HtmlTok> {
        match self.current_token {
            Some(t) => Some(t@),
            None => None,
        }
    }

    pub closed spec fn wf(&self) -> bool {
        &&& self.tokenizer.wf()
        &&& self.idx() <= self.toks().len()
        &&& match self.current_token {
            Some(t) => self.idx() < self.toks().len() && t@ == self.toks()[self.idx() as int]
                && html_tokens_from(self.src(), self.tokenizer.pos()) == self.toks().skip(
                self.idx() as int + 1,
            ),
            None => self.idx() == self.toks().len() && html_token_at(
                self.src(),
                self.tokenizer.pos(),
            ) == (None::<HtmlTok>, self.tokenizer.pos()),
        }
    }

    /// A parser over `input`, primed with one token of lookahead.
    pub fn new(input: &'a str) -> (p: Self)
        ensures
            p.wf(),
            p.src() == input@,
            p.toks() == html_tokens(input@),
            p.idx() == 0,
    {
        let mut tokenizer = HtmlTokenizer::new(input);
        let current_token = tokenizer.next_token();
        proof {
            lemma_html_token_at(input@, 0);
            let (t0, p0) = html_token_at(input@, 0);
            if t0 is Some {
                assert(html_tokens(input@) == seq![t0->0] + html_tokens_from(input@, p0));
                assert((seq![t0->0] + html_tokens_from(input@, p0)).skip(1) =~= html_tokens_from(
                    input@,
                    p0,
                ));
            }
        }
        Self { tokenizer, current_token, index: Ghost(0) }
    }

    /// Replace the lookahead with the next token, returning the old
    /// lookahead.
    fn advance(&mut self) -> (prev: Option<HtmlToken<'a>>)
        requires
            old(self).wf(),
        ensures
            final(self).wf(),
            final(self).src() == old(self).src(),
            final(self).toks() == old(self).toks(),
            (match (prev, old(self).cur()) {
                (Some(tk), Some(m)) => tk@ == m,
                (None, None) => true,
                _ => false,
            }),
            old(self).cur() is Some ==> final(self).idx() == old(self).idx() + 1,
            old(self).cur() is None ==> final(self).idx() == old(self).idx(),
    {
        let ghost s = self.src();
        let ghost toks = self.toks();
        let ghost i = self.idx();
        let prev = self.current_token.take();
        let next = self.tokenizer.next_token();
        self.current_token = next;
        proof {
            let p0 = old(self).tokenizer.pos();
            old(self).tokenizer.lemma_wf();
            lemma_html_token_at(s, p0);
            if prev is Some {
                let (t2, p2) = html_token_at(s, p0);
                assert(html_tokens_from(s, p0) == toks.skip(i as int + 1));
                match t2 {
                    Some(t) => {
                        assert(html_tokens_from(s, p0) == seq![t] + html_tokens_from(s, p2));
                        assert(toks.skip(i as int + 1)[0] == toks[i as int + 1]);
                        assert(toks[i as int + 1] == t);
                        assert(i + 1 < toks.len()) by {
                            assert(toks.skip(i as int + 1).len() > 0);
                        }
                        assert(html_tokens_from(s, p2) =~= toks.skip(i as int + 2)) by {
                            assert(forall|m: int|
                                0 <= m < html_tokens_from(s, p2).len() ==> html_tokens_from(s, p2)[m]
                                    == toks.skip(i as int + 1)[m + 1]);
                        }
                    },
                    None => {
                        assert(html_tokens_from(s, p0) == Seq::<HtmlTok>::empty());
                        assert(toks.skip(i as int + 1).len() == 0);
                        assert(i + 1 == toks.len());
                    },
                }
            }
        }
        self.index = Ghost(
            if prev.is_some() {
                self.index@ + 1
            } else {
                self.index@
            },
        );
        prev
    }

    /// Is the lookahead a token that opens a top-level node (anything but
    /// a bare end tag or the end of the stream)?
    fn at_top_node(&self) -> (r: bool)
        ensures
            r == (self.cur() matches Some(t) && !(t is EndTag)),
    {
        match &self.current_token {
            Some(HtmlToken::EndTag { .. }) => false,
            Some(_) => true,
            None => false,
        }
    }

    /// The ordered list of top-level nodes: exactly [`parse_top_s`] at the
    /// current position.  Never fails.
    pub fn parse(&mut self) -> (nodes: Vec<Node>)
        requires
            old(self).wf(),
        ensures
            final(self).wf(),
            final(self).toks() == old(self).toks(),
            ({
                let (ns, e) = parse_top_s(old(self).toks(), old(self).idx());
                node_models(nodes@) == ns && final(self).idx() == e
            }),
    {
        let ghost toks = self.toks();
        let ghost i0 = self.idx();
        let mut nodes: Vec<Node> = Vec::new();
        proof {
            assert(node_models(nodes@) + parse_top_s(toks, i0).0 =~= parse_top_s(toks, i0).0);
        }
        while self.at_top_node()
            invariant
                self.wf(),
                self.toks() == toks,
                parse_top_s(toks, i0).0 == node_models(nodes@) + parse_top_s(toks, self.idx()).0,
                parse_top_s(toks, i0).1 == parse_top_s(toks, self.idx()).1,
            decreases toks.len() - self.idx(),
        {
            let ghost k = self.idx();
            let tok = self.advance();
            match tok {
                Some(HtmlToken::StartTag { name, attributes, self_closing }) => {
                    proof {
                        lemma_element_s(
                            toks,
                            k + 1,
                            name@,
                            attrs_view(attributes@),
                            self_closing,
                        );
                    }
                    let element = self.parse_element(name, &attributes, self_closing);
                    let ghost before = nodes@;
                    nodes.push(Node::Element(element));
                    proof {
                        let (el, k2) = element_s(toks, k + 1, name@, attrs_view(attributes@),
                            self_closing);
                        lemma_node_models_push(before, nodes@.last());
                        assert(node_models(before) + (seq![NodeModel::Element(el)] + parse_top_s(
                            toks,
                            k2,
                        ).0) =~= node_models(nodes@) + parse_top_s(toks, k2).0);
                    }
                },
                Some(HtmlToken::Text(text)) => {
                    if !all_ws_str(text) {
                        let ghost before = nodes@;
                        nodes.push(Node::Text(String::from_str(text)));
                        proof {
                            lemma_node_models_push(before, nodes@.last());
                            assert(node_models(before) + (seq![NodeModel::Text(text@)]
                                + parse_top_s(toks, k + 1).0) =~= node_models(nodes@)
                                + parse_top_s(toks, k + 1).0);
                        }
                    }
                },
                Some(HtmlToken::Comment(comment)) => {
                    let ghost before = nodes@;
                    nodes.push(Node::Comment(String::from_str(comment)));
                    proof {
                        lemma_node_models_push(before, nodes@.last());
                        assert(node_models(before) + (seq![NodeModel::Comment(comment@)]
                            + parse_top_s(toks, k + 1).0) =~= node_models(nodes@) + parse_top_s(
                            toks,
                            k + 1,
                        ).0);
                    }
                },
                Some(HtmlToken::Doctype(_)) => {
                    // Doctypes may appear anywhere; they are skipped.
                },
                Some(HtmlToken::EndTag { .. }) => {
                    proof {
                        assert(false);
                    }
                },
                None => {
                    proof {
                        assert(false);
                    }
                },
            }
        }
        proof {
            assert(parse_top_s(toks, self.idx()).0 =~= Seq::<NodeModel>::empty());
            assert(node_models(nodes@) + Seq::<NodeModel>::empty() =~= node_models(nodes@));
        }
        nodes
    }

    /// The element opened by a start tag whose token has just been
    /// consumed: exactly [`element_s`] at the current position.
    fn parse_element(
        &mut self,
        name: &str,
        attributes: &Vec<(&'a str, &'a str)>,
        self_closing: bool,
    ) -> (element: Element)
        requires
            old(self).wf(),
        ensures
            final(self).wf(),
            final(self).toks() == old(self).toks(),
            ({
                let (em, k2) = element_s(
                    old(self).toks(),
                    old(self).idx(),
                    name@,
                    attrs_view(attributes@),
                    self_closing,
                );
                element_model(element) == em && final(self).idx() == k2
            }),
        decreases self.toks().len() - self.idx(), 1nat,
    {
        let ghost a = attrs_view(attributes@);

        // Collapse the ordered attribute list into a map: last wins.
        let mut attrs = StrMap::new();
        let mut i: usize = 0;
        proof {
            assert(a.subrange(0, 0) =~= Seq::<(Seq<char>, Seq<char>)>::empty());
        }
        while i < attributes.len()
            invariant
                0 <= i <= attributes.len(),
                attrs.wf(),
                attrs@ == attrs_map(a.subrange(0, i as int)),
            decreases attributes.len() - i,
        {
            let pair = attributes[i];
            attrs.insert(String::from_str(pair.0), String::from_str(pair.1));
            proof {
                assert(a.subrange(0, i + 1).drop_last() =~= a.subrange(0, i as int));
                assert(a.subrange(0, i + 1).last() == a[i as int]);
            }
            i = i + 1;
        }
        proof {
            assert(a.subrange(0, a.len() as int) =~= a);
        }

        let mut element = Element {
            tag_name: String::from_str(name),
            attributes: attrs,
            children: Vec::new(),
        };

        if self_closing || self.is_void_element(name) {
            proof {
                assert(node_models(element.children@) =~= Seq::<NodeModel>::empty());
            }
            return element;
        }

        proof {
            assert(node_models(element.children@) =~= Seq::<NodeModel>::empty());
        }
        self.parse_children(name, &mut element.children);
        proof {
            assert(Seq::<NodeModel>::empty() + children_s(
                old(self).toks(),
                old(self).idx(),
                name@,
            ).0 =~= children_s(old(self).toks(), old(self).idx(), name@).0);
        }
        element
    }

    /// Collect children of an open element named `name` until its matching
    /// end tag or the end of the stream: exactly [`children_s`].
    fn parse_children(&mut self, name: &str, children: &mut Vec<Node>)
        requires
            old(self).wf(),
        ensures
            final(self).wf(),
            final(self).toks() == old(self).toks(),
            ({
                let (cs, k2) = children_s(old(self).toks(), old(self).idx(), name@);
                node_models(final(children)@) == node_models(old(children)@) + cs
                    && final(self).idx() == k2
            }),
        decreases self.toks().len() - self.idx(), 0nat,
    {
        let ghost toks = self.toks();
        let ghost k = self.idx();

        if self.current_token.is_none() {
            proof {
                assert(node_models(children@) + Seq::<NodeModel>::empty() =~= node_models(
                    children@,
                ));
            }
            return ;
        }

        let tok = self.advance();
        match tok {
            Some(HtmlToken::EndTag { name: end_name }) => {
                if str_eq(end_name, name) {
                    // The matching end tag closes this element.
                    proof {
                        assert(node_models(children@) + Seq::<NodeModel>::empty() =~= node_models(
                            children@,
                        ));
                    }
                } else {
                    // Mismatched end tag: keep it as literal text.
                    let mut text = String::new();
                    text.append("</");
                    text.append(end_name);
                    text.append(">");
                    proof {
                        reveal_strlit("</");
                        reveal_strlit(">");
                        assert(text@ =~= end_tag_text(end_name@));
                    }
                    let ghost before = children@;
                    children.push(Node::Text(text));
                    proof {
                        lemma_node_models_push(before, children@.last());
                    }
                    self.parse_children(name, children);
                    proof {
                        let (rest, e) = children_s(toks, k + 1, name@);
                        assert(node_models(before) + (seq![NodeModel::Text(end_tag_text(
                            end_name@,
                        ))] + rest) =~= node_models(before.push(Node::Text(text))) + rest);
                    }
                }
            },
            Some(HtmlToken::StartTag { name: child_name, attributes: child_attrs, self_closing }) => {
                proof {
                    lemma_element_s(toks, k + 1, child_name@, attrs_view(child_attrs@),
                        self_closing);
                }
                let child_element = self.parse_element(child_name, &child_attrs, self_closing);
                let ghost before = children@;
                let ghost cm = element_model(child_element);
                children.push(Node::Element(child_element));
                proof {
                    lemma_node_models_push(before, children@.last());
                }
                self.parse_children(name, children);
                proof {
                    let (el, k2) = element_s(toks, k + 1, child_name@, attrs_view(child_attrs@),
                        self_closing);
                    let (rest, e) = children_s(toks, k2, name@);
                    assert(node_models(before) + (seq![NodeModel::Element(el)] + rest)
                        =~= node_models(before).push(NodeModel::Element(el)) + rest);
                }
            },
            Some(HtmlToken::Text(text)) => {
                let ghost before = children@;
                if !all_ws_str(text) {
                    children.push(Node::Text(String::from_str(text)));
                    proof {
                        lemma_node_models_push(before, children@.last());
                    }
                }
                self.parse_children(name, children);
                proof {
                    let (rest, e) = children_s(toks, k + 1, name@);
                    if !all_ws(text@) {
                        assert(node_models(before) + (seq![NodeModel::Text(text@)] + rest)
                            =~= node_models(before).push(NodeModel::Text(text@)) + rest);
                    }
                }
            },
            Some(HtmlToken::Comment(comment)) => {
                let ghost before = children@;
                children.push(Node::Comment(String::from_str(comment)));
                proof {
                    lemma_node_models_push(before, children@.last());
                }
                self.parse_children(name, children);
                proof {
                    let (rest, e) = children_s(toks, k + 1, name@);
                    assert(node_models(before) + (seq![NodeModel::Comment(comment@)] + rest)
                        =~= node_models(before).push(NodeModel::Comment(comment@)) + rest);
                }
            },
            Some(HtmlToken::Doctype(_)) => {
                // Doctypes may appear anywhere; they are skipped.
                self.parse_children(name, children);
            },
            None => {
                proof {
                    assert(false);
                }
            },
        }
    }

    /// Is `name` a void element?  The comparison ignores case.
    fn is_void_element(&self, name: &str) -> (r: bool)
        ensures
            r == is_void(name@),
    {
        lower_eq(name, "area") || lower_eq(name, "base") || lower_eq(name, "br") || lower_eq(
            name,
            "col",
        ) || lower_eq(name, "embed") || lower_eq(name, "hr") || lower_eq(name, "img") || lower_eq(
            name,
            "input",
        ) || lower_eq(name, "link") || lower_eq(name, "meta") || lower_eq(name, "param")
            || lower_eq(name, "source") || lower_eq(name, "track") || lower_eq(name, "wbr")
    }
}

} // verus!
