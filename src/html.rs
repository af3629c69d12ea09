//! The markup parser: text into a document tree.
use vstd::prelude::*;
use crate::dom::{comment, elem, text, AttrMap, Node, NodeType};
use crate::parser::{space_end, all_in, is_space, lemma_run_end, lemma_run_end_bounds, run_end, starts_at, ParseError, Parser};

verus! {

/// A document tree as a value: what a `Node` stands for.
pub enum DomView {
    Text(Seq<char>),
    Comment(Seq<char>),
    Element(Seq<char>, Map<Seq<char>, Seq<char>>, Seq<DomView>),
}

/// What a node stands for.
pub open spec fn view_of(n: Node) -> DomView
    decreases n,
{
    match n.node_type {
        NodeType::Text(t) => DomView::Text(t@),
        NodeType::Comment(t) => DomView::Comment(t@),
        NodeType::Element(e) => DomView::Element(
            e.tag_name@,
            e.attributes@,
            Seq::new(
                n.children@.len(),
                |i: int|
                    if 0 <= i < n.children@.len() {
                        view_of(n.children@[i])
                    } else {
                        DomView::Text(Seq::empty())
                    },
            ),
        ),
    }
}

pub open spec fn views_of(ns: Seq<Node>) -> Seq<DomView> {
    Seq::new(ns.len(), |i: int| view_of(ns[i]))
}

/// Tag and attribute names: ASCII letters and digits.
pub open spec fn is_name_char(c: char) -> bool {
    ('a' <= c && c <= 'z') || ('A' <= c && c <= 'Z') || ('0' <= c && c <= '9')
}

pub open spec fn name_end(s: Seq<char>, p: int) -> int {
    run_end(s, p, |c: char| is_name_char(c))
}

/// Index of the first `<` at or after `p`, or the length of `s`.
pub open spec fn text_end(s: Seq<char>, p: int) -> int {
    run_end(s, p, |x: char| x != '<')
}

/// Index of the first `c` at or after `p`, or the length of `s`.
pub open spec fn find_char(s: Seq<char>, p: int, c: char) -> int {
    run_end(s, p, |x: char| x != c)
}

pub open spec fn open_comment() -> Seq<char> {
    seq!['<', '!', '-', '-']
}

pub open spec fn close_comment() -> Seq<char> {
    seq!['-', '-', '>']
}

pub open spec fn close_tag() -> Seq<char> {
    seq!['<', '/']
}

/// Where the first `-->` at or after `p` starts.
pub open spec fn find_close_comment(s: Seq<char>, p: int) -> Option<int>
    decreases s.len() - p,
{
    if p < 0 || p + 3 > s.len() {
        None
    } else if starts_at(s, p, close_comment()) {
        Some(p)
    } else {
        find_close_comment(s, p + 1)
    }
}

/// `name="value"` (or with single quotes) at `p`: the name, the value and
/// where the attribute ends.
pub open spec fn attr_at(s: Seq<char>, p: int) -> Option<(Seq<char>, Seq<char>, int)> {
    let n = name_end(s, p);
    if 0 <= p <= n && n + 1 < s.len() && s[n] == '=' && (s[n + 1] == '"' || s[n + 1] == '\'') {
        let e = find_char(s, n + 2, s[n + 1]);
        if n + 2 <= e < s.len() {
            Some((s.subrange(p, n), s.subrange(n + 2, e), e + 1))
        } else {
            None
        }
    } else {
        None
    }
}

/// The attributes from `p` up to the `>` of a tag (not read): their map, a
/// later one winning, and where the `>` stands.
pub open spec fn attrs_at(s: Seq<char>, p: int) -> Option<(Map<Seq<char>, Seq<char>>, int)>
    decreases s.len() - p,
{
    let q = space_end(s, p);
    if q < p || q >= s.len() {
        None
    } else if s[q] == '>' {
        Some((Map::empty(), q))
    } else {
        match attr_at(s, q) {
            None => None,
            Some((k, v, q2)) => if q2 > q {
                match attrs_at(s, q2) {
                    None => None,
                    Some((m, r)) => Some((map![k => v].union_prefer_right(m), r)),
                }
            } else {
                None
            },
        }
    }
}

/// Sibling nodes from `p`, each after optional whitespace, up to the end of
/// the input or a `</`: the nodes and where they stop.
pub open spec fn nodes_at(s: Seq<char>, p: int) -> Option<(Seq<DomView>, int)>
    decreases s.len() - p, 2int,
{
    let q = space_end(s, p);
    if q < p || p < 0 {
        None
    } else if q >= s.len() || starts_at(s, q, close_tag()) {
        Some((Seq::empty(), q))
    } else {
        match node_at(s, q) {
            None => None,
            Some((v, q2)) => if q < q2 <= s.len() {
                match nodes_at(s, q2) {
                    None => None,
                    Some((vs, r)) => Some((seq![v] + vs, r)),
                }
            } else {
                None
            },
        }
    }
}

/// One node at `p`: a comment, an element or a text.
pub open spec fn node_at(s: Seq<char>, p: int) -> Option<(DomView, int)>
    decreases s.len() - p, 1int,
{
    if p < 0 || p >= s.len() {
        None
    } else if starts_at(s, p, open_comment()) {
        match find_close_comment(s, p + 4) {
            Some(k) => Some((DomView::Comment(s.subrange(p + 4, k)), k + 3)),
            None => None,
        }
    } else if s[p] == '<' {
        element_at(s, p)
    } else {
        let e = text_end(s, p);
        Some((DomView::Text(s.subrange(p, e)), e))
    }
}

/// An element at `p`: open tag, children, and a close tag of the same name.
pub open spec fn element_at(s: Seq<char>, p: int) -> Option<(DomView, int)>
    decreases s.len() - p, 0int,
{
    if p < 0 || p >= s.len() || s[p] != '<' {
        None
    } else {
        let n = name_end(s, p + 1);
        let tag = s.subrange(p + 1, n);
        match attrs_at(s, n) {
            None => None,
            Some((m, q)) => if p < q < s.len() {
                match nodes_at(s, q + 1) {
                    None => None,
                    Some((kids, r)) => {
                        let e = name_end(s, r + 2);
                        if starts_at(s, r, close_tag()) && r + 2 <= e < s.len() && s.subrange(r + 2, e) == tag
                            && s[e] == '>' {
                            Some((DomView::Element(tag, m, kids), e + 1))
                        } else {
                            None
                        }
                    },
                }
            } else {
                None
            },
        }
    }
}

pub open spec fn html_name() -> Seq<char> {
    seq!['h', 't', 'm', 'l']
}

/// The document that `s` holds: its one top-level node, or all of them under
/// an `html` element; `None` where `s` is not a document.
pub open spec fn document(s: Seq<char>) -> Option<DomView> {
    match nodes_at(s, 0) {
        Some((vs, q)) => if q == s.len() {
            if vs.len() == 1 {
                Some(vs[0])
            } else {
                Some(DomView::Element(html_name(), Map::empty(), vs))
            }
        } else {
            None
        },
        None => None,
    }
}

proof fn lemma_view_of_elem(n: Node, tag: Seq<char>, m: Map<Seq<char>, Seq<char>>)
    requires
        n.node_type matches NodeType::Element(e) && e.tag_name@ == tag && e.attributes@ == m,
    ensures
        view_of(n) == DomView::Element(tag, m, views_of(n.children@)),
{
    let v = view_of(n);
    assert(v->Element_2 =~= views_of(n.children@));
}

fn is_tag_char(c: char) -> (b: bool)
    ensures
        b == is_name_char(c),
{
    ('a' <= c && c <= 'z') || ('A' <= c && c <= 'Z') || ('0' <= c && c <= '9')
}

fn not_open_angle(c: char) -> (b: bool)
    ensures
        b == (c != '<'),
{
    c != '<'
}

proof fn lemma_find_char_bounds(s: Seq<char>, from: int, c: char)
    requires
        0 <= from <= s.len(),
    ensures
        from <= find_char(s, from, c) <= s.len(),
    decreases s.len() - from,
{
    if from < s.len() && s[from] != c {
        lemma_find_char_bounds(s, from + 1, c);
    }
}

proof fn lemma_find_char(s: Seq<char>, from: int, to: int, c: char)
    requires
        0 <= from <= to <= s.len(),
        forall|i: int| from <= i < to ==> s[i] != c,
        to == s.len() || s[to] == c,
    ensures
        find_char(s, from, c) == to,
    decreases to - from,
{
    if from < to {
        lemma_find_char(s, from + 1, to, c);
    }
}

proof fn lemma_close_comment_bounds(s: Seq<char>, p: int)
    ensures
        find_close_comment(s, p) matches Some(k) ==> p <= k && k + 3 <= s.len() && starts_at(s, k, close_comment()),
    decreases s.len() - p,
{
    if !(p < 0 || p + 3 > s.len()) && !starts_at(s, p, close_comment()) {
        lemma_close_comment_bounds(s, p + 1);
    }
}

proof fn lemma_attrs_end(s: Seq<char>, p: int)
    ensures
        attrs_at(s, p) matches Some((m, q)) ==> p <= q < s.len() && s[q] == '>',
    decreases s.len() - p,
{
    let q = space_end(s, p);
    if !(q < p || q >= s.len()) && s[q] != '>' {
        match attr_at(s, q) {
            Some((k, v, q2)) => {
                if q2 > q {
                    lemma_attrs_end(s, q2);
                }
            },
            None => {},
        }
    }
}

proof fn lemma_nodes_end(s: Seq<char>, x: int)
    ensures
        nodes_at(s, x) matches Some((vs, r)) ==> x <= r,
    decreases s.len() - x,
{
    let q = space_end(s, x);
    if !(q < x || x < 0) && !(q >= s.len() || starts_at(s, q, close_tag())) {
        match node_at(s, q) {
            Some((v, q2)) => {
                if q < q2 <= s.len() {
                    lemma_nodes_end(s, q2);
                }
            },
            None => {},
        }
    }
}

/// A node, where one is found, takes at least one character.
proof fn lemma_node_progress(s: Seq<char>, p: int)
    ensures
        node_at(s, p) matches Some((v, q)) ==> p < q <= s.len(),
{
    if 0 <= p < s.len() {
        if starts_at(s, p, open_comment()) {
            lemma_close_comment_bounds(s, p + 4);
        } else if s[p] != '<' {
            lemma_run_end_bounds(s, p + 1, |x: char| x != '<');
            assert(text_end(s, p) == run_end(s, p + 1, |x: char| x != '<'));
        } else {
            let n = name_end(s, p + 1);
            lemma_run_end_bounds(s, p + 1, |c: char| is_name_char(c));
            lemma_attrs_end(s, n);
            match attrs_at(s, n) {
                Some((m, q)) => {
                    lemma_nodes_end(s, q + 1);
                },
                None => {},
            }
        }
    }
}

/// The markup parser: a cursor over the markup text.
pub struct HtmlParser {
    inner: Parser,
}

impl HtmlParser {
    pub closed spec fn text(&self) -> Seq<char> {
        self.inner.text()
    }

    pub closed spec fn at(&self) -> int {
        self.inner.at()
    }

    pub closed spec fn wf(&self) -> bool {
        self.inner.wf()
    }

    /// The cursor stands within the text.
    pub proof fn lemma_bounds(&self)
        requires
            self.wf(),
        ensures
            0 <= self.at() <= self.text().len(),
    {
        self.inner.lemma_bounds();
    }

    /// A parser at the start of `input`.
    pub fn new(input: String) -> (r: HtmlParser)
        ensures
            r.wf(),
            r.text() == input@,
            r.at() == 0,
    {
        HtmlParser { inner: Parser::new(input) }
    }

    /// Reads a tag or attribute name: the run of ASCII letters and digits ahead.
    fn parse_tag_name(&mut self) -> (r: String)
        requires
            old(self).wf(),
        ensures
            final(self).wf(),
            final(self).text() == old(self).text(),
            final(self).at() == name_end(old(self).text(), old(self).at()),
            r@ == old(self).text().subrange(old(self).at(), final(self).at()),
    {
        let r = self.inner.consume_while(is_tag_char);
        proof {
            let s = self.inner.text();
            self.inner.lemma_bounds();
            assert forall|i: int| old(self).inner.at() <= i < self.inner.at() implies is_name_char(s[i]) by {
                assert(is_tag_char.ensures((s[i],), true));
            }
            if self.inner.at() < s.len() {
                assert(is_tag_char.ensures((s[self.inner.at()],), false));
            }
            old(self).inner.lemma_bounds();
            assert(all_in(s, old(self).inner.at(), self.inner.at(), |c: char| is_name_char(c)));
            lemma_run_end(s, old(self).inner.at(), self.inner.at(), |c: char| is_name_char(c));
        }
        r
    }

    /// Reads a text node: everything up to the next `<`.
    fn parse_text(&mut self) -> (r: Node)
        requires
            old(self).wf(),
        ensures
            final(self).wf(),
            final(self).text() == old(self).text(),
            final(self).at() == text_end(old(self).text(), old(self).at()),
            view_of(r) == DomView::Text(old(self).text().subrange(old(self).at(), final(self).at())),
    {
        let data = self.inner.consume_while(not_open_angle);
        proof {
            let s = self.inner.text();
            self.inner.lemma_bounds();
            assert forall|i: int| old(self).inner.at() <= i < self.inner.at() implies s[i] != '<' by {
                assert(not_open_angle.ensures((s[i],), true));
            }
            if self.inner.at() < s.len() {
                assert(not_open_angle.ensures((s[self.inner.at()],), false));
            }
            old(self).inner.lemma_bounds();
            assert(all_in(s, old(self).inner.at(), self.inner.at(), |x: char| x != '<'));
            lemma_run_end(s, old(self).inner.at(), self.inner.at(), |x: char| x != '<');
        }
        text(data)
    }
    /// Reads a quoted value, its quotes included.
    fn parse_attr_value(&mut self) -> (r: Result<String, ParseError>)
        requires
            old(self).wf(),
        ensures
            final(self).wf(),
            final(self).text() == old(self).text(),
            ({
                let s = old(self).text();
                let p = old(self).at();
                if p < s.len() && (s[p] == '"' || s[p] == '\'') && find_char(s, p + 1, s[p]) < s.len() {
                    &&& r matches Ok(v) && v@ == s.subrange(p + 1, find_char(s, p + 1, s[p]))
                    &&& final(self).at() == find_char(s, p + 1, s[p]) + 1
                } else {
                    r is Err
                }
            }),
    {
        proof {
            self.inner.lemma_bounds();
        }
        if self.inner.eof() {
            return Err(self.inner.error());
        }
        let open_quote = self.inner.consume_char();
        if open_quote != '"' && open_quote != '\'' {
            return Err(self.inner.error());
        }
        let ghost s = self.inner.text();
        let ghost start = self.inner.at();
        proof {
            old(self).inner.lemma_bounds();
        }
        let mut value = String::new();
        while !self.inner.eof() && self.inner.next_char() != open_quote
            invariant
                self.inner.wf(),
                self.inner.text() == s,
                start == old(self).inner.at() + 1,
                1 <= start <= self.inner.at(),
                open_quote == s[start - 1],
                value@ == s.subrange(start, self.inner.at()),
                forall|i: int| start <= i < self.inner.at() ==> s[i] != open_quote,
            decreases s.len() - self.inner.at(),
        {
            proof {
                self.inner.lemma_bounds();
            }
            let ghost prev = value@;
            let ghost at0 = self.inner.at();
            let c = self.inner.consume_char();
            crate::parser::push_char(&mut value, c);
            proof {
                assert(c == s[at0]);
                assert(value@ == prev.push(c));
                assert(value@ =~= s.subrange(start, self.inner.at()));
            }
        }
        proof {
            self.inner.lemma_bounds();
            lemma_find_char(s, start, self.inner.at(), open_quote);
        }
        if self.inner.eof() {
            return Err(self.inner.error());
        }
        self.inner.consume_char();
        Ok(value)
    }

    /// Reads one `name="value"` pair.
    fn parse_attr(&mut self) -> (r: Result<(String, String), ParseError>)
        requires
            old(self).wf(),
        ensures
            final(self).wf(),
            final(self).text() == old(self).text(),
            match attr_at(old(self).text(), old(self).at()) {
                Some((k, v, e)) => r matches Ok(p) && p.0@ == k && p.1@ == v && final(self).at() == e,
                None => r is Err,
            },
    {
        let name = self.parse_tag_name();
        proof {
            self.inner.lemma_bounds();
            old(self).inner.lemma_bounds();
            let s = self.inner.text();
            let n = self.inner.at();
            lemma_run_end_bounds(s, old(self).inner.at(), |c: char| is_name_char(c));
            if n + 1 < s.len() {
                lemma_find_char_bounds(s, n + 2, s[n + 1]);
            }
        }
        if self.inner.eof() || self.inner.next_char() != '=' {
            return Err(self.inner.error());
        }
        self.inner.consume_char();
        match self.parse_attr_value() {
            Ok(value) => Ok((name, value)),
            Err(e) => Err(e),
        }
    }

    /// Reads attributes up to the `>` that ends the open tag, which it leaves.
    fn parse_attributes(&mut self) -> (r: Result<AttrMap, ParseError>)
        requires
            old(self).wf(),
        ensures
            final(self).wf(),
            final(self).text() == old(self).text(),
            match attrs_at(old(self).text(), old(self).at()) {
                Some((m, q)) => r matches Ok(a) && a@ == m && final(self).at() == q,
                None => r is Err,
            },
    {
        let ghost s = self.inner.text();
        let ghost origin = self.inner.at();
        let mut attributes = AttrMap::new();
        loop
            invariant
                self.inner.wf(),
                self.inner.text() == s,
                s == old(self).inner.text(),
                origin == old(self).inner.at(),
                attrs_at(s, origin) == match attrs_at(s, self.inner.at()) {
                    Some((m, q)) => Some((attributes@.union_prefer_right(m), q)),
                    None => None,
                },
            decreases s.len() - self.inner.at(),
        {
            proof {
                self.inner.lemma_bounds();
            }
            let ghost cur = self.inner.at();
            self.inner.consume_whitespace();
            proof {
                self.inner.lemma_bounds();
            }
            if self.inner.eof() {
                return Err(self.inner.error());
            }
            if self.inner.next_char() == '>' {
                proof {
                    assert(attributes@.union_prefer_right(Map::empty()) =~= attributes@);
                }
                return Ok(attributes);
            }
            let ghost before = attributes@;
            match self.parse_attr() {
                Ok((name, value)) => {
                    proof {
                        let q = self.inner.at();
                        assert(q > cur);
                        match attrs_at(s, q) {
                            Some((m, r)) => {
                                assert(before.union_prefer_right(map![name@ => value@].union_prefer_right(m))
                                    =~= before.insert(name@, value@).union_prefer_right(m));
                            },
                            None => {},
                        }
                    }
                    attributes.insert(name, value);
                },
                Err(e) => {
                    return Err(e);
                },
            }
        }
    }
    /// Reads a comment, `<!--` to the first `-->`.
    fn parse_comment(&mut self) -> (r: Result<Node, ParseError>)
        requires
            old(self).wf(),
            starts_at(old(self).text(), old(self).at(), open_comment()),
        ensures
            final(self).wf(),
            final(self).text() == old(self).text(),
            match find_close_comment(old(self).text(), old(self).at() + 4) {
                Some(k) => r matches Ok(n) && view_of(n) == DomView::Comment(old(self).text().subrange(old(self).at() + 4, k))
                    && final(self).at() == k + 3,
                None => r is Err,
            },
    {
        let ghost s = self.inner.text();
        let ghost p = self.inner.at();
        proof {
            reveal_strlit("<!--");
            reveal_strlit("-->");
            assert("<!--"@ =~= open_comment());
            assert("-->"@ =~= close_comment());
            self.inner.lemma_starts(open_comment());
            self.inner.lemma_bounds();
        }
        self.inner.consume_string("<!--");
        let mut contents = String::new();
        loop
            invariant
                self.inner.wf(),
                self.inner.text() == s,
                s == old(self).inner.text(),
                p == old(self).inner.at(),
                0 <= p,
                p + 4 <= self.inner.at() <= s.len(),
                contents@ == s.subrange(p + 4, self.inner.at()),
                find_close_comment(s, p + 4) == find_close_comment(s, self.inner.at()),
                "-->"@ == close_comment(),
            ensures
                self.inner.wf(),
                self.inner.text() == s,
                p + 4 <= self.inner.at() <= s.len(),
                contents@ == s.subrange(p + 4, self.inner.at()),
                find_close_comment(s, p + 4) == Some(self.inner.at()),
                starts_at(s, self.inner.at(), close_comment()),
                self.inner.rest().take(3) == close_comment(),
                3 <= self.inner.rest().len(),
            decreases s.len() - self.inner.at(),
        {
            let found = self.inner.starts_with("-->");
            proof {
                self.inner.lemma_starts(close_comment());
            }
            if found {
                proof {
                    assert("-->"@.len() == 3);
                }
                break;
            }
            if self.inner.eof() {
                return Err(self.inner.error());
            }
            let ghost prev = contents@;
            let ghost at0 = self.inner.at();
            let c = self.inner.consume_char();
            crate::parser::push_char(&mut contents, c);
            proof {
                self.inner.lemma_bounds();
                assert(contents@ =~= s.subrange(p + 4, self.inner.at()));
            }
        }
        self.inner.consume_string("-->");
        proof {
            self.inner.lemma_bounds();
        }
        Ok(comment(contents))
    }

    /// Reads an element: open tag, children, close tag.
    fn parse_element(&mut self) -> (r: Result<Node, ParseError>)
        requires
            old(self).wf(),
        ensures
            final(self).wf(),
            final(self).text() == old(self).text(),
            match element_at(old(self).text(), old(self).at()) {
                Some((v, e)) => r matches Ok(n) && view_of(n) == v && final(self).at() == e,
                None => r is Err,
            },
        decreases old(self).text().len() - old(self).at(), 0int,
    {
        let ghost s = self.inner.text();
        let ghost p = self.inner.at();
        proof {
            self.inner.lemma_bounds();
        }
        if self.inner.eof() || self.inner.next_char() != '<' {
            return Err(self.inner.error());
        }
        self.inner.consume_char();
        let tag_name = self.parse_tag_name();
        proof {
            lemma_run_end_bounds(s, p + 1, |c: char| is_name_char(c));
            lemma_attrs_end(s, self.inner.at());
        }
        let attrs = match self.parse_attributes() {
            Ok(a) => a,
            Err(e) => {
                return Err(e);
            },
        };
        proof {
            self.inner.lemma_bounds();
        }
        self.inner.consume_char();
        let children = match self.parse_nodes() {
            Ok(c) => c,
            Err(e) => {
                return Err(e);
            },
        };
        let ghost r = self.inner.at();
        let closing = self.inner.starts_with("</");
        proof {
            reveal_strlit("</");
            assert("</"@ =~= close_tag());
            self.inner.lemma_starts(close_tag());
            self.inner.lemma_bounds();
        }
        if !closing {
            return Err(self.inner.error());
        }
        self.inner.consume_string("</");
        let close_name = self.parse_tag_name();
        proof {
            self.inner.lemma_bounds();
            lemma_run_end_bounds(s, r + 2, |c: char| is_name_char(c));
        }
        if close_name != tag_name {
            return Err(self.inner.error());
        }
        if self.inner.eof() || self.inner.next_char() != '>' {
            return Err(self.inner.error());
        }
        self.inner.consume_char();
        let n = elem(tag_name, attrs, children);
        proof {
            lemma_view_of_elem(n, s.subrange(p + 1, name_end(s, p + 1)), (attrs_at(s, name_end(s, p + 1))->0).0);
        }
        Ok(n)
    }

    /// Reads one node, which must start before the end of the input.
    fn parse_node(&mut self) -> (r: Result<Node, ParseError>)
        requires
            old(self).wf(),
            !old(self).inner.at_end(),
        ensures
            final(self).wf(),
            final(self).text() == old(self).text(),
            match node_at(old(self).text(), old(self).at()) {
                Some((v, e)) => r matches Ok(n) && view_of(n) == v && final(self).at() == e,
                None => r is Err,
            },
        decreases old(self).text().len() - old(self).at(), 1int,
    {
        let is_comment = self.inner.starts_with("<!--");
        proof {
            reveal_strlit("<!--");
            assert("<!--"@ =~= open_comment());
            self.inner.lemma_starts(open_comment());
            self.inner.lemma_bounds();
        }
        if is_comment {
            return self.parse_comment();
        }
        if self.inner.next_char() == '<' {
            self.parse_element()
        } else {
            Ok(self.parse_text())
        }
    }

    /// Reads sibling nodes, each after optional whitespace, up to the end of
    /// the input or a `</`.
    fn parse_nodes(&mut self) -> (r: Result<Vec<Node>, ParseError>)
        requires
            old(self).wf(),
        ensures
            final(self).wf(),
            final(self).text() == old(self).text(),
            match nodes_at(old(self).text(), old(self).at()) {
                Some((vs, e)) => r matches Ok(ns) && views_of(ns@) == vs && final(self).at() == e,
                None => r is Err,
            },
        decreases old(self).text().len() - old(self).at(), 2int,
    {
        let ghost s = self.inner.text();
        let ghost origin = self.inner.at();
        let mut nodes: Vec<Node> = Vec::new();
        proof {
            assert(views_of(nodes@) =~= Seq::<DomView>::empty());
            self.inner.lemma_bounds();
            match nodes_at(s, origin) {
                Some((vs, e)) => {
                    assert(Seq::<DomView>::empty() + vs =~= vs);
                },
                None => {},
            }
        }
        loop
            invariant
                self.inner.wf(),
                self.inner.text() == s,
                s == old(self).inner.text(),
                origin == old(self).inner.at(),
                origin <= self.inner.at(),
                nodes_at(s, origin) == match nodes_at(s, self.inner.at()) {
                    Some((vs, e)) => Some((views_of(nodes@) + vs, e)),
                    None => None,
                },
            decreases s.len() - self.inner.at(),
        {
            proof {
                self.inner.lemma_bounds();
            }
            let ghost cur = self.inner.at();
            self.inner.consume_whitespace();
            let closing = self.inner.starts_with("</");
            proof {
                reveal_strlit("</");
                assert("</"@ =~= close_tag());
                self.inner.lemma_starts(close_tag());
                self.inner.lemma_bounds();
            }
            if self.inner.eof() || closing {
                proof {
                    assert(views_of(nodes@) + Seq::<DomView>::empty() =~= views_of(nodes@));
                }
                return Ok(nodes);
            }
            let ghost q = self.inner.at();
            proof {
                lemma_node_progress(s, q);
            }
            match self.parse_node() {
                Ok(node) => {
                    let ghost before = nodes@;
                    nodes.push(node);
                    proof {
                        assert(views_of(nodes@) =~= views_of(before).push(view_of(node)));
                        match nodes_at(s, self.inner.at()) {
                            Some((vs, e)) => {
                                assert(views_of(before) + (seq![view_of(node)] + vs) =~= views_of(nodes@) + vs);
                            },
                            None => {},
                        }
                    }
                },
                Err(e) => {
                    return Err(e);
                },
            }
        }
    }
}

/// Parses a document: its one top-level node, or all of them under a new
/// `html` element. `Err` exactly where `source` is not a document.
pub fn parse(source: String) -> (r: Result<Node, ParseError>)
    ensures
        match document(source@) {
            Some(v) => r matches Ok(n) && view_of(n) == v,
            None => r is Err,
        },
{
    let mut parser = HtmlParser::new(source);
    let mut nodes = match parser.parse_nodes() {
        Ok(n) => n,
        Err(e) => {
            return Err(e);
        },
    };
    proof {
        parser.lemma_bounds();
    }
    if !parser.inner.eof() {
        return Err(parser.inner.error());
    }
    if nodes.len() == 1 {
        let n = nodes.swap_remove(0);
        Ok(n)
    } else {
        let name = "html".to_owned();
        proof {
            reveal_strlit("html");
            assert(name@ =~= html_name());
        }
        let n = elem(name, AttrMap::new(), nodes);
        proof {
            lemma_view_of_elem(n, html_name(), Map::empty());
        }
        Ok(n)
    }
}

} // verus!
