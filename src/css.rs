//! Stylesheets: rules of selectors and declarations, and their parser.
use vstd::prelude::*;
use crate::parser::{space_end, column_of, line_count, decimal, is_digit, is_space, lemma_run_end, lemma_run_end_bounds, run_end, starts_at, ParseError, Parser};

verus! {

/// (id count, class count, tag count), compared lexicographically.
pub type Specificity = (usize, usize, usize);

/// `a <= b` in the lexicographic order of specificities.
pub open spec fn spec_le(a: Specificity, b: Specificity) -> bool {
    ||| a.0 < b.0
    ||| (a.0 == b.0 && a.1 < b.1)
    ||| (a.0 == b.0 && a.1 == b.1 && a.2 <= b.2)
}

/// Whether `a` is at most as specific as `b`.
pub fn specificity_le(a: Specificity, b: Specificity) -> (r: bool)
    ensures
        r == spec_le(a, b),
{
    a.0 < b.0 || (a.0 == b.0 && a.1 < b.1) || (a.0 == b.0 && a.1 == b.1 && a.2 <= b.2)
}

#[derive(Debug)]
pub struct Stylesheet {
    pub rules: Vec<Rule>,
}

#[derive(Debug)]
pub struct Rule {
    pub selectors: Vec<Selector>,
    pub declarations: Vec<Declaration>,
}

#[derive(Debug)]
pub enum Selector {
    Simple(SimpleSelector),
}

#[derive(Debug)]
pub struct SimpleSelector {
    pub tag_name: Option<String>,
    pub id: Option<String>,
    pub class: Vec<String>,
    pub universal: bool,
}

#[derive(Debug)]
pub struct Declaration {
    pub name: String,
    pub value: Value,
}

/// A property value. A length is a whole number of pixels.
#[derive(Debug, PartialEq)]
pub enum Value {
    Keyword(String),
    Length(u32, Unit),
    ColorValue(Color),
}

#[derive(Debug, PartialEq, Eq, Clone, Copy)]
pub enum Unit {
    Px,
}

#[derive(Debug, PartialEq, Eq, Clone, Copy)]
pub struct Color {
    pub r: u8,
    pub g: u8,
    pub b: u8,
    pub a: u8,
}

impl Clone for Value {
    fn clone(&self) -> (r: Value)
        ensures
            r == *self,
    {
        match self {
            Value::Keyword(k) => Value::Keyword(k.clone()),
            Value::Length(n, u) => Value::Length(*n, *u),
            Value::ColorValue(c) => Value::ColorValue(*c),
        }
    }
}

impl Selector {
    pub open spec fn spec_specificity(&self) -> Specificity {
        let Selector::Simple(s) = *self;
        (
            if s.id is Some { 1usize } else { 0usize },
            s.class.len(),
            if s.tag_name is Some { 1usize } else { 0usize },
        )
    }

    /// How specific the selector is; a universal selector adds nothing.
    pub fn specificity(&self) -> (r: Specificity)
        ensures
            r == self.spec_specificity(),
    {
        let Selector::Simple(simple) = self;
        let a: usize = if simple.id.is_some() { 1 } else { 0 };
        let b = simple.class.len();
        let c: usize = if simple.tag_name.is_some() { 1 } else { 0 };
        (a, b, c)
    }
}

/// Whether `c` is alphabetic or numeric in Unicode's sense: what
/// `char::is_alphanumeric` returns.
pub uninterp spec fn alphanumeric(c: char) -> bool;

/// Relies on std's `char::is_alphanumeric`, whose result depends on the
/// character alone.
#[verifier::external_body]
fn char_is_alphanumeric(c: char) -> (r: bool)
    ensures
        r == alphanumeric(c),
{
    c.is_alphanumeric()
}

/// Characters of identifiers: alphanumerics, `_` and `-`.
pub open spec fn ident_char(c: char) -> bool {
    alphanumeric(c) || c == '_' || c == '-'
}

/// Whether `c` may stand in an identifier.
pub fn is_valid_identifier_char(c: char) -> (r: bool)
    ensures
        r == ident_char(c),
{
    char_is_alphanumeric(c) || c == '_' || c == '-'
}

pub open spec fn ident_end(s: Seq<char>, p: int) -> int {
    run_end(s, p, |c: char| ident_char(c))
}

pub open spec fn digit_end(s: Seq<char>, p: int) -> int {
    run_end(s, p, |c: char| is_digit(c))
}

/// Whether a selector can start with `c`.
pub open spec fn selector_start(c: char) -> bool {
    c == '#' || c == '.' || c == '*' || ident_char(c)
}

/// A simple selector as a value: tag, id, classes, universal.
pub type SelectorView = (Option<Seq<char>>, Option<Seq<char>>, Seq<Seq<char>>, bool);

/// What a selector stands for.
pub open spec fn selector_view(sel: Selector) -> SelectorView {
    let Selector::Simple(s) = sel;
    (
        match s.tag_name {
            Some(t) => Some(t@),
            None => None,
        },
        match s.id {
            Some(i) => Some(i@),
            None => None,
        },
        s.class@.map_values(|c: String| c@),
        s.universal,
    )
}

pub open spec fn view_specificity(v: SelectorView) -> (int, int, int) {
    (if v.1 is Some { 1int } else { 0int }, v.2.len() as int, if v.0 is Some { 1int } else { 0int })
}

/// `a` is strictly less specific than `b`.
pub open spec fn view_lt(a: SelectorView, b: SelectorView) -> bool {
    let (x, y) = (view_specificity(a), view_specificity(b));
    x.0 < y.0 || (x.0 == y.0 && x.1 < y.1) || (x.0 == y.0 && x.1 == y.1 && x.2 < y.2)
}

/// The rest of a simple selector from `p`, its parts so far in `acc`: the
/// whole selector and where it ends.
pub open spec fn selector_from(s: Seq<char>, p: int, acc: SelectorView) -> (SelectorView, int)
    decreases s.len() - p,
{
    if p < 0 || p >= s.len() {
        (acc, p)
    } else if s[p] == '#' {
        let e = ident_end(s, p + 1);
        if p < e <= s.len() {
            selector_from(s, e, (acc.0, Some(s.subrange(p + 1, e)), acc.2, acc.3))
        } else {
            (acc, p)
        }
    } else if s[p] == '.' {
        let e = ident_end(s, p + 1);
        if p < e <= s.len() {
            selector_from(s, e, (acc.0, acc.1, acc.2.push(s.subrange(p + 1, e)), acc.3))
        } else {
            (acc, p)
        }
    } else if s[p] == '*' {
        selector_from(s, p + 1, (acc.0, acc.1, acc.2, true))
    } else if ident_char(s[p]) {
        let e = ident_end(s, p);
        if p < e <= s.len() {
            selector_from(s, e, (Some(s.subrange(p, e)), acc.1, acc.2, acc.3))
        } else {
            (acc, p)
        }
    } else {
        (acc, p)
    }
}

pub open spec fn empty_selector() -> SelectorView {
    (None, None, Seq::empty(), false)
}

/// Places `x` after every selector of `sorted` at least as specific.
pub open spec fn insert_desc(sorted: Seq<SelectorView>, x: SelectorView) -> Seq<SelectorView>
    decreases sorted.len(),
{
    if sorted.len() == 0 {
        seq![x]
    } else if view_lt(sorted[0], x) {
        seq![x] + sorted
    } else {
        seq![sorted[0]] + insert_desc(sorted.drop_first(), x)
    }
}

/// `xs` sorted from most to least specific, equals kept in order.
pub open spec fn sort_desc(xs: Seq<SelectorView>) -> Seq<SelectorView>
    decreases xs.len(),
{
    if xs.len() == 0 {
        Seq::empty()
    } else {
        insert_desc(sort_desc(xs.drop_last()), xs.last())
    }
}

/// The selectors of a rule from `p`, each followed by optional whitespace:
/// them and where they stop.
pub open spec fn selectors_from(s: Seq<char>, p: int) -> (Seq<SelectorView>, int)
    decreases s.len() - p,
{
    if 0 <= p < s.len() && selector_start(s[p]) {
        let (v, e) = selector_from(s, p, empty_selector());
        let q = space_end(s, e);
        if p < q <= s.len() {
            let (rest, r) = selectors_from(s, q);
            (seq![v] + rest, r)
        } else {
            (seq![v], q)
        }
    } else {
        (Seq::empty(), p)
    }
}

/// A property value as a value.
pub enum ValueView {
    Keyword(Seq<char>),
    Length(u32),
    Color(u8, u8, u8, u8),
}

/// What a value stands for.
pub open spec fn value_view(v: Value) -> ValueView {
    match v {
        Value::Keyword(k) => ValueView::Keyword(k@),
        Value::Length(n, _) => ValueView::Length(n),
        Value::ColorValue(c) => ValueView::Color(c.r, c.g, c.b, c.a),
    }
}

/// A color channel from `p` (whitespace, digits, whitespace) and the
/// character `sep` after it: its value and where `sep` ends.
pub open spec fn channel_at(s: Seq<char>, p: int, sep: char) -> Option<(u8, int)> {
    let q = space_end(s, p);
    let d = digit_end(s, q);
    let e = space_end(s, d);
    if 0 <= p <= q < d <= e < s.len() && decimal(s.subrange(q, d)) <= 255 && s[e] == sep {
        Some((decimal(s.subrange(q, d)) as u8, e + 1))
    } else {
        None
    }
}

pub open spec fn rgba_open() -> Seq<char> {
    seq!['r', 'g', 'b', 'a', '(']
}

/// A value at `p`: `rgba(r, g, b, a)`, a length in `px`, or a keyword (an
/// identifier, which may be empty).
pub open spec fn value_at(s: Seq<char>, p: int) -> Option<(ValueView, int)> {
    if starts_at(s, p, rgba_open()) {
        match channel_at(s, p + 5, ',') {
            None => None,
            Some((r, e1)) => match channel_at(s, e1, ',') {
                None => None,
                Some((g, e2)) => match channel_at(s, e2, ',') {
                    None => None,
                    Some((b, e3)) => match channel_at(s, e3, ')') {
                        None => None,
                        Some((a, e4)) => Some((ValueView::Color(r, g, b, a), e4)),
                    },
                },
            },
        }
    } else {
        let d = digit_end(s, p);
        if 0 <= p < d {
            if decimal(s.subrange(p, d)) <= u32::MAX && d + 1 < s.len() && s[d] == 'p' && s[d + 1] == 'x' {
                Some((ValueView::Length(decimal(s.subrange(p, d)) as u32), d + 2))
            } else {
                None
            }
        } else {
            let e = ident_end(s, p);
            Some((ValueView::Keyword(s.subrange(p, e)), e))
        }
    }
}

/// A declaration `name: value;` at `p`, with optional whitespace around the
/// colon and before the semicolon.
pub open spec fn declaration_at(s: Seq<char>, p: int) -> Option<(Seq<char>, ValueView, int)> {
    let n = ident_end(s, p);
    let c = space_end(s, n);
    if 0 <= p <= n <= c < s.len() && s[c] == ':' {
        let v0 = space_end(s, c + 1);
        match value_at(s, v0) {
            None => None,
            Some((v, e)) => {
                let sc = space_end(s, e);
                if v0 <= e <= sc < s.len() && s[sc] == ';' {
                    Some((s.subrange(p, n), v, sc + 1))
                } else {
                    None
                }
            },
        }
    } else {
        None
    }
}

/// Declarations from `p` up to and with the closing `}`.
pub open spec fn declarations_from(s: Seq<char>, p: int) -> Option<(Seq<(Seq<char>, ValueView)>, int)>
    decreases s.len() - p,
{
    let q = space_end(s, p);
    if p < 0 || q < p || q >= s.len() {
        None
    } else if s[q] == '}' {
        Some((Seq::empty(), q + 1))
    } else {
        match declaration_at(s, q) {
            None => None,
            Some((n, v, e)) => if q < e <= s.len() {
                match declarations_from(s, e) {
                    None => None,
                    Some((ds, r)) => Some((seq![(n, v)] + ds, r)),
                }
            } else {
                None
            },
        }
    }
}

/// A rule as a value: its selectors, most specific first, and its declarations.
pub type RuleView = (Seq<SelectorView>, Seq<(Seq<char>, ValueView)>);

/// What a rule stands for.
pub open spec fn rule_view(r: Rule) -> RuleView {
    (
        r.selectors@.map_values(|x: Selector| selector_view(x)),
        r.declarations@.map_values(|d: Declaration| (d.name@, value_view(d.value))),
    )
}

/// A rule at `p`: selectors, `{`, declarations, `}`.
pub open spec fn rule_at(s: Seq<char>, p: int) -> Option<(RuleView, int)> {
    let (sels, e) = selectors_from(s, p);
    let b = space_end(s, e);
    if 0 <= p <= e <= b < s.len() && s[b] == '{' {
        match declarations_from(s, b + 1) {
            None => None,
            Some((ds, r)) => Some(((sort_desc(sels), ds), r)),
        }
    } else {
        None
    }
}

/// Rules from `p`, each after optional whitespace, while one can start: them
/// and where they stop.
pub open spec fn rules_from(s: Seq<char>, p: int) -> Option<(Seq<RuleView>, int)>
    decreases s.len() - p,
{
    let q = space_end(s, p);
    if p < 0 || q < p {
        None
    } else if q >= s.len() || !selector_start(s[q]) {
        Some((Seq::empty(), q))
    } else {
        match rule_at(s, q) {
            None => None,
            Some((r, e)) => if q < e <= s.len() {
                match rules_from(s, e) {
                    None => None,
                    Some((rs, t)) => Some((seq![r] + rs, t)),
                }
            } else {
                None
            },
        }
    }
}

/// The stylesheet that `s` holds: `None` where it is not one.
pub open spec fn stylesheet_of(s: Seq<char>) -> Option<Seq<RuleView>> {
    match rules_from(s, 0) {
        Some((rs, e)) => if e == s.len() {
            Some(rs)
        } else {
            None
        },
        None => None,
    }
}

proof fn lemma_selector_from_bounds(s: Seq<char>, p: int, acc: SelectorView)
    requires
        0 <= p <= s.len(),
    ensures
        p <= selector_from(s, p, acc).1 <= s.len(),
        p < s.len() && selector_start(s[p]) ==> p < selector_from(s, p, acc).1,
    decreases s.len() - p,
{
    if p < s.len() {
        if s[p] == '#' || s[p] == '.' {
            lemma_run_end_bounds(s, p + 1, |c: char| ident_char(c));
            let e = ident_end(s, p + 1);
            if s[p] == '#' {
                lemma_selector_from_bounds(s, e, (acc.0, Some(s.subrange(p + 1, e)), acc.2, acc.3));
            } else {
                lemma_selector_from_bounds(s, e, (acc.0, acc.1, acc.2.push(s.subrange(p + 1, e)), acc.3));
            }
        } else if s[p] == '*' {
            lemma_selector_from_bounds(s, p + 1, (acc.0, acc.1, acc.2, true));
        } else if ident_char(s[p]) {
            lemma_run_end_bounds(s, p + 1, |c: char| ident_char(c));
            let e = ident_end(s, p);
            assert(e == run_end(s, p + 1, |c: char| ident_char(c)));
            lemma_selector_from_bounds(s, e, (Some(s.subrange(p, e)), acc.1, acc.2, acc.3));
        }
    }
}

/// `insert_desc` places `x` before the first selector less specific than it.
proof fn lemma_insert_desc(sorted: Seq<SelectorView>, x: SelectorView, j: int)
    requires
        0 <= j <= sorted.len(),
        forall|i: int| 0 <= i < j ==> !view_lt(#[trigger] sorted[i], x),
        j == sorted.len() || view_lt(sorted[j], x),
    ensures
        insert_desc(sorted, x) == sorted.insert(j, x),
    decreases sorted.len(),
{
    if sorted.len() == 0 {
        assert(sorted.insert(j, x) =~= seq![x]);
    } else if j == 0 {
        assert(sorted.insert(j, x) =~= seq![x] + sorted);
    } else {
        let t = sorted.drop_first();
        assert forall|i: int| 0 <= i < j - 1 implies !view_lt(#[trigger] t[i], x) by {
            assert(t[i] == sorted[i + 1]);
        }
        lemma_insert_desc(t, x, j - 1);
        assert(sorted.insert(j, x) =~= seq![sorted[0]] + t.insert(j - 1, x));
    }
}

proof fn lemma_lt_matches(a: Selector, b: Selector)
    ensures
        view_lt(selector_view(a), selector_view(b)) == !spec_le(b.spec_specificity(), a.spec_specificity()),
{
}

fn specificity_lt(a: Specificity, b: Specificity) -> (r: bool)
    ensures
        r == !spec_le(b, a),
{
    !specificity_le(b, a)
}

/// Sorts `selectors` from most to least specific, keeping equals in order.
fn sort_selectors(selectors: Vec<Selector>) -> (r: Vec<Selector>)
    ensures
        r@.map_values(|x: Selector| selector_view(x)) == sort_desc(selectors@.map_values(|x: Selector| selector_view(x))),
{
    let ghost vs = selectors@.map_values(|x: Selector| selector_view(x));
    let mut sorted: Vec<Selector> = Vec::new();
    let mut rest = selectors;
    let ghost n: int = vs.len() as int;
    assert(sorted@.map_values(|x: Selector| selector_view(x)) =~= sort_desc(vs.take(0)));
    while rest.len() > 0
        invariant
            rest@.len() <= n,
            n == vs.len(),
            forall|i: int| 0 <= i < rest@.len() ==> selector_view(#[trigger] rest@[i]) == vs[n - rest@.len() + i],
            sorted@.map_values(|x: Selector| selector_view(x)) == sort_desc(vs.take(n - rest@.len())),
        decreases rest.len(),
    {
        let ghost k: int = n - rest@.len();
        let x = rest.remove(0);
        let ghost xv = selector_view(x);
        assert(xv == vs[k]);
        let xs = x.specificity();
        let mut j: usize = 0;
        let ghost sv = sorted@.map_values(|y: Selector| selector_view(y));
        while j < sorted.len() && !specificity_lt(sorted[j].specificity(), xs)
            invariant
                j <= sorted.len(),
                sv == sorted@.map_values(|y: Selector| selector_view(y)),
                xs == x.spec_specificity(),
                xv == selector_view(x),
                forall|i: int| 0 <= i < j ==> !view_lt(#[trigger] sv[i], xv),
            decreases sorted.len() - j,
        {
            proof {
                lemma_lt_matches(sorted@[j as int], x);
            }
            j = j + 1;
        }
        proof {
            if j < sorted.len() {
                lemma_lt_matches(sorted@[j as int], x);
            }
            lemma_insert_desc(sv, xv, j as int);
            assert(vs.take(k + 1).drop_last() =~= vs.take(k));
            assert(vs.take(k + 1).last() == xv);
        }
        sorted.insert(j, x);
        proof {
            assert(sorted@.map_values(|y: Selector| selector_view(y)) =~= sv.insert(j as int, xv));
        }
    }
    proof {
        assert(vs.take(n) =~= vs);
    }
    sorted
}

proof fn lemma_value_end(s: Seq<char>, p: int)
    requires
        0 <= p <= s.len(),
    ensures
        value_at(s, p) matches Some((v, e)) ==> p <= e <= s.len(),
{
    lemma_run_end_bounds(s, p, |c: char| ident_char(c));
}

proof fn lemma_declaration_end(s: Seq<char>, p: int)
    ensures
        declaration_at(s, p) matches Some((n, v, e)) ==> p < e <= s.len(),
{
    let n = ident_end(s, p);
    let c = space_end(s, n);
    if 0 <= p <= n <= c < s.len() && s[c] == ':' {
        lemma_run_end_bounds(s, c + 1, |c: char| is_space(c));
    }
}

proof fn lemma_rule_end(s: Seq<char>, p: int)
    requires
        0 <= p < s.len(),
        selector_start(s[p]),
    ensures
        rule_at(s, p) matches Some((v, e)) ==> p < e <= s.len(),
{
    let (sels, e) = selectors_from(s, p);
    let b = space_end(s, e);
    if 0 <= p <= e <= b < s.len() && s[b] == '{' {
        lemma_declarations_end(s, b + 1);
    }
}

proof fn lemma_declarations_end(s: Seq<char>, p: int)
    ensures
        declarations_from(s, p) matches Some((ds, r)) ==> p < r <= s.len(),
    decreases s.len() - p,
{
    let q = space_end(s, p);
    if !(p < 0 || q < p || q >= s.len()) && s[q] != '}' {
        match declaration_at(s, q) {
            Some((n, v, e)) => {
                if q < e <= s.len() {
                    lemma_declarations_end(s, e);
                }
            },
            None => {},
        }
    }
}

/// Where the rules of `s` stop short of its end, if they do.
pub open spec fn stray_at(s: Seq<char>) -> Option<int> {
    match rules_from(s, 0) {
        Some((rs, q)) => if q < s.len() {
            Some(q)
        } else {
            None
        },
        None => None,
    }
}

/// Parses a stylesheet. `Err` exactly where `source` is not one; where rules
/// stop before the end, the error gives the place and the character there.
pub fn parse(source: String) -> (r: Result<Stylesheet, ParseError>)
    ensures
        match stylesheet_of(source@) {
            Some(rs) => r matches Ok(sheet) && sheet.rules@.map_values(|x: Rule| rule_view(x)) == rs,
            None => r is Err,
        },
        stray_at(source@) matches Some(q) ==> (r matches Err(e) && e.found == Some(source@[q])
            && e.pos.line == line_count(source@.take(q)) && e.pos.column == column_of(source@.take(q))),
{
    let mut parser = CssParser::new(source);
    parser.parse_stylesheet()
}

struct CssParser {
    inner: Parser,
}

impl CssParser {
    fn new(input: String) -> (r: CssParser)
        ensures
            r.inner.wf(),
            r.inner.text() == input@,
            r.inner.at() == 0,
    {
        CssParser { inner: Parser::new(input) }
    }

    /// Whether a rule can start at the cursor, which is not at the end.
    fn can_start_rule(&self) -> (r: bool)
        requires
            self.inner.wf(),
            !self.inner.at_end(),
        ensures
            r == selector_start(self.inner.text()[self.inner.at()]),
    {
        self.can_start_simple_selector()
    }

    /// Whether a selector can start at the cursor, which is not at the end.
    fn can_start_simple_selector(&self) -> (r: bool)
        requires
            self.inner.wf(),
            !self.inner.at_end(),
        ensures
            r == selector_start(self.inner.text()[self.inner.at()]),
    {
        let next = self.inner.next_char();
        next == '#' || next == '.' || next == '*' || is_valid_identifier_char(next)
    }

    fn parse_identifier(&mut self) -> (r: String)
        requires
            old(self).inner.wf(),
        ensures
            final(self).inner.wf(),
            final(self).inner.text() == old(self).inner.text(),
            final(self).inner.at() == ident_end(old(self).inner.text(), old(self).inner.at()),
            r@ == old(self).inner.text().subrange(old(self).inner.at(), final(self).inner.at()),
    {
        let r = self.inner.consume_while(is_valid_identifier_char);
        proof {
            let s = self.inner.text();
            self.inner.lemma_bounds();
            old(self).inner.lemma_bounds();
            assert forall|i: int| old(self).inner.at() <= i < self.inner.at() implies ident_char(s[i]) by {
                assert(is_valid_identifier_char.ensures((s[i],), true));
            }
            if self.inner.at() < s.len() {
                assert(is_valid_identifier_char.ensures((s[self.inner.at()],), false));
            }
            assert(crate::parser::all_in(s, old(self).inner.at(), self.inner.at(), |c: char| ident_char(c)));
            lemma_run_end(s, old(self).inner.at(), self.inner.at(), |c: char| ident_char(c));
        }
        r
    }

    fn skip_whitespace(&mut self)
        requires
            old(self).inner.wf(),
        ensures
            final(self).inner.wf(),
            final(self).inner.text() == old(self).inner.text(),
            final(self).inner.at() == space_end(old(self).inner.text(), old(self).inner.at()),
    {
        self.inner.consume_whitespace();
    }

    /// Reads a simple selector such as `tag#id.class1.class2`.
    fn parse_simple_selector(&mut self) -> (r: SimpleSelector)
        requires
            old(self).inner.wf(),
        ensures
            final(self).inner.wf(),
            final(self).inner.text() == old(self).inner.text(),
            (selector_view(Selector::Simple(r)), final(self).inner.at())
                == selector_from(old(self).inner.text(), old(self).inner.at(), empty_selector()),
    {
        let ghost s = self.inner.text();
        let ghost origin = self.inner.at();
        let mut selector = SimpleSelector { tag_name: None, id: None, class: Vec::new(), universal: false };
        proof {
            assert(selector_view(Selector::Simple(selector)) =~= empty_selector());
            self.inner.lemma_bounds();
        }
        while !self.inner.eof()
            invariant
                self.inner.wf(),
                self.inner.text() == s,
                s == old(self).inner.text(),
                origin == old(self).inner.at(),
                selector_from(s, origin, empty_selector()) == selector_from(s, self.inner.at(), selector_view(Selector::Simple(selector))),
            decreases s.len() - self.inner.at(),
        {
            proof {
                self.inner.lemma_bounds();
            }
            let ghost p = self.inner.at();
            let ghost acc = selector_view(Selector::Simple(selector));
            let c = self.inner.next_char();
            if c == '#' {
                self.inner.consume_char();
                let id = self.parse_identifier();
                proof {
                    lemma_run_end_bounds(s, p + 1, |c: char| ident_char(c));
                }
                selector.id = Some(id);
                proof {
                    assert(selector_view(Selector::Simple(selector)) =~= (acc.0, Some(s.subrange(p + 1, self.inner.at())), acc.2, acc.3));
                }
            } else if c == '.' {
                self.inner.consume_char();
                let class = self.parse_identifier();
                proof {
                    lemma_run_end_bounds(s, p + 1, |c: char| ident_char(c));
                }
                let ghost prev = selector.class@;
                selector.class.push(class);
                proof {
                    assert(selector.class@.map_values(|c: String| c@) =~= prev.map_values(|c: String| c@).push(s.subrange(p + 1, self.inner.at())));
                    assert(selector_view(Selector::Simple(selector)) =~= (acc.0, acc.1, acc.2.push(s.subrange(p + 1, self.inner.at())), acc.3));
                }
            } else if c == '*' {
                self.inner.consume_char();
                selector.universal = true;
                proof {
                    assert(selector_view(Selector::Simple(selector)) =~= (acc.0, acc.1, acc.2, true));
                }
            } else if is_valid_identifier_char(c) {
                let tag = self.parse_identifier();
                proof {
                    lemma_run_end_bounds(s, p + 1, |c: char| ident_char(c));
                    assert(ident_end(s, p) == run_end(s, p + 1, |c: char| ident_char(c)));
                }
                selector.tag_name = Some(tag);
                proof {
                    assert(selector_view(Selector::Simple(selector)) =~= (Some(s.subrange(p, self.inner.at())), acc.1, acc.2, acc.3));
                }
            } else {
                return selector;
            }
        }
        selector
    }

    fn parse_selector(&mut self) -> (r: Option<Selector>)
        requires
            old(self).inner.wf(),
        ensures
            final(self).inner.wf(),
            final(self).inner.text() == old(self).inner.text(),
            ({
                let s = old(self).inner.text();
                let p = old(self).inner.at();
                if p < s.len() && selector_start(s[p]) {
                    r matches Some(sel) && (selector_view(sel), final(self).inner.at()) == selector_from(s, p, empty_selector())
                } else {
                    r is None && final(self).inner.at() == p
                }
            }),
    {
        proof {
            self.inner.lemma_bounds();
        }
        if !self.inner.eof() && self.can_start_simple_selector() {
            return Some(Selector::Simple(self.parse_simple_selector()));
        }
        None
    }
    /// Reads a color channel (whitespace, digits, whitespace) and the `sep` after it.
    fn parse_channel(&mut self, sep: char) -> (r: Result<u8, ParseError>)
        requires
            old(self).inner.wf(),
        ensures
            final(self).inner.wf(),
            final(self).inner.text() == old(self).inner.text(),
            match channel_at(old(self).inner.text(), old(self).inner.at(), sep) {
                Some((v, e)) => r == Ok::<u8, ParseError>(v) && final(self).inner.at() == e,
                None => r is Err,
            },
    {
        let ghost s = self.inner.text();
        proof {
            old(self).inner.lemma_bounds();
        }
        self.skip_whitespace();
        let ghost q = self.inner.at();
        let value = self.inner.consume_byte();
        proof {
            self.inner.lemma_bounds();
            lemma_run_end(s, q, self.inner.at(), |c: char| is_digit(c));
            lemma_run_end_bounds(s, old(self).inner.at(), |c: char| is_space(c));
        }
        let ghost d = self.inner.at();
        self.skip_whitespace();
        proof {
            self.inner.lemma_bounds();
            lemma_run_end_bounds(s, d, |c: char| is_space(c));
        }
        match value {
            Some(v) => {
                if self.inner.eof() || self.inner.next_char() != sep {
                    return Err(self.inner.error());
                }
                self.inner.consume_char();
                Ok(v)
            },
            None => Err(self.inner.error()),
        }
    }

    /// Reads a value: a color, a length or a keyword.
    fn parse_value(&mut self) -> (r: Result<Value, ParseError>)
        requires
            old(self).inner.wf(),
        ensures
            final(self).inner.wf(),
            final(self).inner.text() == old(self).inner.text(),
            match value_at(old(self).inner.text(), old(self).inner.at()) {
                Some((v, e)) => r matches Ok(x) && value_view(x) == v && final(self).inner.at() == e,
                None => r is Err,
            },
    {
        let ghost s = self.inner.text();
        let ghost p = self.inner.at();
        let is_color = self.inner.starts_with("rgba(");
        proof {
            reveal_strlit("rgba(");
            assert("rgba("@ =~= rgba_open());
            self.inner.lemma_starts(rgba_open());
            self.inner.lemma_bounds();
        }
        if is_color {
            self.inner.consume_string("rgba(");
            let r = match self.parse_channel(',') {
                Ok(v) => v,
                Err(e) => {
                    return Err(e);
                },
            };
            let g = match self.parse_channel(',') {
                Ok(v) => v,
                Err(e) => {
                    return Err(e);
                },
            };
            let b = match self.parse_channel(',') {
                Ok(v) => v,
                Err(e) => {
                    return Err(e);
                },
            };
            let a = match self.parse_channel(')') {
                Ok(v) => v,
                Err(e) => {
                    return Err(e);
                },
            };
            return Ok(Value::ColorValue(Color { r, g, b, a }));
        }
        let digits = self.inner.consume_digits();
        proof {
            self.inner.lemma_bounds();
            lemma_run_end(s, p, self.inner.at(), |c: char| is_digit(c));
        }
        if !digits.as_str().is_empty() {
            let number = crate::parser::parse_u32(digits.as_str());
            let n = match number {
                Some(n) => n,
                None => {
                    return Err(self.inner.error());
                },
            };
            if self.inner.eof() || self.inner.next_char() != 'p' {
                return Err(self.inner.error());
            }
            self.inner.consume_char();
            if self.inner.eof() || self.inner.next_char() != 'x' {
                return Err(self.inner.error());
            }
            self.inner.consume_char();
            return Ok(Value::Length(n, Unit::Px));
        }
        let keyword = self.parse_identifier();
        Ok(Value::Keyword(keyword))
    }
    /// Reads a declaration `name: value;`.
    fn parse_declaration(&mut self) -> (r: Result<Declaration, ParseError>)
        requires
            old(self).inner.wf(),
        ensures
            final(self).inner.wf(),
            final(self).inner.text() == old(self).inner.text(),
            match declaration_at(old(self).inner.text(), old(self).inner.at()) {
                Some((n, v, e)) => r matches Ok(d) && d.name@ == n && value_view(d.value) == v && final(self).inner.at() == e,
                None => r is Err,
            },
    {
        let ghost s = self.inner.text();
        let ghost p = self.inner.at();
        proof {
            self.inner.lemma_bounds();
            lemma_run_end_bounds(s, p, |c: char| ident_char(c));
        }
        let name = self.parse_identifier();
        proof {
            lemma_run_end_bounds(s, self.inner.at(), |c: char| is_space(c));
        }
        self.skip_whitespace();
        proof {
            self.inner.lemma_bounds();
        }
        if self.inner.eof() || self.inner.next_char() != ':' {
            return Err(self.inner.error());
        }
        self.inner.consume_char();
        proof {
            self.inner.lemma_bounds();
            lemma_run_end_bounds(s, self.inner.at(), |c: char| is_space(c));
        }
        self.skip_whitespace();
        let ghost v0 = self.inner.at();
        let value = match self.parse_value() {
            Ok(v) => v,
            Err(e) => {
                return Err(e);
            },
        };
        proof {
            self.inner.lemma_bounds();
            lemma_run_end_bounds(s, self.inner.at(), |c: char| is_space(c));
            lemma_value_end(s, v0);
        }
        self.skip_whitespace();
        proof {
            self.inner.lemma_bounds();
        }
        if self.inner.eof() || self.inner.next_char() != ';' {
            return Err(self.inner.error());
        }
        self.inner.consume_char();
        Ok(Declaration { name, value })
    }

    /// Reads a rule: selectors, sorted from most to least specific, then
    /// declarations in braces.
    fn parse_rule(&mut self) -> (r: Result<Rule, ParseError>)
        requires
            old(self).inner.wf(),
        ensures
            final(self).inner.wf(),
            final(self).inner.text() == old(self).inner.text(),
            match rule_at(old(self).inner.text(), old(self).inner.at()) {
                Some((v, e)) => r matches Ok(x) && rule_view(x) == v && final(self).inner.at() == e,
                None => r is Err,
            },
    {
        let ghost s = self.inner.text();
        let ghost p = self.inner.at();
        let mut selectors: Vec<Selector> = Vec::new();
        proof {
            self.inner.lemma_bounds();
            assert(selectors@.map_values(|x: Selector| selector_view(x)) + selectors_from(s, p).0 =~= selectors_from(s, p).0);
        }
        loop
            invariant
                self.inner.wf(),
                self.inner.text() == s,
                s == old(self).inner.text(),
                p == old(self).inner.at(),
                p <= self.inner.at(),
                selectors_from(s, p) == (
                    selectors@.map_values(|x: Selector| selector_view(x)) + selectors_from(s, self.inner.at()).0,
                    selectors_from(s, self.inner.at()).1,
                ),
            ensures
                self.inner.wf(),
                self.inner.text() == s,
                p <= self.inner.at(),
                selectors_from(s, p) == (selectors@.map_values(|x: Selector| selector_view(x)), self.inner.at()),
            decreases s.len() - self.inner.at(),
        {
            proof {
                self.inner.lemma_bounds();
            }
            let ghost cur = self.inner.at();
            let ghost before = selectors@;
            match self.parse_selector() {
                Some(selector) => {
                    proof {
                        lemma_selector_from_bounds(s, cur, empty_selector());
                        self.inner.lemma_bounds();
                        lemma_run_end_bounds(s, self.inner.at(), |c: char| is_space(c));
                    }
                    selectors.push(selector);
                    self.skip_whitespace();
                    proof {
                        let vs = selectors@.map_values(|x: Selector| selector_view(x));
                        assert(vs =~= before.map_values(|x: Selector| selector_view(x)).push(selector_view(selector)));
                        let rest = selectors_from(s, self.inner.at()).0;
                        assert(before.map_values(|x: Selector| selector_view(x)) + (seq![selector_view(selector)] + rest) =~= vs + rest);
                    }
                },
                None => {
                    proof {
                        assert(selectors@.map_values(|x: Selector| selector_view(x)) + Seq::<SelectorView>::empty() =~= selectors@.map_values(|x: Selector| selector_view(x)));
                    }
                    break;
                },
            }
        }
        let selectors = sort_selectors(selectors);
        let ghost e = self.inner.at();
        proof {
            self.inner.lemma_bounds();
            lemma_run_end_bounds(s, e, |c: char| is_space(c));
        }
        self.skip_whitespace();
        proof {
            self.inner.lemma_bounds();
        }
        if self.inner.eof() || self.inner.next_char() != '{' {
            return Err(self.inner.error());
        }
        self.inner.consume_char();
        let ghost b1 = self.inner.at();
        let ghost sv = sort_desc(selectors_from(s, p).0);
        assert(rule_at(s, p) == match declarations_from(s, b1) {
            Some((ds, t)) => Some::<(RuleView, int)>(((sv, ds), t)),
            None => None,
        });
        let mut declarations: Vec<Declaration> = Vec::new();
        proof {
            match declarations_from(s, b1) {
                Some((ds, t)) => {
                    assert(declarations@.map_values(|d: Declaration| (d.name@, value_view(d.value))) + ds =~= ds);
                },
                None => {},
            }
        }
        loop
            invariant
                self.inner.wf(),
                self.inner.text() == s,
                s == old(self).inner.text(),
                b1 <= self.inner.at(),
                0 <= b1,
                p == old(self).inner.at(),
                selectors@.map_values(|x: Selector| selector_view(x)) == sv,
                rule_at(s, p) == match declarations_from(s, b1) {
                    Some((ds, t)) => Some::<(RuleView, int)>(((sv, ds), t)),
                    None => None,
                },
                declarations_from(s, b1) == match declarations_from(s, self.inner.at()) {
                    Some((ds, t)) => Some((declarations@.map_values(|d: Declaration| (d.name@, value_view(d.value))) + ds, t)),
                    None => None,
                },
            decreases s.len() - self.inner.at(),
        {
            proof {
                self.inner.lemma_bounds();
                lemma_run_end_bounds(s, self.inner.at(), |c: char| is_space(c));
            }
            self.skip_whitespace();
            proof {
                self.inner.lemma_bounds();
            }
            if self.inner.eof() {
                return Err(self.inner.error());
            }
            if self.inner.next_char() == '}' {
                self.inner.consume_char();
                let rule = Rule { selectors, declarations };
                proof {
                    let dv = declarations@.map_values(|d: Declaration| (d.name@, value_view(d.value)));
                    assert(dv + Seq::<(Seq<char>, ValueView)>::empty() =~= dv);
                }
                return Ok(rule);
            }
            let ghost q = self.inner.at();
            let ghost before = declarations@;
            match self.parse_declaration() {
                Ok(d) => {
                    proof {
                        lemma_declaration_end(s, q);
                    }
                    declarations.push(d);
                    proof {
                        let f = |d: Declaration| (d.name@, value_view(d.value));
                        assert(declarations@.map_values(f) =~= before.map_values(f).push((d.name@, value_view(d.value))));
                        match declarations_from(s, self.inner.at()) {
                            Some((ds, t)) => {
                                assert(before.map_values(f) + (seq![(d.name@, value_view(d.value))] + ds) =~= declarations@.map_values(f) + ds);
                            },
                            None => {},
                        }
                    }
                },
                Err(e) => {
                    return Err(e);
                },
            }
        }
    }
    /// Reads rules while one can start, then wants the end of the input.
    fn parse_stylesheet(&mut self) -> (r: Result<Stylesheet, ParseError>)
        requires
            old(self).inner.wf(),
            old(self).inner.at() == 0,
        ensures
            match stylesheet_of(old(self).inner.text()) {
                Some(rs) => r matches Ok(sheet) && sheet.rules@.map_values(|x: Rule| rule_view(x)) == rs,
                None => r is Err,
            },
            ({
                let s = old(self).inner.text();
                stray_at(s) matches Some(q) ==> (r matches Err(e) && e.found == Some(s[q])
                    && e.pos.line == line_count(s.take(q)) && e.pos.column == column_of(s.take(q)))
            }),
    {
        let ghost s = self.inner.text();
        let mut rules: Vec<Rule> = Vec::new();
        proof {
            match rules_from(s, 0) {
                Some((rs, t)) => {
                    assert(rules@.map_values(|x: Rule| rule_view(x)) + rs =~= rs);
                },
                None => {},
            }
        }
        loop
            invariant
                self.inner.wf(),
                self.inner.text() == s,
                s == old(self).inner.text(),
                rules_from(s, 0) == match rules_from(s, self.inner.at()) {
                    Some((rs, t)) => Some((rules@.map_values(|x: Rule| rule_view(x)) + rs, t)),
                    None => None,
                },
            decreases s.len() - self.inner.at(),
        {
            proof {
                self.inner.lemma_bounds();
                lemma_run_end_bounds(s, self.inner.at(), |c: char| is_space(c));
            }
            self.skip_whitespace();
            proof {
                self.inner.lemma_bounds();
            }
            if self.inner.eof() || !self.can_start_rule() {
                proof {
                    let rv = rules@.map_values(|x: Rule| rule_view(x));
                    assert(rv + Seq::<RuleView>::empty() =~= rv);
                }
                if !self.inner.eof() {
                    return Err(self.inner.error());
                }
                return Ok(Stylesheet { rules });
            }
            let ghost q = self.inner.at();
            let ghost before = rules@;
            match self.parse_rule() {
                Ok(rule) => {
                    proof {
                        lemma_rule_end(s, q);
                    }
                    rules.push(rule);
                    proof {
                        let f = |x: Rule| rule_view(x);
                        assert(rules@.map_values(f) =~= before.map_values(f).push(rule_view(rule)));
                        match rules_from(s, self.inner.at()) {
                            Some((rs, t)) => {
                                assert(before.map_values(f) + (seq![rule_view(rule)] + rs) =~= rules@.map_values(f) + rs);
                            },
                            None => {},
                        }
                    }
                },
                Err(e) => {
                    return Err(e);
                },
            }
        }
    }
}

/// No selector of `xs` is less specific than one after it.
pub open spec fn sorted_desc(xs: Seq<SelectorView>) -> bool {
    forall|i: int, j: int| 0 <= i < j < xs.len() ==> !view_lt(#[trigger] xs[i], #[trigger] xs[j])
}

proof fn lemma_insert_desc_parts(sorted: Seq<SelectorView>, x: SelectorView)
    ensures
        insert_desc(sorted, x).len() == sorted.len() + 1,
        forall|k: int|
            0 <= k < insert_desc(sorted, x).len() ==> #[trigger] insert_desc(sorted, x)[k] == x || sorted.contains(
                insert_desc(sorted, x)[k],
            ),
    decreases sorted.len(),
{
    if sorted.len() > 0 && !view_lt(sorted[0], x) {
        let t = sorted.drop_first();
        lemma_insert_desc_parts(t, x);
        let r = insert_desc(sorted, x);
        assert forall|k: int| 0 <= k < r.len() implies #[trigger] r[k] == x || sorted.contains(r[k]) by {
            if k == 0 {
                assert(sorted[0] == r[0]);
            } else {
                assert(r[k] == insert_desc(t, x)[k - 1]);
                if r[k] != x {
                    let m = choose|m: int| 0 <= m < t.len() && t[m] == r[k];
                    assert(sorted[m + 1] == r[k]);
                }
            }
        }
    } else if sorted.len() > 0 {
        let r = insert_desc(sorted, x);
        assert forall|k: int| 0 <= k < r.len() implies #[trigger] r[k] == x || sorted.contains(r[k]) by {
            if k > 0 {
                assert(r[k] == sorted[k - 1]);
            }
        }
    }
}

proof fn lemma_insert_desc_sorted(sorted: Seq<SelectorView>, x: SelectorView)
    requires
        sorted_desc(sorted),
    ensures
        sorted_desc(insert_desc(sorted, x)),
    decreases sorted.len(),
{
    lemma_insert_desc_parts(sorted, x);
    let r = insert_desc(sorted, x);
    if sorted.len() > 0 {
        if view_lt(sorted[0], x) {
            assert forall|i: int, j: int| 0 <= i < j < r.len() implies !view_lt(#[trigger] r[i], #[trigger] r[j]) by {
                if i > 0 {
                    assert(r[i] == sorted[i - 1] && r[j] == sorted[j - 1]);
                } else if j > 1 {
                    assert(r[j] == sorted[j - 1]);
                    assert(!view_lt(sorted[0], sorted[j - 1]));
                }
            }
        } else {
            let t = sorted.drop_first();
            assert(sorted_desc(t)) by {
                assert forall|i: int, j: int| 0 <= i < j < t.len() implies !view_lt(#[trigger] t[i], #[trigger] t[j]) by {
                    assert(t[i] == sorted[i + 1] && t[j] == sorted[j + 1]);
                }
            }
            lemma_insert_desc_sorted(t, x);
            lemma_insert_desc_parts(t, x);
            let rt = insert_desc(t, x);
            assert forall|i: int, j: int| 0 <= i < j < r.len() implies !view_lt(#[trigger] r[i], #[trigger] r[j]) by {
                if i > 0 {
                    assert(r[i] == rt[i - 1] && r[j] == rt[j - 1]);
                } else {
                    assert(r[j] == rt[j - 1]);
                    if rt[j - 1] != x {
                        let m = choose|m: int| 0 <= m < t.len() && t[m] == rt[j - 1];
                        assert(!view_lt(sorted[0], sorted[m + 1]));
                    }
                }
            }
        }
    }
}

/// The selectors of a rule, as sorted after parsing, run from most to least
/// specific.
pub proof fn lemma_sort_desc_sorted(xs: Seq<SelectorView>)
    ensures
        sorted_desc(sort_desc(xs)),
        sort_desc(xs).len() == xs.len(),
    decreases xs.len(),
{
    if xs.len() > 0 {
        lemma_sort_desc_sorted(xs.drop_last());
        lemma_insert_desc_sorted(sort_desc(xs.drop_last()), xs.last());
        lemma_insert_desc_parts(sort_desc(xs.drop_last()), xs.last());
    }
}

} // verus!
