//! Style resolution: selector matching, specificity and the cascade.
use vstd::prelude::*;
use crate::css::{selector_view, sorted_desc, view_lt, spec_le, specificity_le, Declaration, Rule, Selector, SimpleSelector, Specificity, Stylesheet, Value};
use crate::dom::{ElementData, Node, NodeType};

verus! {

/// The map that a list of (name, value) pairs stands for: a later pair
/// overrides an earlier one with the same name.
pub open spec fn table_view<V>(s: Seq<(String, V)>) -> Map<Seq<char>, V>
    decreases s.len(),
{
    if s.len() == 0 {
        Map::empty()
    } else {
        table_view(s.drop_last()).insert(s.last().0@, s.last().1)
    }
}

proof fn lemma_table_prefix<V>(s: Seq<(String, V)>, n: int, k: Seq<char>)
    requires
        0 <= n <= s.len(),
        forall|j: int| n <= j < s.len() ==> #[trigger] s[j].0@ != k,
    ensures
        table_view(s).contains_key(k) == table_view(s.take(n)).contains_key(k),
        table_view(s).contains_key(k) ==> table_view(s)[k] == table_view(s.take(n))[k],
    decreases s.len() - n,
{
    if n < s.len() {
        assert(s.take(n + 1).drop_last() =~= s.take(n));
        assert(s.take(n + 1).last() == s[n]);
        lemma_table_prefix(s, n + 1, k);
    } else {
        assert(s.take(n) =~= s);
    }
}

/// The value that `entries` holds for `name`, the latest pair winning.
fn lookup<'a, V>(entries: &'a Vec<(String, V)>, name: &str) -> (r: Option<&'a V>)
    ensures
        r matches Some(v) ==> table_view(entries@).contains_key(name@) && table_view(entries@)[name@] == *v,
        r is None ==> !table_view(entries@).contains_key(name@),
{
    let key = name.to_owned();
    let mut i = entries.len();
    while i > 0
        invariant
            i <= entries.len(),
            key@ == name@,
            forall|j: int| i <= j < entries.len() ==> #[trigger] entries@[j].0@ != name@,
        decreases i,
    {
        i = i - 1;
        if entries[i].0 == key {
            proof {
                lemma_table_prefix(entries@, i + 1, name@);
                assert(entries@.take(i + 1).drop_last() =~= entries@.take(i as int));
            }
            return Some(&entries[i].1);
        }
    }
    proof {
        lemma_table_prefix(entries@, 0, name@);
    }
    None
}

/// Map from property names to values.
#[derive(Debug)]
pub struct PropertyMap {
    entries: Vec<(String, Value)>,
}

impl View for PropertyMap {
    type V = Map<Seq<char>, Value>;

    closed spec fn view(&self) -> Map<Seq<char>, Value> {
        table_view(self.entries@)
    }
}

impl PropertyMap {
    pub fn new() -> (r: PropertyMap)
        ensures
            r@ == Map::<Seq<char>, Value>::empty(),
    {
        PropertyMap { entries: Vec::new() }
    }

    pub fn get(&self, name: &str) -> (r: Option<&Value>)
        ensures
            r matches Some(v) ==> self@.contains_key(name@) && self@[name@] == *v,
            r is None ==> !self@.contains_key(name@),
    {
        lookup(&self.entries, name)
    }
}

/// Whether `sel` matches `e`: each of its parts that is there agrees with the element.
pub open spec fn simple_matches(e: ElementData, sel: SimpleSelector) -> bool {
    &&& (sel.tag_name matches Some(t) ==> t@ == e.tag_name@)
    &&& (sel.id matches Some(i) ==> e.id_of() == Some(i@))
    &&& forall|j: int| 0 <= j < sel.class@.len() ==> e.class_list().contains(#[trigger] sel.class@[j]@)
}

pub open spec fn selector_matches(e: ElementData, sel: Selector) -> bool {
    let Selector::Simple(s) = sel;
    simple_matches(e, s)
}

/// Specificity of the first selector of `sels` that matches `e`.
pub open spec fn first_match(e: ElementData, sels: Seq<Selector>) -> Option<Specificity>
    decreases sels.len(),
{
    if sels.len() == 0 {
        None
    } else if selector_matches(e, sels[0]) {
        Some(sels[0].spec_specificity())
    } else {
        first_match(e, sels.drop_first())
    }
}

/// The rules that match `e`, in order, each with its specificity.
pub open spec fn matched(e: ElementData, rules: Seq<Rule>) -> Seq<(Specificity, Rule)>
    decreases rules.len(),
{
    if rules.len() == 0 {
        Seq::empty()
    } else {
        let m = matched(e, rules.drop_last());
        match first_match(e, rules.last().selectors@) {
            Some(s) => m.push((s, rules.last())),
            None => m,
        }
    }
}

/// The declarations of the matched rules, in order, each with its rule's specificity.
pub open spec fn declared(ms: Seq<(Specificity, Rule)>) -> Seq<(Specificity, Seq<char>, Value)>
    decreases ms.len(),
{
    if ms.len() == 0 {
        Seq::empty()
    } else {
        let (s, r) = ms.last();
        declared(ms.drop_last()) + r.declarations@.map_values(|d: Declaration| (s, d.name@, d.value))
    }
}

/// The declaration of `k` that wins among `ds`: the one of highest specificity,
/// and of those the last.
pub open spec fn winner(ds: Seq<(Specificity, Seq<char>, Value)>, k: Seq<char>) -> Option<(Specificity, Value)>
    decreases ds.len(),
{
    if ds.len() == 0 {
        None
    } else {
        let w = winner(ds.drop_last(), k);
        let (s, n, v) = ds.last();
        if n == k && (w matches Some(p) ==> spec_le(p.0, s)) {
            Some((s, v))
        } else {
            w
        }
    }
}

/// The property map that the cascade gives `e` under `rules`.
pub open spec fn cascade(e: ElementData, rules: Seq<Rule>) -> Map<Seq<char>, Value> {
    let ds = declared(matched(e, rules));
    Map::new(|k: Seq<char>| winner(ds, k) is Some, |k: Seq<char>| (winner(ds, k)->0).1)
}

fn contains_string(v: &Vec<String>, s: &String) -> (r: bool)
    ensures
        r == v@.map_values(|w: String| w@).contains(s@),
{
    let mut i: usize = 0;
    while i < v.len()
        invariant
            i <= v.len(),
            forall|j: int| 0 <= j < i ==> v@[j]@ != s@,
        decreases v.len() - i,
    {
        if v[i] == *s {
            proof {
                assert(v@.map_values(|w: String| w@)[i as int] == s@);
            }
            return true;
        }
        i = i + 1;
    }
    proof {
        let vs = v@.map_values(|w: String| w@);
        if vs.contains(s@) {
            let j = choose|j: int| 0 <= j < vs.len() && #[trigger] vs[j] == s@;
            assert(v@[j]@ == s@);
        }
    }
    false
}

fn matches(elem: &ElementData, selector: &Selector) -> (r: bool)
    ensures
        r == selector_matches(*elem, *selector),
{
    match selector {
        Selector::Simple(simple) => matches_simple_selector(elem, simple),
    }
}

fn matches_simple_selector(elem: &ElementData, selector: &SimpleSelector) -> (r: bool)
    ensures
        r == simple_matches(*elem, *selector),
{
    if let Some(name) = &selector.tag_name {
        if *name != elem.tag_name {
            return false;
        }
    }
    if let Some(id) = &selector.id {
        match elem.id() {
            Some(own) => {
                if *own != *id {
                    return false;
                }
            },
            None => {
                return false;
            },
        }
    }
    let elem_classes = elem.classes();
    let mut i: usize = 0;
    while i < selector.class.len()
        invariant
            i <= selector.class.len(),
            elem_classes@.map_values(|w: String| w@) == elem.class_list(),
            forall|j: int| 0 <= j < i ==> elem.class_list().contains(#[trigger] selector.class@[j]@),
        decreases selector.class.len() - i,
    {
        if !contains_string(&elem_classes, &selector.class[i]) {
            return false;
        }
        i = i + 1;
    }
    true
}

/// The specificity of the first selector of `rule` that matches `elem`, with
/// the rule; `None` where none matches.
fn match_rule<'a>(elem: &ElementData, rule: &'a Rule) -> (r: Option<(Specificity, &'a Rule)>)
    ensures
        r matches Some(p) ==> first_match(*elem, rule.selectors@) == Some(p.0) && *p.1 == *rule,
        r is None ==> first_match(*elem, rule.selectors@) is None,
{
    let mut i: usize = 0;
    proof {
        assert(rule.selectors@.skip(0) =~= rule.selectors@);
    }
    while i < rule.selectors.len()
        invariant
            i <= rule.selectors.len(),
            first_match(*elem, rule.selectors@) == first_match(*elem, rule.selectors@.skip(i as int)),
        decreases rule.selectors.len() - i,
    {
        proof {
            assert(rule.selectors@.skip(i as int).drop_first() =~= rule.selectors@.skip(i + 1));
        }
        if matches(elem, &rule.selectors[i]) {
            return Some((rule.selectors[i].specificity(), rule));
        }
        i = i + 1;
    }
    None
}

/// The rules of `stylesheet` that match `elem`, in order, with their specificities.
fn matching_rules<'a>(elem: &ElementData, stylesheet: &'a Stylesheet) -> (r: Vec<(Specificity, &'a Rule)>)
    ensures
        r@.map_values(|p: (Specificity, &'a Rule)| (p.0, *p.1)) == matched(*elem, stylesheet.rules@),
{
    let mut out: Vec<(Specificity, &'a Rule)> = Vec::new();
    let mut i: usize = 0;
    while i < stylesheet.rules.len()
        invariant
            i <= stylesheet.rules.len(),
            out@.map_values(|p: (Specificity, &'a Rule)| (p.0, *p.1)) == matched(*elem, stylesheet.rules@.take(i as int)),
        decreases stylesheet.rules.len() - i,
    {
        proof {
            assert(stylesheet.rules@.take(i + 1).drop_last() =~= stylesheet.rules@.take(i as int));
        }
        let ghost before = out@;
        if let Some(m) = match_rule(elem, &stylesheet.rules[i]) {
            out.push(m);
            proof {
                assert(out@.map_values(|p: (Specificity, &'a Rule)| (p.0, *p.1)) =~= before.map_values(|p: (Specificity, &'a Rule)| (p.0, *p.1)).push((m.0, *m.1)));
            }
        }
        i = i + 1;
    }
    proof {
        assert(stylesheet.rules@.take(i as int) =~= stylesheet.rules@);
    }
    out
}

/// How `winner` grows by one declaration.
proof fn lemma_winner_push(ds: Seq<(Specificity, Seq<char>, Value)>, x: (Specificity, Seq<char>, Value), k: Seq<char>)
    ensures
        winner(ds.push(x), k) == (if x.1 == k && (winner(ds, k) matches Some(p) ==> spec_le(p.0, x.0)) {
            Some((x.0, x.2))
        } else {
            winner(ds, k)
        }),
{
    assert(ds.push(x).drop_last() =~= ds);
}

/// The entries that `vals` and `levels` hold stand for the winners of `ds`.
pub open spec fn holds_winners(
    vals: Seq<(String, Value)>,
    levels: Seq<(String, Specificity)>,
    ds: Seq<(Specificity, Seq<char>, Value)>,
) -> bool {
    forall|k: Seq<char>|
        {
            &&& table_view(vals).contains_key(k) == (#[trigger] winner(ds, k)) is Some
            &&& table_view(levels).contains_key(k) == winner(ds, k) is Some
            &&& winner(ds, k) matches Some(p) ==> table_view(vals)[k] == p.1 && table_view(levels)[k] == p.0
        }
}

/// The property map of `elem`: for each property, the value of the matching
/// declaration of highest specificity, the one declared last among equals.
fn specified_values(elem: &ElementData, stylesheet: &Stylesheet) -> (r: PropertyMap)
    ensures
        r@ == cascade(*elem, stylesheet.rules@),
{
    let rules = matching_rules(elem, stylesheet);
    let ghost ms = matched(*elem, stylesheet.rules@);
    let mut values: Vec<(String, Value)> = Vec::new();
    let mut levels: Vec<(String, Specificity)> = Vec::new();
    let ghost mut done: Seq<(Specificity, Seq<char>, Value)> = Seq::empty();
    let mut m: usize = 0;
    while m < rules.len()
        invariant
            m <= rules.len(),
            rules@.map_values(|p: (Specificity, &Rule)| (p.0, *p.1)) == ms,
            done == declared(ms.take(m as int)),
            holds_winners(values@, levels@, done),
        decreases rules.len() - m,
    {
        let (s, rule) = rules[m];
        assert(ms[m as int] == (s, *rule));
        let ghost start = done;
        let mut j: usize = 0;
        while j < rule.declarations.len()
            invariant
                m < rules.len(),
                j <= rule.declarations.len(),
                done == start + rule.declarations@.take(j as int).map_values(|d: Declaration| (s, d.name@, d.value)),
                holds_winners(values@, levels@, done),
            decreases rule.declarations.len() - j,
        {
            let d = &rule.declarations[j];
            let ghost x = (s, d.name@, d.value);
            let wins = match lookup(&levels, d.name.as_str()) {
                Some(level) => specificity_le(*level, s),
                None => true,
            };
            let ghost prev = done;
            proof {
                done = done.push(x);
                assert(done == start + rule.declarations@.take(j + 1).map_values(|d: Declaration| (s, d.name@, d.value)));
            }
            let ghost vprev = values@;
            let ghost lprev = levels@;
            if wins {
                values.push((d.name.clone(), d.value.clone()));
                levels.push((d.name.clone(), s));
                proof {
                    assert(values@.drop_last() =~= vprev);
                    assert(levels@.drop_last() =~= lprev);
                }
            }
            proof {
                assert forall|k: Seq<char>| {
                    &&& table_view(values@).contains_key(k) == (#[trigger] winner(done, k)) is Some
                    &&& table_view(levels@).contains_key(k) == winner(done, k) is Some
                    &&& winner(done, k) matches Some(p) ==> table_view(values@)[k] == p.1 && table_view(levels@)[k] == p.0
                } by {
                    lemma_winner_push(prev, x, k);
                }
            }
            j = j + 1;
        }
        proof {
            assert(rule.declarations@.take(j as int) =~= rule.declarations@);
            assert(ms.take(m + 1).drop_last() =~= ms.take(m as int));
        }
        m = m + 1;
    }
    proof {
        assert(ms.take(m as int) =~= ms);
        assert(table_view(values@) =~= cascade(*elem, stylesheet.rules@));
    }
    PropertyMap { entries: values }
}

/// A node with its property map, and its children styled alike.
pub struct StyledNode<'a> {
    pub node: &'a Node,
    pub specified_values: PropertyMap,
    pub children: Vec<StyledNode<'a>>,
}

/// `sn` is the styled form of `node` under `rules`: same shape, same order,
/// each element carrying its cascade and each other node an empty map.
pub open spec fn styled_from(sn: StyledNode, node: Node, rules: Seq<Rule>) -> bool
    decreases node,
{
    &&& *sn.node == node
    &&& sn.specified_values@ == match node.node_type {
        NodeType::Element(e) => cascade(e, rules),
        _ => Map::empty(),
    }
    &&& sn.children@.len() == node.children@.len()
    &&& forall|i: int|
        0 <= i < node.children@.len() ==> styled_from(#[trigger] sn.children@[i], node.children@[i], rules)
}

/// Styles `root` and all below it under `stylesheet`.
pub fn style_tree<'a>(root: &'a Node, stylesheet: &'a Stylesheet) -> (r: StyledNode<'a>)
    ensures
        styled_from(r, *root, stylesheet.rules@),
    decreases root,
{
    let specified_values = match &root.node_type {
        NodeType::Element(elem) => specified_values(elem, stylesheet),
        _ => PropertyMap::new(),
    };
    let mut children: Vec<StyledNode<'a>> = Vec::new();
    let mut i: usize = 0;
    while i < root.children.len()
        invariant
            i <= root.children.len(),
            children@.len() == i,
            forall|j: int| 0 <= j < i ==> styled_from(#[trigger] children@[j], root.children@[j], stylesheet.rules@),
        decreases root.children.len() - i,
    {
        let child = style_tree(&root.children[i], stylesheet);
        children.push(child);
        i = i + 1;
    }
    StyledNode { node: root, specified_values, children }
}

/// The value of the last declaration of `k` among `ds`.
pub open spec fn last_value(ds: Seq<Declaration>, k: Seq<char>) -> Option<Value>
    decreases ds.len(),
{
    if ds.len() == 0 {
        None
    } else if ds.last().name@ == k {
        Some(ds.last().value)
    } else {
        last_value(ds.drop_last(), k)
    }
}

proof fn lemma_winner_tail(ds: Seq<(Specificity, Seq<char>, Value)>, es: Seq<Declaration>, s: Specificity, k: Seq<char>)
    requires
        winner(ds, k) matches Some(p) ==> p.0 == s,
    ensures
        winner(ds + es.map_values(|d: Declaration| (s, d.name@, d.value)), k) == match last_value(es, k) {
            Some(v) => Some((s, v)),
            None => winner(ds, k),
        },
    decreases es.len(),
{
    let f = |d: Declaration| (s, d.name@, d.value);
    if es.len() == 0 {
        assert(ds + es.map_values(f) =~= ds);
    } else {
        lemma_winner_tail(ds, es.drop_last(), s, k);
        assert((ds + es.map_values(f)).drop_last() =~= ds + es.drop_last().map_values(f));
    }
}

spec fn d1_of(r1: Rule, s: Specificity) -> Seq<(Specificity, Seq<char>, Value)> {
    Seq::<(Specificity, Seq<char>, Value)>::empty() + r1.declarations@.map_values(|d: Declaration| (s, d.name@, d.value))
}

/// Of two rules that match an element with equal specificity and both set a
/// property, the one declared later gives the property its value.
pub proof fn lemma_later_rule_wins(e: ElementData, r1: Rule, r2: Rule, s: Specificity, k: Seq<char>)
    requires
        first_match(e, r1.selectors@) == Some(s),
        first_match(e, r2.selectors@) == Some(s),
        last_value(r2.declarations@, k) is Some,
    ensures
        cascade(e, seq![r1, r2]).contains_key(k),
        cascade(e, seq![r1, r2])[k] == last_value(r2.declarations@, k)->0,
{
    let rules = seq![r1, r2];
    assert(rules.drop_last() =~= seq![r1]);
    assert(seq![r1].drop_last() =~= Seq::<Rule>::empty());
    assert(rules.last() == r2);
    assert(seq![r1].last() == r1);
    assert(matched(e, Seq::<Rule>::empty()) =~= Seq::<(Specificity, Rule)>::empty());
    assert(matched(e, seq![r1]) =~= seq![(s, r1)]);
    let ms = matched(e, rules);
    assert(ms =~= seq![(s, r1), (s, r2)]);
    assert(ms.drop_last() =~= seq![(s, r1)]);
    assert(ms.last() == (s, r2));
    assert(seq![(s, r1)].drop_last() =~= Seq::<(Specificity, Rule)>::empty());
    assert(seq![(s, r1)].last() == (s, r1));
    assert(declared(Seq::<(Specificity, Rule)>::empty()) =~= Seq::<(Specificity, Seq<char>, Value)>::empty());
    assert(declared(seq![(s, r1)]) =~= d1_of(r1, s));
    let f = |d: Declaration| (s, d.name@, d.value);
    let d1 = d1_of(r1, s);
    lemma_winner_tail(Seq::empty(), r1.declarations@, s, k);
    lemma_winner_tail(d1, r2.declarations@, s, k);
    assert(declared(ms) == d1 + r2.declarations@.map_values(f));
}

/// A selector with no tag, no id and no class, such as `*`, matches every
/// element and weighs (0, 0, 0).
pub proof fn lemma_universal_matches_all(e: ElementData, sel: SimpleSelector)
    requires
        sel.tag_name is None,
        sel.id is None,
        sel.class@.len() == 0,
    ensures
        selector_matches(e, Selector::Simple(sel)),
        Selector::Simple(sel).spec_specificity() == (0usize, 0usize, 0usize),
{
}

/// How an element takes part in the box tree.
#[derive(Debug, PartialEq, Eq, Structural, Clone, Copy)]
pub enum Display {
    Inline,
    Block,
    /// `display: none`: no box for the node nor anything below it.
    Hidden,
}

pub open spec fn display_name() -> Seq<char> {
    seq!['d', 'i', 's', 'p', 'l', 'a', 'y']
}

/// The display that a property map gives: the keyword `block` or `none`,
/// and `Inline` for anything else or nothing.
pub open spec fn display_of(m: Map<Seq<char>, Value>) -> Display {
    if m.contains_key(display_name()) {
        match m[display_name()] {
            Value::Keyword(k) => if k@ == seq!['b', 'l', 'o', 'c', 'k'] {
                Display::Block
            } else if k@ == seq!['n', 'o', 'n', 'e'] {
                Display::Hidden
            } else {
                Display::Inline
            },
            _ => Display::Inline,
        }
    } else {
        Display::Inline
    }
}

impl<'a> StyledNode<'a> {
    pub open spec fn spec_display(&self) -> Display {
        display_of(self.specified_values@)
    }

    /// The computed display of the node.
    pub fn display(&self) -> (r: Display)
        ensures
            r == self.spec_display(),
    {
        let v = self.specified_values.get("display");
        proof {
            reveal_strlit("display");
            assert("display"@ =~= display_name());
        }
        match v {
            Some(Value::Keyword(k)) => {
                let block = "block".to_owned();
                let none = "none".to_owned();
                proof {
                    reveal_strlit("block");
                    reveal_strlit("none");
                    assert(block@ =~= seq!['b', 'l', 'o', 'c', 'k']);
                    assert(none@ =~= seq!['n', 'o', 'n', 'e']);
                }
                if *k == block {
                    Display::Block
                } else if *k == none {
                    Display::Hidden
                } else {
                    Display::Inline
                }
            },
            _ => Display::Inline,
        }
    }
}

/// In a rule whose selectors run from most to least specific, the first
/// selector that matches is a most specific one that matches.
pub proof fn lemma_first_match_most_specific(e: ElementData, sels: Seq<Selector>)
    requires
        sorted_desc(sels.map_values(|x: Selector| selector_view(x))),
    ensures
        forall|i: int|
            0 <= i < sels.len() && selector_matches(e, #[trigger] sels[i]) ==> (first_match(e, sels) matches Some(sp)
                && spec_le(sels[i].spec_specificity(), sp)),
    decreases sels.len(),
{
    let vs = sels.map_values(|x: Selector| selector_view(x));
    if sels.len() > 0 {
        let t = sels.drop_first();
        let vt = t.map_values(|x: Selector| selector_view(x));
        assert forall|i: int, j: int| 0 <= i < j < vt.len() implies !view_lt(#[trigger] vt[i], #[trigger] vt[j]) by {
            assert(vt[i] == vs[i + 1] && vt[j] == vs[j + 1]);
        }
        lemma_first_match_most_specific(e, t);
        assert forall|i: int|
            0 <= i < sels.len() && selector_matches(e, #[trigger] sels[i]) implies (first_match(e, sels) matches Some(sp)
                && spec_le(sels[i].spec_specificity(), sp)) by {
            if selector_matches(e, sels[0]) {
                if i > 0 {
                    assert(!view_lt(vs[0], vs[i]));
                }
            } else {
                assert(i > 0);
                assert(t[i - 1] == sels[i]);
            }
        }
    }
}

} // verus!
