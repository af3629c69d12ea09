//! The document tree: text, comment and element nodes.
use vstd::prelude::*;
use crate::parser::{is_space, is_whitespace, push_char};
use vstd::string::StringExecFns;

verus! {

/// The map that a list of (name, value) pairs stands for: a later pair
/// overrides an earlier one with the same name.
pub open spec fn pairs_map(s: Seq<(String, String)>) -> Map<Seq<char>, Seq<char>>
    decreases s.len(),
{
    if s.len() == 0 {
        Map::empty()
    } else {
        pairs_map(s.drop_last()).insert(s.last().0@, s.last().1@)
    }
}

/// A name is in the map iff some pair carries it.
pub proof fn lemma_pairs_map_dom(s: Seq<(String, String)>, k: Seq<char>)
    ensures
        pairs_map(s).contains_key(k) <==> exists|i: int| 0 <= i < s.len() && #[trigger] s[i].0@ == k,
    decreases s.len(),
{
    if s.len() > 0 {
        lemma_pairs_map_dom(s.drop_last(), k);
        if pairs_map(s.drop_last()).contains_key(k) {
            let i = choose|i: int| 0 <= i < s.drop_last().len() && #[trigger] s.drop_last()[i].0@ == k;
            assert(s[i].0@ == k);
        }
        if exists|i: int| 0 <= i < s.len() && #[trigger] s[i].0@ == k {
            let i = choose|i: int| 0 <= i < s.len() && #[trigger] s[i].0@ == k;
            if i < s.len() - 1 {
                assert(s.drop_last()[i].0@ == k);
            }
        }
    }
}

/// Pairs after index `n` that do not carry `k` leave its entry as the first `n` set it.
proof fn lemma_pairs_map_prefix(s: Seq<(String, String)>, n: int, k: Seq<char>)
    requires
        0 <= n <= s.len(),
        forall|j: int| n <= j < s.len() ==> #[trigger] s[j].0@ != k,
    ensures
        pairs_map(s).contains_key(k) == pairs_map(s.take(n)).contains_key(k),
        pairs_map(s).contains_key(k) ==> pairs_map(s)[k] == pairs_map(s.take(n))[k],
    decreases s.len() - n,
{
    if n < s.len() {
        assert(s.take(n + 1).drop_last() =~= s.take(n));
        assert(s.take(n + 1).last() == s[n]);
        lemma_pairs_map_prefix(s, n + 1, k);
    } else {
        assert(s.take(n) =~= s);
    }
}

/// Setting the value of the last pair that carries a name sets that name.
proof fn lemma_pairs_map_update(s: Seq<(String, String)>, i: int, p: (String, String))
    requires
        0 <= i < s.len(),
        s[i].0@ == p.0@,
        forall|j: int| i < j < s.len() ==> #[trigger] s[j].0@ != p.0@,
    ensures
        pairs_map(s.update(i, p)) == pairs_map(s).insert(p.0@, p.1@),
    decreases s.len(),
{
    let t = s.update(i, p);
    if i == s.len() - 1 {
        assert(t.drop_last() =~= s.drop_last());
        assert(pairs_map(t) =~= pairs_map(s).insert(p.0@, p.1@));
    } else {
        lemma_pairs_map_update(s.drop_last(), i, p);
        assert(t.drop_last() =~= s.drop_last().update(i, p));
        assert(t.last() == s.last());
        assert(pairs_map(t) =~= pairs_map(s).insert(p.0@, p.1@));
    }
}

/// Attributes of an element: a map from name to value.
#[derive(Debug)]
pub struct AttrMap {
    entries: Vec<(String, String)>,
}

impl View for AttrMap {
    type V = Map<Seq<char>, Seq<char>>;

    closed spec fn view(&self) -> Map<Seq<char>, Seq<char>> {
        pairs_map(self.entries@)
    }
}

impl AttrMap {
    /// An empty map.
    pub fn new() -> (r: AttrMap)
        ensures
            r@ == Map::<Seq<char>, Seq<char>>::empty(),
    {
        AttrMap { entries: Vec::new() }
    }

    /// The pairs held, in order of first insertion; each name once where
    /// only `insert` has filled the map.
    pub closed spec fn pairs(&self) -> Seq<(Seq<char>, Seq<char>)> {
        self.entries@.map_values(|p: (String, String)| (p.0@, p.1@))
    }

    /// Sets `name` to `value`, in place where `name` is there already.
    pub fn insert(&mut self, name: String, value: String)
        ensures
            final(self)@ == old(self)@.insert(name@, value@),
    {
        let mut i = self.entries.len();
        while i > 0
            invariant
                i <= self.entries.len(),
                self.entries@ == old(self).entries@,
                forall|j: int| i <= j < self.entries.len() ==> #[trigger] self.entries@[j].0@ != name@,
            decreases i,
        {
            i = i - 1;
            if self.entries[i].0 == name {
                proof {
                    lemma_pairs_map_update(self.entries@, i as int, (name, value));
                }
                self.entries.set(i, (name, value));
                return;
            }
        }
        self.entries.push((name, value));
        proof {
            assert(self.entries@.drop_last() =~= old(self).entries@);
        }
    }

    /// The value of `name`, if it is set.
    pub fn get(&self, name: &str) -> (r: Option<&String>)
        ensures
            r matches Some(v) ==> self@.contains_key(name@) && self@[name@] == v@,
            r is None ==> !self@.contains_key(name@),
    {
        let key = name.to_owned();
        let mut i = self.entries.len();
        while i > 0
            invariant
                i <= self.entries.len(),
                key@ == name@,
                forall|j: int| i <= j < self.entries.len() ==> #[trigger] self.entries@[j].0@ != key@,
            decreases i,
        {
            i = i - 1;
            if self.entries[i].0 == key {
                proof {
                    lemma_pairs_map_prefix(self.entries@, i + 1, key@);
                    assert(self.entries@.take(i + 1).drop_last() =~= self.entries@.take(i as int));
                }
                return Some(&self.entries[i].1);
            }
        }
        proof {
            lemma_pairs_map_prefix(self.entries@, 0, key@);
        }
        None
    }

    /// Number of pairs held, a name set twice counted twice.
    pub closed spec fn pair_count(&self) -> nat {
        self.entries@.len()
    }

    /// Number of names set.
    pub fn num_pairs(&self) -> (r: usize)
        ensures
            r == self.pair_count(),
    {
        self.entries.len()
    }

    /// The pair at `i`, in order of insertion.
    pub fn pair(&self, i: usize) -> (r: (&String, &String))
        requires
            i < self.pair_count(),
        ensures
            self@.contains_key(r.0@),
            self.pairs()[i as int] == (r.0@, r.1@),
            self.pairs().len() == self.pair_count(),
    {
        proof {
            lemma_pairs_map_dom(self.entries@, self.entries@[i as int].0@);
        }
        (&self.entries[i].0, &self.entries[i].1)
    }

    /// Whether each name of `self` is in `o` with the same value.
    fn within(&self, o: &AttrMap) -> (r: bool)
        ensures
            r == (forall|k: Seq<char>| #[trigger] self@.contains_key(k) ==> o@.contains_key(k) && o@[k] == self@[k]),
    {
        let mut i: usize = 0;
        while i < self.entries.len()
            invariant
                i <= self.entries.len(),
                forall|j: int| 0 <= j < i ==> {
                    let k = #[trigger] self.entries@[j].0@;
                    self@.contains_key(k) && o@.contains_key(k) && o@[k] == self@[k]
                },
            decreases self.entries.len() - i,
        {
            let k = self.entries[i].0.as_str();
            let a = self.get(k);
            let b = o.get(k);
            proof {
                lemma_pairs_map_dom(self.entries@, k@);
                assert(self.entries@[i as int].0@ == k@);
            }
            let same = match (a, b) {
                (Some(x), Some(y)) => *x == *y,
                _ => false,
            };
            if !same {
                return false;
            }
            i = i + 1;
        }
        assert forall|k: Seq<char>| #[trigger] self@.contains_key(k) implies o@.contains_key(k) && o@[k] == self@[k] by {
            lemma_pairs_map_dom(self.entries@, k);
            let j = choose|j: int| 0 <= j < self.entries@.len() && #[trigger] self.entries@[j].0@ == k;
            assert(self.entries@[j].0@ == k);
        }
        true
    }
}

impl PartialEq for AttrMap {
    fn eq(&self, o: &AttrMap) -> (r: bool) {
        let r = self.within(o) && o.within(self);
        proof {
            if r {
                assert(self@ =~= o@);
            }
        }
        r
    }
}

impl vstd::std_specs::cmp::PartialEqSpecImpl for AttrMap {
    open spec fn obeys_eq_spec() -> bool {
        true
    }

    open spec fn eq_spec(&self, o: &AttrMap) -> bool {
        self@ == o@
    }
}

/// Length of the run of non-whitespace characters that starts `s`.
pub open spec fn word_len(s: Seq<char>) -> nat
    decreases s.len(),
{
    if s.len() > 0 && !is_space(s[0]) {
        1 + word_len(s.drop_first())
    } else {
        0
    }
}

/// The whitespace-separated words of `s`, in order.
pub open spec fn words(s: Seq<char>) -> Seq<Seq<char>>
    decreases s.len(),
    via words_decreases
{
    if s.len() == 0 {
        Seq::empty()
    } else if is_space(s[0]) {
        words(s.drop_first())
    } else {
        seq![s.take(word_len(s) as int)] + words(s.skip(word_len(s) as int))
    }
}

proof fn lemma_word_len_bound(s: Seq<char>)
    ensures
        word_len(s) <= s.len(),
        s.len() > 0 && !is_space(s[0]) ==> word_len(s) >= 1,
    decreases s.len(),
{
    if s.len() > 0 && !is_space(s[0]) {
        lemma_word_len_bound(s.drop_first());
    }
}

#[via_fn]
proof fn words_decreases(s: Seq<char>) {
    lemma_word_len_bound(s);
}

proof fn lemma_word_len(v: Seq<char>, i: int, j: int)
    requires
        0 <= i <= j <= v.len(),
        forall|k: int| i <= k < j ==> !is_space(#[trigger] v[k]),
        j == v.len() || is_space(v[j]),
    ensures
        word_len(v.skip(i)) == j - i,
    decreases j - i,
{
    if i < j {
        lemma_word_len(v, i + 1, j);
        assert(v.skip(i).drop_first() =~= v.skip(i + 1));
    }
}

pub open spec fn id_name() -> Seq<char> {
    seq!['i', 'd']
}

pub open spec fn class_name() -> Seq<char> {
    seq!['c', 'l', 'a', 's', 's']
}

/// The characters of `s`, one by one.
pub(crate) fn chars_of(s: &str) -> (r: Vec<char>)
    ensures
        r@ == s@,
{
    let mut chars: Vec<char> = Vec::new();
    for c in it: s.chars()
        invariant
            chars@ == it.seq().take(it.index() as int),
            it.seq() == s@,
    {
        chars.push(c);
    }
    chars
}

/// The whitespace-separated words of `s`.
pub fn split_words(s: &str) -> (r: Vec<String>)
    ensures
        r@.map_values(|w: String| w@) == words(s@),
{
    let v = chars_of(s);
    let mut out: Vec<String> = Vec::new();
    let mut i: usize = 0;
    proof {
        assert(v@.skip(0) =~= v@);
    }
    while i < v.len()
        invariant
            v@ == s@,
            i <= v.len(),
            words(v@) == out@.map_values(|w: String| w@) + words(v@.skip(i as int)),
        decreases v.len() - i,
    {
        if is_whitespace(v[i]) {
            proof {
                assert(v@.skip(i as int).drop_first() =~= v@.skip(i + 1));
            }
            i = i + 1;
        } else {
            let mut w = String::new();
            let mut j: usize = i;
            while j < v.len() && !is_whitespace(v[j])
                invariant
                    i <= j <= v.len(),
                    w@ == v@.subrange(i as int, j as int),
                    forall|k: int| i <= k < j ==> !is_space(#[trigger] v@[k]),
                decreases v.len() - j,
            {
                push_char(&mut w, v[j]);
                j = j + 1;
                proof {
                    assert(w@ =~= v@.subrange(i as int, j as int));
                }
            }
            proof {
                lemma_word_len(v@, i as int, j as int);
                let t = v@.skip(i as int);
                assert(t.take(j - i) =~= v@.subrange(i as int, j as int));
                assert(t.skip(j - i) =~= v@.skip(j as int));
                assert(words(t) == seq![w@] + words(v@.skip(j as int)));
            }
            let ghost before = out@;
            out.push(w);
            proof {
                assert(out@.map_values(|w: String| w@) =~= before.map_values(|w: String| w@).push(w@));
                assert(out@.map_values(|w: String| w@) + words(v@.skip(j as int)) =~= before.map_values(|w: String| w@) + (seq![w@] + words(v@.skip(j as int))));
            }
            i = j;
        }
    }
    proof {
        assert(out@.map_values(|w: String| w@) =~= out@.map_values(|w: String| w@) + words(v@.skip(i as int)));
    }
    out
}

/// A node of the document tree with its children, in document order.
#[derive(Debug, PartialEq)]
pub struct Node {
    pub children: Vec<Node>,
    pub node_type: NodeType,
}

#[derive(Debug, PartialEq)]
pub enum NodeType {
    Text(String),
    Element(ElementData),
    Comment(String),
}

#[derive(Debug, PartialEq)]
pub struct ElementData {
    pub tag_name: String,
    pub attributes: AttrMap,
}

/// A text node.
pub fn text(data: String) -> (r: Node)
    ensures
        r.children@.len() == 0,
        r.node_type == NodeType::Text(data),
{
    Node { children: Vec::new(), node_type: NodeType::Text(data) }
}

/// A comment node.
pub fn comment(data: String) -> (r: Node)
    ensures
        r.children@.len() == 0,
        r.node_type == NodeType::Comment(data),
{
    Node { children: Vec::new(), node_type: NodeType::Comment(data) }
}

/// An element node.
pub fn elem(name: String, attrs: AttrMap, children: Vec<Node>) -> (r: Node)
    ensures
        r.children@ == children@,
        r.node_type == NodeType::Element(ElementData { tag_name: name, attributes: attrs }),
{
    Node { children, node_type: NodeType::Element(ElementData { tag_name: name, attributes: attrs }) }
}

impl Node {
    /// Adds `child` after the existing children.
    pub fn append(&mut self, child: Node)
        ensures
            final(self).children@ == old(self).children@.push(child),
            final(self).node_type == old(self).node_type,
    {
        self.children.push(child);
    }
}

impl ElementData {
    /// The value of the `id` attribute, if any.
    pub open spec fn id_of(&self) -> Option<Seq<char>> {
        if self.attributes@.contains_key(id_name()) {
            Some(self.attributes@[id_name()])
        } else {
            None
        }
    }

    /// The words of the `class` attribute (none where it is absent).
    pub open spec fn class_list(&self) -> Seq<Seq<char>> {
        if self.attributes@.contains_key(class_name()) {
            words(self.attributes@[class_name()])
        } else {
            Seq::empty()
        }
    }

    /// The value of the `id` attribute, if any.
    pub fn id(&self) -> (r: Option<&String>)
        ensures
            r matches Some(v) ==> self.id_of() == Some(v@),
            r is None ==> self.id_of() is None,
    {
        let r = self.attributes.get("id");
        proof {
            reveal_strlit("id");
            assert("id"@ =~= id_name());
        }
        r
    }

    /// The classes of the element: the words of its `class` attribute.
    pub fn classes(&self) -> (r: Vec<String>)
        ensures
            r@.map_values(|w: String| w@) == self.class_list(),
    {
        let c = self.attributes.get("class");
        proof {
            reveal_strlit("class");
            assert("class"@ =~= class_name());
        }
        match c {
            Some(list) => split_words(list.as_str()),
            None => {
                let r: Vec<String> = Vec::new();
                proof {
                    assert(r@.map_values(|w: String| w@) =~= Seq::<Seq<char>>::empty());
                }
                r
            },
        }
    }
}

/// ` name="value"` for each pair, in order.
pub open spec fn attrs_text(ps: Seq<(Seq<char>, Seq<char>)>) -> Seq<char>
    decreases ps.len(),
{
    if ps.len() == 0 {
        Seq::empty()
    } else {
        attrs_text(ps.drop_last()) + seq![' '] + ps.last().0 + seq!['=', '"'] + ps.last().1 + seq!['"']
    }
}

/// The debug form of `n` with each line led by `ind`: an element as a tag
/// with its attributes, self-closing where it has no children, else its
/// children one per line, each indented by `unit` more, then a close tag.
pub open spec fn pretty(n: Node, ind: Seq<char>, unit: Seq<char>) -> Seq<char>
    decreases n,
{
    match n.node_type {
        NodeType::Text(t) => ind + t@,
        NodeType::Comment(t) => ind + seq!['<', '!', '-', '-'] + t@ + seq!['-', '-', '>'],
        NodeType::Element(e) => {
            let open = ind + seq!['<'] + e.tag_name@ + attrs_text(e.attributes.pairs());
            if n.children@.len() == 0 {
                open + seq![' ', '/', '>']
            } else {
                open + seq!['>'] + children_text(n.children@, ind + unit, unit) + seq!['\n'] + ind + seq!['<', '/']
                    + e.tag_name@ + seq!['>']
            }
        },
    }
}

/// Each of `kids` on a line of its own.
pub open spec fn children_text(kids: Seq<Node>, ind: Seq<char>, unit: Seq<char>) -> Seq<char>
    decreases kids,
{
    if kids.len() == 0 {
        Seq::empty()
    } else {
        children_text(kids.drop_last(), ind, unit) + seq!['\n'] + pretty(kids.last(), ind, unit)
    }
}

impl Node {
    /// The debug form of the tree, each level indented by `unit` more.
    pub fn pretty_print(&self, unit: &str) -> (r: String)
        ensures
            r@ == pretty(*self, Seq::empty(), unit@),
    {
        let indent = String::new();
        self.pretty_print_helper(&indent, unit)
    }

    fn pretty_print_helper(&self, indent: &String, unit: &str) -> (r: String)
        ensures
            r@ == pretty(*self, indent@, unit@),
        decreases self,
    {
        let mut out = indent.clone();
        match &self.node_type {
            NodeType::Text(t) => {
                out.append(t.as_str());
                out
            },
            NodeType::Comment(t) => {
                out.append("<!--");
                out.append(t.as_str());
                out.append("-->");
                proof {
                    reveal_strlit("<!--");
                    reveal_strlit("-->");
                    assert(out@ =~= pretty(*self, indent@, unit@));
                }
                out
            },
            NodeType::Element(data) => {
                out.append("<");
                out.append(data.tag_name.as_str());
                proof {
                    reveal_strlit("<");
                    assert(out@ =~= indent@ + seq!['<'] + data.tag_name@ + attrs_text(Seq::empty()));
                }
                let mut i: usize = 0;
                let ghost ps = data.attributes.pairs();
                let n = data.attributes.num_pairs();
                while i < n
                    invariant
                        i <= n,
                        n == data.attributes.pair_count(),
                        ps == data.attributes.pairs(),
                        out@ == indent@ + seq!['<'] + data.tag_name@ + attrs_text(ps.take(i as int)),
                    decreases n - i,
                {
                    let (k, v) = data.attributes.pair(i);
                    out.append(" ");
                    out.append(k.as_str());
                    out.append("=\"");
                    out.append(v.as_str());
                    out.append("\"");
                    proof {
                        reveal_strlit(" ");
                        reveal_strlit("=\"");
                        reveal_strlit("\"");
                        assert(ps.take(i + 1).drop_last() =~= ps.take(i as int));
                        assert(ps.take(i + 1).last() == (k@, v@));
                        assert(out@ =~= indent@ + seq!['<'] + data.tag_name@ + attrs_text(ps.take(i + 1)));
                    }
                    i = i + 1;
                }
                proof {
                    assert(ps.take(n as int) =~= ps);
                }
                if self.children.len() == 0 {
                    out.append(" />");
                    proof {
                        reveal_strlit(" />");
                        assert(out@ =~= pretty(*self, indent@, unit@));
                    }
                    return out;
                }
                out.append(">");
                let ghost open = out@;
                let mut inner = indent.clone();
                inner.append(unit);
                let mut j: usize = 0;
                proof {
                    reveal_strlit(">");
                    assert(self.children@.take(0) =~= Seq::<Node>::empty());
                    assert(out@ =~= open + children_text(self.children@.take(0), inner@, unit@));
                }
                while j < self.children.len()
                    invariant
                        j <= self.children.len(),
                        inner@ == indent@ + unit@,
                        out@ == open + children_text(self.children@.take(j as int), inner@, unit@),
                    decreases self.children.len() - j,
                {
                    let line = self.children[j].pretty_print_helper(&inner, unit);
                    out.append("\n");
                    out.append(line.as_str());
                    proof {
                        reveal_strlit("\n");
                        let kids = self.children@.take(j + 1);
                        assert(kids.drop_last() =~= self.children@.take(j as int));
                        assert(kids.last() == self.children@[j as int]);
                        assert(out@ =~= open + children_text(kids, inner@, unit@));
                    }
                    j = j + 1;
                }
                out.append("\n");
                out.append(indent.as_str());
                out.append("</");
                out.append(data.tag_name.as_str());
                out.append(">");
                proof {
                    reveal_strlit("\n");
                    reveal_strlit("</");
                    reveal_strlit(">");
                    assert(self.children@.take(j as int) =~= self.children@);
                    assert(out@ =~= pretty(*self, indent@, unit@));
                }
                out
            },
        }
    }
}

} // verus!
