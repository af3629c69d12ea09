//! The box tree: block, inline and anonymous block boxes.
use vstd::prelude::*;
use crate::style::{Display, StyledNode};

verus! {

/// Position and size of the content area, in px.
pub struct Rect {
    pub x: i64,
    pub y: i64,
    pub width: i64,
    pub height: i64,
}

/// Widths of the four edges of a box, in px.
pub struct EdgeSizes {
    pub left: i64,
    pub right: i64,
    pub top: i64,
    pub bottom: i64,
}

/// Geometry of a box: content area and surrounding edges. Left at zero here,
/// for a later pass to fill in.
pub struct Dimensions {
    pub content: Rect,
    pub border: EdgeSizes,
    pub margin: EdgeSizes,
    pub padding: EdgeSizes,
}

impl Rect {
    pub open spec fn is_zero(&self) -> bool {
        self.x == 0 && self.y == 0 && self.width == 0 && self.height == 0
    }

    pub fn new() -> (r: Rect)
        ensures
            r.is_zero(),
    {
        Rect { x: 0, y: 0, width: 0, height: 0 }
    }
}

impl EdgeSizes {
    pub open spec fn is_zero(&self) -> bool {
        self.left == 0 && self.right == 0 && self.top == 0 && self.bottom == 0
    }

    pub fn new() -> (r: EdgeSizes)
        ensures
            r.is_zero(),
    {
        EdgeSizes { left: 0, right: 0, top: 0, bottom: 0 }
    }
}

impl Dimensions {
    pub open spec fn is_zero(&self) -> bool {
        self.content.is_zero() && self.border.is_zero() && self.margin.is_zero() && self.padding.is_zero()
    }

    pub fn new() -> (r: Dimensions)
        ensures
            r.is_zero(),
    {
        Dimensions { content: Rect::new(), border: EdgeSizes::new(), margin: EdgeSizes::new(), padding: EdgeSizes::new() }
    }
}

/// The kind of a box, and the styled node it was made for.
pub enum BoxType<'a> {
    BlockNode(&'a StyledNode<'a>),
    InlineNode(&'a StyledNode<'a>),
    AnonymousBlock,
}

/// A box with its geometry and its child boxes.
pub struct LayoutBox<'a> {
    pub dimensions: Dimensions,
    pub box_type: BoxType<'a>,
    pub children: Vec<LayoutBox<'a>>,
}

/// An empty anonymous block box.
pub open spec fn is_fresh_anonymous(b: LayoutBox) -> bool {
    b.box_type is AnonymousBlock && b.dimensions.is_zero() && b.children@.len() == 0
}

impl<'a> LayoutBox<'a> {
    /// A box of `box_type` with no children and zero geometry.
    pub fn new(box_type: BoxType<'a>) -> (r: LayoutBox<'a>)
        ensures
            r.box_type == box_type,
            r.dimensions.is_zero(),
            r.children@.len() == 0,
    {
        LayoutBox { dimensions: Dimensions::new(), box_type, children: Vec::new() }
    }

    /// The box that a new inline child of `self` goes in: `self` where it is
    /// an inline or anonymous box; for a block box, its last child where that
    /// is an anonymous box, else a new anonymous box appended for it.
    pub fn get_inline_container(&mut self) -> (r: &mut LayoutBox<'a>)
        ensures
            !(old(self).box_type is BlockNode) ==> *r == *old(self) && *final(self) == *final(r),
            old(self).box_type is BlockNode ==> {
                let kids = old(self).children@;
                &&& final(self).box_type == old(self).box_type
                &&& final(self).dimensions == old(self).dimensions
                &&& kids.len() > 0 && kids.last().box_type is AnonymousBlock ==> {
                    &&& *r == kids.last()
                    &&& final(self).children@ == kids.update(kids.len() - 1, *final(r))
                }
                &&& !(kids.len() > 0 && kids.last().box_type is AnonymousBlock) ==> {
                    &&& is_fresh_anonymous(*r)
                    &&& final(self).children@ == kids.push(*final(r))
                }
            },
    {
        match self.box_type {
            BoxType::InlineNode(_) | BoxType::AnonymousBlock => self,
            BoxType::BlockNode(_) => {
                let n = self.children.len();
                let reuse = n > 0 && matches!(self.children[n - 1].box_type, BoxType::AnonymousBlock);
                if !reuse {
                    self.children.push(LayoutBox::new(BoxType::AnonymousBlock));
                }
                let last = self.children.len() - 1;
                &mut self.children[last]
            },
        }
    }
}

/// Where the boxes of a node's children go, in order: `(false, [i])` is the
/// box of child `i` placed directly; `(true, is)` an anonymous block box
/// holding the boxes of the children `is`. Children with display `Hidden` get
/// nowhere; in a block box, each run of inline children shares one anonymous
/// box.
pub open spec fn slots(block: bool, kids: Seq<StyledNode>) -> Seq<(bool, Seq<int>)>
    decreases kids.len(),
{
    if kids.len() == 0 {
        Seq::empty()
    } else {
        let g = slots(block, kids.drop_last());
        let i = kids.len() - 1;
        let d = kids.last().spec_display();
        if d == Display::Hidden {
            g
        } else if d == Display::Block || !block {
            g.push((false, seq![i]))
        } else if g.len() > 0 && g.last().0 {
            g.update(g.len() - 1, (true, g.last().1.push(i)))
        } else {
            g.push((true, seq![i]))
        }
    }
}

/// `b` is the box tree that `sn` generates.
pub open spec fn box_of(b: LayoutBox, sn: StyledNode) -> bool
    decreases sn, 1int,
{
    let d = sn.spec_display();
    let sl = slots(d == Display::Block, sn.children@);
    &&& match b.box_type {
        BoxType::BlockNode(r) => d == Display::Block && *r == sn,
        BoxType::InlineNode(r) => d == Display::Inline && *r == sn,
        BoxType::AnonymousBlock => false,
    }
    &&& b.dimensions.is_zero()
    &&& b.children@.len() == sl.len()
    &&& forall|j: int| 0 <= j < sl.len() ==> fits(#[trigger] b.children@[j], sl[j], sn)
}

/// `c` is the box that `slot` of `sn`'s children asks for.
pub open spec fn fits(c: LayoutBox, slot: (bool, Seq<int>), sn: StyledNode) -> bool
    decreases sn, 0int,
{
    let (anon, is) = slot;
    if !anon {
        is.len() == 1 && 0 <= is[0] < sn.children@.len() && box_of(c, sn.children@[is[0]])
    } else {
        &&& c.box_type is AnonymousBlock
        &&& c.dimensions.is_zero()
        &&& c.children@.len() == is.len()
        &&& forall|t: int|
            0 <= t < is.len() ==> 0 <= is[t] < sn.children@.len() && box_of(#[trigger] c.children@[t], sn.children@[is[t]])
    }
}

fn build_box<'a>(sn: &'a StyledNode<'a>) -> (r: LayoutBox<'a>)
    requires
        sn.spec_display() != Display::Hidden,
    ensures
        box_of(r, *sn),
    decreases sn,
{
    let d = sn.display();
    let bt = if d == Display::Block {
        BoxType::BlockNode(sn)
    } else {
        BoxType::InlineNode(sn)
    };
    let ghost blk = d == Display::Block;
    let mut root = LayoutBox::new(bt);
    let ghost kids = sn.children@;
    let mut i: usize = 0;
    while i < sn.children.len()
        invariant
            i <= sn.children.len(),
            kids == sn.children@,
            blk == (sn.spec_display() == Display::Block),
            d == sn.spec_display(),
            d != Display::Hidden,
            blk ==> root.box_type is BlockNode,
            !blk ==> root.box_type is InlineNode,
            match root.box_type {
                BoxType::BlockNode(r) => d == Display::Block && *r == *sn,
                BoxType::InlineNode(r) => d == Display::Inline && *r == *sn,
                BoxType::AnonymousBlock => false,
            },
            root.dimensions.is_zero(),
            root.children@.len() == slots(blk, kids.take(i as int)).len(),
            forall|j: int| 0 <= j < root.children@.len() ==> fits(#[trigger] root.children@[j], slots(blk, kids.take(i as int))[j], *sn),
        decreases sn.children.len() - i,
    {
        let child = &sn.children[i];
        let ghost g = slots(blk, kids.take(i as int));
        proof {
            assert(kids.take(i + 1).drop_last() =~= kids.take(i as int));
            assert(kids.take(i + 1).last() == kids[i as int]);
        }
        let ghost old_kids = root.children@;
        match child.display() {
            Display::Block => {
                let b = build_box(child);
                root.children.push(b);
                proof {
                    assert(fits(b, (false, seq![i as int]), *sn));
                    assert forall|j: int| 0 <= j < root.children@.len() implies fits(#[trigger] root.children@[j], slots(blk, kids.take(i + 1))[j], *sn) by {
                        if j < old_kids.len() {
                            assert(root.children@[j] == old_kids[j]);
                        }
                    }
                }
            },
            Display::Inline => {
                let b = build_box(child);
                proof {
                    assert(fits(b, (false, seq![i as int]), *sn));
                    if g.len() > 0 && !g.last().0 {
                        assert(fits(old_kids.last(), g.last(), *sn));
                    }
                }
                let c = root.get_inline_container();
                c.children.push(b);
                proof {
                    if blk {
                        let reuse = old_kids.len() > 0 && old_kids.last().box_type is AnonymousBlock;
                        if reuse {
                            assert(fits(old_kids.last(), g.last(), *sn));
                            assert(g.last().0);
                            let last = root.children@.last();
                            assert(last.children@ == old_kids.last().children@.push(b));
                            assert(fits(last, slots(blk, kids.take(i + 1)).last(), *sn));
                        } else {
                            if g.len() > 0 {
                                assert(fits(old_kids.last(), g.last(), *sn));
                            }
                            let last = root.children@.last();
                            assert(last.children@ =~= seq![b]);
                            assert(fits(last, slots(blk, kids.take(i + 1)).last(), *sn));
                        }
                        assert forall|j: int| 0 <= j < root.children@.len() implies fits(#[trigger] root.children@[j], slots(blk, kids.take(i + 1))[j], *sn) by {
                            if j < root.children@.len() - 1 {
                                assert(root.children@[j] == old_kids[j]);
                            }
                        }
                    } else {
                        assert forall|j: int| 0 <= j < root.children@.len() implies fits(#[trigger] root.children@[j], slots(blk, kids.take(i + 1))[j], *sn) by {
                            if j < old_kids.len() {
                                assert(root.children@[j] == old_kids[j]);
                            }
                        }
                    }
                }
            },
            Display::Hidden => {},
        }
        i = i + 1;
    }
    proof {
        assert(kids.take(i as int) =~= kids);
    }
    root
}

/// Builds the box tree of `style_node`, geometry left at zero. `None` where
/// the root's display is `Hidden`: no box tree exists then.
pub fn build_layout_tree<'a>(style_node: &'a StyledNode<'a>) -> (r: Option<LayoutBox<'a>>)
    ensures
        r is None <==> style_node.spec_display() == Display::Hidden,
        r matches Some(b) ==> box_of(b, *style_node),
{
    if style_node.display() == Display::Hidden {
        None
    } else {
        Some(build_box(style_node))
    }
}

/// A block box whose two children are inline gets exactly one anonymous
/// block box, holding the boxes of both.
pub proof fn lemma_inline_run_shares_box(b: LayoutBox, sn: StyledNode)
    requires
        box_of(b, sn),
        sn.spec_display() == Display::Block,
        sn.children@.len() == 2,
        sn.children@[0].spec_display() == Display::Inline,
        sn.children@[1].spec_display() == Display::Inline,
    ensures
        b.children@.len() == 1,
        b.children@[0].box_type is AnonymousBlock,
        b.children@[0].children@.len() == 2,
        box_of(b.children@[0].children@[0], sn.children@[0]),
        box_of(b.children@[0].children@[1], sn.children@[1]),
{
    let kids = sn.children@;
    assert(kids.drop_last() =~= seq![kids[0]]);
    assert(seq![kids[0]].drop_last() =~= Seq::<StyledNode>::empty());
    assert(seq![kids[0]].last() == kids[0]);
    assert(slots(true, Seq::<StyledNode>::empty()) =~= Seq::<(bool, Seq<int>)>::empty());
    assert(slots(true, seq![kids[0]]) =~= seq![(true, seq![0int])]);
    assert(seq![0int].push(1int) =~= seq![0int, 1int]);
    assert(slots(true, kids) =~= seq![(true, seq![0int, 1int])]);
    assert(fits(b.children@[0], (true, seq![0int, 1int]), sn));
}

/// No slot takes in a child whose display is `Hidden`: such a child, and so
/// all below it, has no box in the tree.
pub proof fn lemma_hidden_child_absent(block: bool, kids: Seq<StyledNode>, i: int)
    requires
        0 <= i < kids.len(),
        kids[i].spec_display() == Display::Hidden,
    ensures
        forall|j: int| 0 <= j < slots(block, kids).len() ==> !(#[trigger] slots(block, kids)[j]).1.contains(i),
    decreases kids.len(),
{
    let n = kids.len() - 1;
    let g = slots(block, kids.drop_last());
    if i < n {
        lemma_hidden_child_absent(block, kids.drop_last(), i);
        assert forall|j: int| 0 <= j < slots(block, kids).len() implies !(#[trigger] slots(block, kids)[j]).1.contains(i) by {
            let sj = slots(block, kids)[j].1;
            if sj.contains(i) {
                let t = choose|t: int| 0 <= t < sj.len() && sj[t] == i;
                if j < g.len() {
                    if slots(block, kids)[j] != g[j] {
                        assert(sj == g[j].1.push(n));
                        if t < g[j].1.len() {
                            assert(g[j].1[t] == i);
                            assert(g[j].1.contains(i));
                        }
                    } else {
                        assert(g[j].1[t] == i);
                        assert(g[j].1.contains(i));
                    }
                } else {
                    assert(sj == seq![n]);
                }
            }
        }
    } else {
        lemma_slots_below(block, kids.drop_last());
        assert(slots(block, kids) == g);
        assert forall|j: int| 0 <= j < g.len() implies !(#[trigger] g[j]).1.contains(i) by {
            if g[j].1.contains(i) {
                let t = choose|t: int| 0 <= t < g[j].1.len() && g[j].1[t] == i;
                assert(0 <= g[j].1[t] < kids.drop_last().len());
            }
        }
    }
}

/// Every index that a slot names is that of an earlier child.
proof fn lemma_slots_below(block: bool, kids: Seq<StyledNode>)
    ensures
        forall|j: int, t: int|
            0 <= j < slots(block, kids).len() && 0 <= t < slots(block, kids)[j].1.len()
                ==> 0 <= #[trigger] slots(block, kids)[j].1[t] < kids.len(),
    decreases kids.len(),
{
    if kids.len() > 0 {
        lemma_slots_below(block, kids.drop_last());
        let g = slots(block, kids.drop_last());
        assert forall|j: int, t: int|
            0 <= j < slots(block, kids).len() && 0 <= t < slots(block, kids)[j].1.len()
                implies 0 <= #[trigger] slots(block, kids)[j].1[t] < kids.len() by {
            if j < g.len() && t < g[j].1.len() {
                assert(slots(block, kids)[j].1[t] == g[j].1[t]);
            }
        }
    }
}

/// In a block box, a child placed directly is a block.
proof fn lemma_block_slots(kids: Seq<StyledNode>)
    ensures
        forall|j: int|
            0 <= j < slots(true, kids).len() && !(#[trigger] slots(true, kids)[j]).0 ==> {
                let is = slots(true, kids)[j].1;
                is.len() == 1 && 0 <= is[0] < kids.len() && kids[is[0]].spec_display() == Display::Block
            },
    decreases kids.len(),
{
    if kids.len() > 0 {
        lemma_block_slots(kids.drop_last());
        let g = slots(true, kids.drop_last());
        assert forall|j: int|
            0 <= j < slots(true, kids).len() && !(#[trigger] slots(true, kids)[j]).0 implies {
                let is = slots(true, kids)[j].1;
                is.len() == 1 && 0 <= is[0] < kids.len() && kids[is[0]].spec_display() == Display::Block
            } by {
            if j < g.len() && slots(true, kids)[j] == g[j] {
                assert(kids[g[j].1[0]] == kids.drop_last()[g[j].1[0]]);
            }
        }
    }
}

/// A block box never holds an inline box directly: inline content goes in
/// anonymous block boxes.
pub proof fn lemma_block_children_not_inline(b: LayoutBox, sn: StyledNode)
    requires
        box_of(b, sn),
        b.box_type is BlockNode,
    ensures
        forall|j: int| 0 <= j < b.children@.len() ==> !((#[trigger] b.children@[j]).box_type is InlineNode),
{
    lemma_block_slots(sn.children@);
    let sl = slots(true, sn.children@);
    assert forall|j: int| 0 <= j < b.children@.len() implies !((#[trigger] b.children@[j]).box_type is InlineNode) by {
        assert(fits(b.children@[j], sl[j], sn));
        if !sl[j].0 {
            let i = sl[j].1[0];
            assert(box_of(b.children@[j], sn.children@[i]));
        }
    }
}

proof fn lemma_no_adjacent_anonymous_slots(kids: Seq<StyledNode>)
    ensures
        forall|j: int| 0 <= j < slots(true, kids).len() - 1 ==> !((#[trigger] slots(true, kids)[j]).0 && slots(true, kids)[j + 1].0),
    decreases kids.len(),
{
    if kids.len() > 0 {
        lemma_no_adjacent_anonymous_slots(kids.drop_last());
        let g = slots(true, kids.drop_last());
        let r = slots(true, kids);
        assert forall|j: int| 0 <= j < r.len() - 1 implies !((#[trigger] r[j]).0 && r[j + 1].0) by {
            if r.len() == g.len() {
                assert(r[j].0 == g[j].0 && r[j + 1].0 == g[j + 1].0);
                assert(!(g[j].0 && g[j + 1].0));
            } else if j + 1 < g.len() {
                assert(r[j] == g[j] && r[j + 1] == g[j + 1]);
                assert(!(g[j].0 && g[j + 1].0));
            } else {
                assert(r[j] == g[j]);
            }
        }
    }
}

/// A run of inline children shares one anonymous block box: no two
/// neighbouring children of a block box are both anonymous.
pub proof fn lemma_no_adjacent_anonymous(b: LayoutBox, sn: StyledNode)
    requires
        box_of(b, sn),
        b.box_type is BlockNode,
    ensures
        forall|j: int|
            0 <= j < b.children@.len() - 1 ==> !((#[trigger] b.children@[j]).box_type is AnonymousBlock
                && b.children@[j + 1].box_type is AnonymousBlock),
{
    lemma_no_adjacent_anonymous_slots(sn.children@);
    let sl = slots(true, sn.children@);
    assert forall|j: int| 0 <= j < b.children@.len() - 1 implies !((#[trigger] b.children@[j]).box_type is AnonymousBlock
        && b.children@[j + 1].box_type is AnonymousBlock) by {
        assert(fits(b.children@[j], sl[j], sn));
        assert(fits(b.children@[j + 1], sl[j + 1], sn));
        if !sl[j].0 {
            assert(box_of(b.children@[j], sn.children@[sl[j].1[0]]));
        }
        if !sl[j + 1].0 {
            assert(box_of(b.children@[j + 1], sn.children@[sl[j + 1].1[0]]));
        }
    }
}

} // verus!
