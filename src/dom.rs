//! The tree: an arena of nodes addressed by handles, the one operation that links a child to
//! a parent, and the markup that a node projects to.
use vstd::prelude::*;
use crate::node::{
    cached_classes, cached_id, keys_unique, lemma_with_attribute, lookup, with_attribute,
    Attributes, ElementNode, ElementView, Node, NodeView, TextNode,
};
use crate::text::{escaped, push_char, push_escaped};

pub use crate::errors::DomPushError;
pub use crate::shared::{SharedClone, SharedNode, WeakNode};

verus! {

/// What a `Dom` holds: its nodes, by index, and the index of its top element.
pub struct DomView {
    pub nodes: Seq<NodeView>,
    pub tree: usize,
}

impl NodeView {
    pub open spec fn is_element(self) -> bool {
        self is Element
    }

    /// The node with `c` added at the end of its children (an element), or as it is (text).
    pub open spec fn with_child(self, c: usize) -> NodeView {
        match self {
            NodeView::Element(e) => NodeView::Element(
                ElementView { children: e.children.push(c), ..e },
            ),
            NodeView::Text(t) => NodeView::Text(t),
        }
    }
}

impl DomView {
    /// `c` becomes the last child of `p`, and `p` the parent of `c`.
    pub open spec fn attach(self, p: usize, c: usize) -> DomView {
        DomView {
            nodes: self.nodes.update(p as int, self.nodes[p as int].with_child(c)).update(
                c as int,
                self.nodes[c as int].with_parent(Some(p)),
            ),
            tree: self.tree,
        }
    }

    /// What attaching `c` under `p` answers.
    pub open spec fn attach_outcome(self, p: usize, c: usize) -> Result<(), DomPushError> {
        if self.nodes[c as int].parent() is Some {
            Err(DomPushError::AlreadyHasParent)
        } else if !self.nodes[p as int].is_element() {
            Err(DomPushError::NotAttachable)
        } else {
            Ok(())
        }
    }
}

/// The links of `v` agree, and `h`, `r` and `d` rank, root and measure them.
///
/// Each parent link names an element that lists the node among its children, and each
/// child listed names its parent back; no child is listed twice. `h` falls strictly from a
/// parent to each child, so no path of children comes back to where it started. `r` gives
/// each node the top of its tree: itself where it has no parent, else its parent's. `d`
/// counts the parent links from a node up to that top.
pub open spec fn links_ok(v: Seq<NodeView>, h: Seq<nat>, r: Seq<usize>, d: Seq<nat>) -> bool {
    &&& h.len() == v.len()
    &&& r.len() == v.len()
    &&& d.len() == v.len()
    &&& forall|i: int|
        0 <= i < v.len() ==> (#[trigger] r[i] as int) < v.len() && match v[i].parent() {
            Some(p) => (p as int) < v.len() && v[p as int].is_element() && v[p as int].children().contains(
                i as usize,
            ) && r[i] == r[p as int] && d[i] == d[p as int] + 1,
            None => r[i] == i && d[i] == 0,
        }
    &&& forall|i: int, k: int|
        0 <= i < v.len() && 0 <= k < v[i].children().len() ==> {
            let c = #[trigger] v[i].children()[k];
            &&& (c as int) < v.len()
            &&& v[c as int].parent() == Some(i as usize)
            &&& h[c as int] < h[i]
        }
    &&& forall|i: int| 0 <= i < v.len() ==> (#[trigger] v[i].children()).no_duplicates()
}

/// All nodes of a tree, held in one arena and addressed by `SharedNode` handles.
pub struct Dom {
    /// The sentinel element at the top of the parsed markup.
    pub tree: SharedNode,
    pub nodes: Vec<Node>,
    /// A rank for each node that falls from parent to child.
    pub heights: Ghost<Seq<nat>>,
    /// The top of the tree that each node is in.
    pub roots: Ghost<Seq<usize>>,
    /// The number of parent links from each node up to that top.
    pub depths: Ghost<Seq<nat>>,
}

impl View for Dom {
    type V = DomView;

    open spec fn view(&self) -> DomView {
        DomView { nodes: self.nodes@.map_values(|n: Node| n@), tree: self.tree.0 }
    }
}

/// The markup of the attributes: ` key="value"` for each, the value escaped.
pub open spec fn attributes_markup(a: Attributes) -> Seq<char>
    decreases a.len(),
{
    if a.len() == 0 {
        Seq::empty()
    } else {
        attributes_markup(a.drop_last()) + seq![' '] + a.last().0 + seq!['=', '"'] + escaped(
            a.last().1,
        ) + seq!['"']
    }
}

/// The markup of node `i`: a text node's text as it is; an element as `<tag attrs/>` when it
/// has no children, else as `<tag attrs>`, its children's markup, and `</tag>`.
pub open spec fn markup(v: Seq<NodeView>, h: Seq<nat>, i: int) -> Seq<char>
    decreases h[i], 1nat, 0nat,
{
    if 0 <= i < v.len() {
        match v[i] {
            NodeView::Text(t) => t.text,
            NodeView::Element(e) => if e.children.len() == 0 {
                seq!['<'] + e.tag + attributes_markup(e.attributes) + seq!['/', '>']
            } else {
                seq!['<'] + e.tag + attributes_markup(e.attributes) + seq!['>'] + children_markup(
                    v,
                    h,
                    i,
                    e.children.len(),
                ) + seq!['<', '/'] + e.tag + seq!['>']
            },
        }
    } else {
        Seq::empty()
    }
}

/// The markup of the first `n` children of node `i`, one after the other.
pub open spec fn children_markup(v: Seq<NodeView>, h: Seq<nat>, i: int, n: nat) -> Seq<char>
    decreases h[i], 0nat, n,
{
    if n == 0 || !(0 <= i < v.len()) || n > v[i].children().len() {
        Seq::empty()
    } else {
        let c = v[i].children()[n - 1] as int;
        children_markup(v, h, i, (n - 1) as nat) + if h[c] < h[i] {
            markup(v, h, c)
        } else {
            Seq::empty()
        }
    }
}

impl Dom {
    pub open spec fn len(&self) -> nat {
        self.nodes@.len()
    }

    /// The top of the tree that node `i` is in.
    pub open spec fn root_of(&self, i: usize) -> usize {
        self.roots@[i as int]
    }

    /// The markup that node `i` projects to.
    pub open spec fn markup_of(&self, i: usize) -> Seq<char> {
        markup(self@.nodes, self.heights@, i as int)
    }

    /// Every node's own record is sound, and the links agree.
    pub open spec fn wf(&self) -> bool {
        &&& (self.tree.0 as int) < self.nodes@.len()
        &&& forall|i: int| 0 <= i < self.nodes@.len() ==> (#[trigger] self.nodes@[i]).wf()
        &&& links_ok(self@.nodes, self.heights@, self.roots@, self.depths@)
    }

    /// A tree that holds only its sentinel element, tagged `root`.
    pub fn new() -> (r: Dom)
        ensures
            r.wf(),
            r@.nodes.len() == 1,
            r@.tree == 0,
            r@.nodes[0] == NodeView::Element(
                ElementView {
                    tag: seq!['r', 'o', 'o', 't'],
                    attributes: Seq::empty(),
                    children: Seq::empty(),
                    parent: None,
                },
            ),
    {
        let mut dom = Dom {
            tree: SharedNode(0),
            nodes: Vec::new(),
            heights: Ghost(Seq::empty()),
            roots: Ghost(Seq::empty()),
            depths: Ghost(Seq::empty()),
        };
        let top = SharedNode::root(&mut dom);
        dom.tree = top;
        dom
    }

    /// Stores a detached node and gives its handle.
    pub fn insert_node(&mut self, node: Node) -> (r: SharedNode)
        requires
            old(self).wf(),
            node.wf(),
            node@.parent() is None,
            node@.children().len() == 0,
        ensures
            final(self).wf(),
            r.0 == old(self)@.nodes.len(),
            final(self)@ == (DomView { nodes: old(self)@.nodes.push(node@), tree: old(self)@.tree }),
            final(self).root_of(r.0) == r.0,
            forall|i: usize| i < old(self).len() ==> final(self).root_of(i) == old(self).root_of(i),
    {
        let ghost v0 = self@.nodes;
        let ghost h0 = self.heights@;
        let ghost r0 = self.roots@;
        let ghost d0 = self.depths@;
        let n = self.nodes.len();
        self.nodes.push(node);
        self.heights = Ghost(h0.push(0));
        self.roots = Ghost(r0.push(n));
        self.depths = Ghost(d0.push(0));
        proof {
            let v = self@.nodes;
            assert(v =~= v0.push(node@));
            assert forall|i: int| 0 <= i < v.len() implies (#[trigger] self.nodes@[i]).wf() by {
                if i < n {
                    assert(self.nodes@[i] == old(self).nodes@[i]);
                }
            }
            assert forall|i: int, k: int|
                0 <= i < v.len() && 0 <= k < v[i].children().len() implies {
                let c = #[trigger] v[i].children()[k];
                &&& (c as int) < v.len()
                &&& v[c as int].parent() == Some(i as usize)
                &&& self.heights@[c as int] < self.heights@[i]
            } by {
                assert(i < n);
                assert(v[i] == v0[i]);
            }
            assert forall|i: int| 0 <= i < v.len() implies (#[trigger] self.roots@[i] as int)
                < v.len() && match v[i].parent() {
                Some(p) => (p as int) < v.len() && v[p as int].is_element() && v[
                    p as int
                ].children().contains(i as usize) && self.roots@[i] == self.roots@[p as int]
                    && self.depths@[i] == self.depths@[p as int] + 1,
                None => self.roots@[i] == i && self.depths@[i] == 0,
            } by {
                if i < n {
                    assert(v[i] == v0[i]);
                    assert((r0[i] as int) < n);
                    match v[i].parent() {
                        Some(p) => {
                            assert(v[p as int] == v0[p as int]);
                        },
                        None => {},
                    }
                }
            }
            assert forall|i: int| 0 <= i < v.len() implies (#[trigger] v[i].children()).no_duplicates() by {
                if i < n {
                    assert(v[i] == v0[i]);
                }
            }
        }
        SharedNode(n)
    }

    /// The node behind a handle.
    pub fn node(&self, h: SharedNode) -> (r: &Node)
        requires
            (h.0 as int) < self.nodes@.len(),
        ensures
            r@ == self@.nodes[h.0 as int],
            *r == self.nodes@[h.0 as int],
    {
        &self.nodes[h.0]
    }

    /// The number of nodes stored.
    pub fn node_count(&self) -> (r: usize)
        ensures
            r == self@.nodes.len(),
    {
        self.nodes.len()
    }

    /// Resolves a weak handle: absent where it names no stored node.
    pub fn upgrade(&self, w: &WeakNode) -> (r: Option<SharedNode>)
        ensures
            r == (if (w.0 as int) < self@.nodes.len() {
                Some(SharedNode(w.0))
            } else {
                None
            }),
    {
        if w.0 < self.nodes.len() {
            Some(SharedNode(w.0))
        } else {
            None
        }
    }

    /// The parent of a node, resolved; absent where it has none.
    pub fn parent_of(&self, h: SharedNode) -> (r: Option<SharedNode>)
        requires
            self.wf(),
            (h.0 as int) < self.nodes@.len(),
        ensures
            match self@.nodes[h.0 as int].parent() {
                Some(p) => r == Some(SharedNode(p)),
                None => r is None,
            },
    {
        let ghost v = self@.nodes;
        assert(v[h.0 as int] == self.nodes@[h.0 as int]@);
        match self.nodes[h.0].parent() {
            Some(w) => {
                let r = self.upgrade(w);
                proof {
                    // The link names a stored node: instantiate the link invariant at `h`.
                    assert((self.roots@[h.0 as int] as int) < v.len());
                }
                r
            },
            None => None,
        }
    }

    /// The top of the tree that the node behind `h` is in: the ancestor without a parent (or
    /// the node itself).
    pub fn top(&self, h: SharedNode) -> (r: SharedNode)
        requires
            self.wf(),
            (h.0 as int) < self.nodes@.len(),
        ensures
            r.0 == self.root_of(h.0),
            (r.0 as int) < self.nodes@.len(),
            self@.nodes[r.0 as int].parent() is None,
    {
        let ghost v = self@.nodes;
        let mut cur = h.0;
        loop
            invariant
                self.wf(),
                v == self@.nodes,
                (cur as int) < v.len(),
                self.roots@[cur as int] == self.roots@[h.0 as int],
            decreases self.depths@[cur as int],
        {
            assert(v[cur as int] == self.nodes@[cur as int]@);
            match self.nodes[cur].parent() {
                Some(w) => {
                    cur = w.0;
                },
                None => {
                    return SharedNode(cur);
                },
            }
        }
    }

    /// The markup of the node behind `h`.
    pub fn inner_html(&self, h: SharedNode) -> (r: String)
        requires
            self.wf(),
            (h.0 as int) < self.nodes@.len(),
        ensures
            r@ == self.markup_of(h.0),
        decreases self.heights@[h.0 as int],
    {
        let ghost v = self@.nodes;
        let ghost hs = self.heights@;
        let i = h.0;
        assert(v[i as int] == self.nodes@[i as int]@);
        match &self.nodes[i] {
            Node::Text(t) => t.text.clone(),
            Node::Element(e) => {
                let mut out = String::new();
                push_char(&mut out, '<');
                out.append(e.tag_name.as_str());
                let mut k: usize = 0;
                assert(crate::node::attributes_view(e.attributes@).take(0) =~= Seq::empty());
                while k < e.attributes.len()
                    invariant
                        k <= e.attributes.len(),
                        out@ == seq!['<'] + e.tag_name@ + attributes_markup(
                            crate::node::attributes_view(e.attributes@).take(k as int),
                        ),
                    decreases e.attributes.len() - k,
                {
                    push_char(&mut out, ' ');
                    out.append(e.attributes[k].0.as_str());
                    push_char(&mut out, '=');
                    push_char(&mut out, '"');
                    push_escaped(&mut out, e.attributes[k].1.as_str());
                    push_char(&mut out, '"');
                    proof {
                        let a = crate::node::attributes_view(e.attributes@);
                        assert(a.take(k + 1).drop_last() =~= a.take(k as int));
                    }
                    k = k + 1;
                    proof {
                        let a = crate::node::attributes_view(e.attributes@);
                        assert(out@ =~= seq!['<'] + e.tag_name@ + attributes_markup(
                            a.take(k as int),
                        ));
                    }
                }
                assert(crate::node::attributes_view(e.attributes@).take(k as int)
                    =~= crate::node::attributes_view(e.attributes@));
                if e.children.len() == 0 {
                    push_char(&mut out, '/');
                    push_char(&mut out, '>');
                    assert(out@ =~= self.markup_of(i));
                } else {
                    push_char(&mut out, '>');
                    let ghost head = out@;
                    let mut j: usize = 0;
                    while j < e.children.len()
                        invariant
                            self.wf(),
                            (i as int) < v.len(),
                            i == h.0,
                            v == self@.nodes,
                            hs == self.heights@,
                            v[i as int] == NodeView::Element(e@),
                            j <= e.children.len(),
                            out@ == head + children_markup(v, hs, i as int, j as nat),
                        decreases e.children.len() - j,
                    {
                        let c = e.children[j];
                        assert(v[i as int].children()[j as int] == c.0);
                        assert(hs[c.0 as int] < hs[i as int]);
                        let part = self.inner_html(c);
                        out.append(part.as_str());
                        j = j + 1;
                        assert(out@ =~= head + children_markup(v, hs, i as int, j as nat));
                    }
                    push_char(&mut out, '<');
                    push_char(&mut out, '/');
                    out.append(e.tag_name.as_str());
                    push_char(&mut out, '>');
                    assert(out@ =~= self.markup_of(i));
                }
                out
            },
        }
    }
}

impl SharedNode {
    /// Stores a new detached sentinel element, tagged `root`, and gives its handle.
    pub fn root(dom: &mut Dom) -> (r: SharedNode)
        requires
            old(dom).wf() || old(dom).nodes@.len() == 0 && old(dom).heights@.len() == 0
                && old(dom).roots@.len() == 0 && old(dom).depths@.len() == 0,
        ensures
            r.0 == old(dom)@.nodes.len(),
            final(dom)@.nodes == old(dom)@.nodes.push(
                NodeView::Element(
                    ElementView {
                        tag: seq!['r', 'o', 'o', 't'],
                        attributes: Seq::empty(),
                        children: Seq::empty(),
                        parent: None,
                    },
                ),
            ),
            final(dom)@.tree == old(dom)@.tree,
            old(dom).wf() ==> final(dom).wf(),
            old(dom).nodes@.len() == 0 ==> links_ok(
                final(dom)@.nodes,
                final(dom).heights@,
                final(dom).roots@,
                final(dom).depths@,
            )
                && final(dom).nodes@[0].wf(),
    {
        let tag = String::from_str("root");
        proof {
            reveal_strlit("root");
        }
        let e = ElementNode::new_with_tag(tag);
        assert(tag@ =~= seq!['r', 'o', 'o', 't']);
        if dom.nodes.len() == 0 {
            dom.nodes.push(Node::Element(e));
            dom.heights = Ghost(Seq::empty().push(0nat));
            dom.roots = Ghost(Seq::empty().push(0usize));
            dom.depths = Ghost(Seq::empty().push(0nat));
            assert(dom@.nodes =~= old(dom)@.nodes.push(dom@.nodes[0]));
            assert(dom.nodes@[0].wf());
            SharedNode(0)
        } else {
            dom.insert_node(Node::Element(e))
        }
    }

    /// Attaches `node` as the last child of `self`.
    ///
    /// Fails with `AlreadyHasParent` where `node` has a parent, else with `NotAttachable` where
    /// `self` is a text node; on failure nothing changes. A node cannot be attached under
    /// itself or under a node of its own subtree.
    #[verifier::rlimit(40)]
    pub fn push(&self, dom: &mut Dom, node: SharedNode) -> (r: Result<(), DomPushError>)
        requires
            old(dom).wf(),
            (self.0 as int) < old(dom).nodes@.len(),
            (node.0 as int) < old(dom).nodes@.len(),
            old(dom)@.attach_outcome(self.0, node.0) is Ok ==> old(dom).root_of(self.0) != node.0,
        ensures
            final(dom).wf(),
            r == old(dom)@.attach_outcome(self.0, node.0),
            final(dom)@ == (if r is Ok {
                old(dom)@.attach(self.0, node.0)
            } else {
                old(dom)@
            }),
            forall|i: usize|
                (i as int) < old(dom).nodes@.len() ==> #[trigger] final(dom).root_of(i) == if r is Ok && old(dom).root_of(i) == node.0 {
                    old(dom).root_of(self.0)
                } else {
                    old(dom).root_of(i)
                },
    {
        let p = self.0;
        let c = node.0;
        let ghost v0 = dom@.nodes;
        assert(v0[c as int] == dom.nodes@[c as int]@);
        assert(v0[p as int] == dom.nodes@[p as int]@);
        if dom.nodes[c].parent().is_some() {
            return Err(DomPushError::AlreadyHasParent);
        }
        let is_element = match &dom.nodes[p] {
            Node::Element(_) => true,
            Node::Text(_) => false,
        };
        if !is_element {
            return Err(DomPushError::NotAttachable);
        }
        let ghost h0 = dom.heights@;
        let ghost r0 = dom.roots@;
        let ghost d0 = dom.depths@;
        let ghost nodes0 = dom.nodes@;
        dom.nodes[c].set_parent(Some(WeakNode(p)));
        let ghost nodes1 = dom.nodes@;
        assert(nodes1 =~= nodes0.update(c as int, nodes1[c as int]));
        match &mut dom.nodes[p] {
            Node::Element(e) => {
                let ghost before = e.children@;
                e.children.push(node);
                assert(e.children@.map_values(|x: SharedNode| x.0) =~= before.map_values(
                    |x: SharedNode| x.0,
                ).push(c));
            },
            Node::Text(_) => {},
        }
        let ghost nodes2 = dom.nodes@;
        assert(nodes2 =~= nodes1.update(p as int, nodes2[p as int]));
        let ghost n = v0.len();
        dom.heights = Ghost(
            Seq::new(n, |x: int| if r0[x] == c { h0[x] } else { h0[x] + h0[c as int] + 1 }),
        );
        dom.roots = Ghost(Seq::new(n, |x: int| if r0[x] == c { r0[p as int] } else { r0[x] }));
        dom.depths = Ghost(
            Seq::new(n, |x: int| if r0[x] == c { d0[x] + d0[p as int] + 1 } else { d0[x] }),
        );
        proof {
            assert(p != c) by {
                assert(self.0 != node.0 ==> p != c);
                if p == c {
                    assert(r0[c as int] == c);
                }
            }
            assert(nodes1[p as int] == nodes0[p as int]);
            assert(nodes2[p as int]@ =~= nodes0[p as int]@.with_child(c));
            assert(dom@.nodes =~= old(dom)@.attach(p, c).nodes);
            lemma_attach_links(v0, h0, r0, d0, p, c);
            assert forall|i: int| 0 <= i < dom.nodes@.len() implies (#[trigger] dom.nodes@[i]).wf() by {
                if i != p && i != c {
                    assert(dom.nodes@[i] == nodes0[i]);
                }
            }
        }
        Ok(())
    }
}

/// The markup that a node projects to, given the tree it is in.
pub trait InnerHtml {
    /// The node can be read in `dom`.
    spec fn fits_in(&self, dom: &Dom) -> bool;

    /// Its markup.
    spec fn markup_in(&self, dom: &Dom) -> Seq<char>;

    fn inner_html(&self, dom: &Dom) -> (r: String)
        requires
            dom.wf(),
            self.fits_in(dom),
        ensures
            r@ == self.markup_in(dom),
    ;
}

impl InnerHtml for SharedNode {
    open spec fn fits_in(&self, dom: &Dom) -> bool {
        (self.0 as int) < dom.nodes@.len()
    }

    open spec fn markup_in(&self, dom: &Dom) -> Seq<char> {
        dom.markup_of(self.0)
    }

    fn inner_html(&self, dom: &Dom) -> (r: String) {
        dom.inner_html(*self)
    }
}

impl InnerHtml for TextNode {
    open spec fn fits_in(&self, dom: &Dom) -> bool {
        true
    }

    /// The text as it is: characters that markup gives a meaning to are not escaped.
    open spec fn markup_in(&self, dom: &Dom) -> Seq<char> {
        self.text@
    }

    fn inner_html(&self, dom: &Dom) -> (r: String) {
        self.text.clone()
    }
}

/// Every node is listed among the children of at most one element, and only once there;
/// where it is listed, its parent link names that element, and where its parent link names
/// an element, that element lists it. Every operation on a `Dom` keeps `wf`, so this holds
/// after any sequence of attaches.
pub proof fn lemma_single_parent(dom: &Dom, n: usize)
    requires
        dom.wf(),
        (n as int) < dom@.nodes.len(),
    ensures
        forall|p: usize|
            (p as int) < dom@.nodes.len() && (#[trigger] dom@.nodes[p as int].children()).contains(n)
                ==> dom@.nodes[n as int].parent() == Some(p),
        forall|p: usize, a: int, b: int|
            (p as int) < dom@.nodes.len() && 0 <= a < b < dom@.nodes[p as int].children().len()
                ==> #[trigger] dom@.nodes[p as int].children()[a] != #[trigger] dom@.nodes[
                p as int
            ].children()[b],
        match dom@.nodes[n as int].parent() {
            Some(p) => (p as int) < dom@.nodes.len() && dom@.nodes[p as int].is_element()
                && dom@.nodes[p as int].children().contains(n),
            None => forall|p: usize|
                (p as int) < dom@.nodes.len() ==> !(#[trigger] dom@.nodes[p as int].children()).contains(n),
        },
{
    let v = dom@.nodes;
    assert forall|p: usize| (p as int) < v.len() && (#[trigger] v[p as int].children()).contains(n)
        implies v[n as int].parent() == Some(p) by {
        let k = choose|k: int| 0 <= k < v[p as int].children().len() && v[p as int].children()[k] == n;
        assert(v[p as int].children()[k] == n);
    }
    assert forall|p: usize, a: int, b: int|
        (p as int) < v.len() && 0 <= a < b < v[p as int].children().len() implies #[trigger] v[
        p as int
    ].children()[a] != #[trigger] v[p as int].children()[b] by {
        assert(v[p as int].children().no_duplicates());
    }
    assert((dom.roots@[n as int] as int) < v.len());
}

/// An attach is refused with `AlreadyHasParent` when the node has a parent, and otherwise
/// with `NotAttachable` when the would-be parent is a text node; a refused attach changes
/// nothing (see `SharedNode::push`).
pub proof fn lemma_attach_rejection(d: DomView, p: usize, c: usize)
    ensures
        d.nodes[c as int].parent() is Some ==> d.attach_outcome(p, c) == Err::<(), DomPushError>(
            DomPushError::AlreadyHasParent,
        ),
        d.nodes[c as int].parent() is None && d.nodes[p as int] is Text ==> d.attach_outcome(p, c)
            == Err::<(), DomPushError>(DomPushError::NotAttachable),
        d.nodes[c as int].parent() is None && d.nodes[p as int] is Element ==> d.attach_outcome(
            p,
            c,
        ) == Ok::<(), DomPushError>(()),
{
}

/// Writing the same value to the same key twice leaves the attributes, and so the id and
/// classes they give, as writing it once does.
pub proof fn lemma_idempotent_write(e: ElementView, k: Seq<char>, v: Option<Seq<char>>)
    requires
        keys_unique(e.attributes),
    ensures
        e.with_attribute(k, v).with_attribute(k, v) == e.with_attribute(k, v),
        cached_id(e.with_attribute(k, v).with_attribute(k, v).attributes) == cached_id(
            e.with_attribute(k, v).attributes,
        ),
        cached_classes(e.with_attribute(k, v).with_attribute(k, v).attributes) == cached_classes(
            e.with_attribute(k, v).attributes,
        ),
{
    let a = e.attributes;
    let a1 = with_attribute(a, k, v);
    lemma_with_attribute(a, k, v);
    match v {
        Some(val) => {
            let i = if crate::node::has_key(a, k) {
                crate::node::key_index(a, k)
            } else {
                a.len() as int
            };
            if crate::node::has_key(a, k) {
                assert(a[i].0 == k);
            }
            assert(a1[i] == (k, val));
            assert(crate::node::has_key(a1, k));
            let j = crate::node::key_index(a1, k);
            assert(a1[j].0 == k);
            assert(a1[i].0 == a1[j].0);
            assert(with_attribute(a1, k, v) =~= a1);
        },
        None => {
            assert(lookup(a1, k) is None);
            assert(!crate::node::has_key(a1, k));
        },
    }
}

/// An element's id and classes are what its attributes give: the id is the `id` value
/// without surrounding whitespace when anything is left, else absent; the classes are the
/// lowercase space-separated pieces of the `class` value. Every operation keeps this.
pub proof fn lemma_cache_matches_attributes(e: &ElementNode)
    requires
        e.wf(),
    ensures
        e.id_view() == match lookup(e@.attributes, crate::node::id_key()) {
            Some(v) => crate::node::id_of(v),
            None => None,
        },
        e.classes_view() == match lookup(e@.attributes, crate::node::class_key()) {
            Some(v) => crate::node::classes_of(v),
            None => Set::empty(),
        },
{
}

/// Attaching a parentless `c` under an element `p` outside `c`'s tree keeps the links in
/// agreement, with the ranks of the nodes outside `c`'s tree raised above `c`'s, and the
/// nodes of `c`'s tree moved to `p`'s tree.
pub proof fn lemma_attach_links(
    v: Seq<NodeView>,
    h: Seq<nat>,
    r: Seq<usize>,
    d: Seq<nat>,
    p: usize,
    c: usize,
)
    requires
        links_ok(v, h, r, d),
        (p as int) < v.len(),
        (c as int) < v.len(),
        v[c as int].parent() is None,
        v[p as int].is_element(),
        r[p as int] != c,
    ensures
        links_ok(
            (DomView { nodes: v, tree: 0 }).attach(p, c).nodes,
            Seq::new(v.len(), |x: int| if r[x] == c { h[x] } else { h[x] + h[c as int] + 1 }),
            Seq::new(v.len(), |x: int| if r[x] == c { r[p as int] } else { r[x] }),
            Seq::new(v.len(), |x: int| if r[x] == c { d[x] + d[p as int] + 1 } else { d[x] }),
        ),
{
    let w = (DomView { nodes: v, tree: 0 }).attach(p, c).nodes;
    let h2 = Seq::new(v.len(), |x: int| if r[x] == c { h[x] } else { h[x] + h[c as int] + 1 });
    let r2 = Seq::new(v.len(), |x: int| if r[x] == c { r[p as int] } else { r[x] });
    let d2 = Seq::new(v.len(), |x: int| if r[x] == c { d[x] + d[p as int] + 1 } else { d[x] });
    assert(p != c) by {
        assert(r[c as int] == c);
    }
    assert(w.len() == v.len());
    assert(forall|i: int| 0 <= i < v.len() && i != p && i != c ==> w[i] == v[i]);
    assert(w[p as int].children() == v[p as int].children().push(c));
    assert(w[c as int].children() == v[c as int].children());
    assert(w[c as int].parent() == Some(p));
    assert(w[p as int].parent() == v[p as int].parent());
    assert(w[p as int].is_element());
    assert forall|i: int| 0 <= i < w.len() implies (#[trigger] r2[i] as int) < w.len() && match w[
        i
    ].parent() {
        Some(q) => (q as int) < w.len() && w[q as int].is_element() && w[q as int].children().contains(
            i as usize,
        ) && r2[i] == r2[q as int] && d2[i] == d2[q as int] + 1,
        None => r2[i] == i && d2[i] == 0,
    } by {
        assert((r[i] as int) < v.len());
        assert((r[p as int] as int) < v.len());
        if i == c {
            assert(w[p as int].children()[v[p as int].children().len() as int] == c);
        } else {
            match v[i].parent() {
                Some(q) => {
                    assert(v[q as int].children().contains(i as usize));
                    let k = choose|k: int|
                        0 <= k < v[q as int].children().len() && v[q as int].children()[k]
                            == i as usize;
                    if q == p {
                        assert(w[q as int].children()[k] == i as usize);
                    } else if q == c {
                        assert(w[q as int].children()[k] == i as usize);
                    } else {
                        assert(w[q as int] == v[q as int]);
                    }
                },
                None => {
                    assert(r[i] == i);
                    if r[i] == c {
                        assert(i == c);
                    }
                },
            }
        }
    }
    assert forall|i: int, k: int| 0 <= i < w.len() && 0 <= k < w[i].children().len() implies {
        let x = #[trigger] w[i].children()[k];
        &&& (x as int) < w.len()
        &&& w[x as int].parent() == Some(i as usize)
        &&& h2[x as int] < h2[i]
    } by {
        let x = w[i].children()[k];
        if i == p && k == v[p as int].children().len() {
            assert(x == c);
            assert(r[c as int] == c);
        } else {
            assert(x == v[i].children()[k]);
            assert(v[x as int].parent() == Some(i as usize));
            assert(x != c);
            assert(r[x as int] == r[i]);
        }
    }
    assert forall|i: int| 0 <= i < w.len() implies (#[trigger] w[i].children()).no_duplicates() by {
        if i == p {
            assert forall|a: int, b: int|
                0 <= a < b < w[i].children().len() implies w[i].children()[a] != w[i].children()[b] by {
                if b == v[p as int].children().len() {
                    let x = v[p as int].children()[a];
                    assert(v[x as int].parent() == Some(p));
                }
            }
        } else if i != c {
            assert(w[i] == v[i]);
        }
    }
}

} // verus!
