//! The tree builder: the tokens of the markup turned into a `Dom` under its sentinel root.
//!
//! Each start tag becomes an element, with its attributes written as `set_attribute` writes
//! them, attached to the innermost element still open; unless it has no content, it stays
//! open until the end tag with the same name. Each text becomes a text node attached the same
//! way. An end tag that does not name the innermost open element, or an element left open at
//! the end of the input, is a parse error.
use vstd::prelude::*;
use crate::dom::{Dom, DomView};
use crate::errors::DomParseError;
use crate::grammar::{lex, tokenize, AttributeValue, Token};
use crate::node::{ElementNode, ElementView, Node, NodeView, TextNode};
use crate::shared::SharedNode;
use crate::text::{chars_of, copy_range, lower, string_of, unescape, unescaped};

verus! {

/// The builder between two tokens: the nodes so far, the open elements (innermost last; the
/// root first), and the element whose start tag is being read.
pub struct BuildState {
    pub nodes: Seq<NodeView>,
    pub stack: Seq<usize>,
    pub pending: Option<ElementView>,
}

impl NodeView {
    pub open spec fn tag(self) -> Seq<char> {
        match self {
            NodeView::Element(e) => e.tag,
            NodeView::Text(_) => Seq::empty(),
        }
    }
}

pub open spec fn root_view() -> NodeView {
    NodeView::Element(
        ElementView {
            tag: seq!['r', 'o', 'o', 't'],
            attributes: Seq::empty(),
            children: Seq::empty(),
            parent: None,
        },
    )
}

/// `start..end` is a range of `s`.
pub open spec fn fits(s: Seq<char>, start: usize, end: usize) -> bool {
    start <= end <= s.len()
}

/// The value an attribute is given.
pub open spec fn value_of(s: Seq<char>, v: AttributeValue) -> Seq<char> {
    match v {
        AttributeValue::Absent => Seq::empty(),
        AttributeValue::Quoted { quote, start, end } => unescaped(
            s.subrange(start as int, end as int),
            quote,
        ),
        AttributeValue::Naked { start, end } => s.subrange(start as int, end as int),
    }
}

pub open spec fn value_fits(s: Seq<char>, v: AttributeValue) -> bool {
    match v {
        AttributeValue::Absent => true,
        AttributeValue::Quoted { quote, start, end } => fits(s, start, end),
        AttributeValue::Naked { start, end } => fits(s, start, end),
    }
}

/// `n` is stored as a new node and attached under the innermost open element.
pub open spec fn add_node(st: BuildState, n: NodeView) -> Seq<NodeView> {
    (DomView { nodes: st.nodes.push(n), tree: 0 }).attach(st.stack.last(), st.nodes.len() as usize).nodes
}

/// What one token does to the builder; or the offset of the error it is.
pub open spec fn step(s: Seq<char>, st: BuildState, t: Token) -> Result<BuildState, int> {
    match t {
        Token::TagStart { start, end } => if !fits(s, start, end) {
            Err(start as int)
        } else {
            Ok(
                BuildState {
                    pending: Some(
                        ElementView {
                            tag: s.subrange(start as int, end as int),
                            attributes: Seq::empty(),
                            children: Seq::empty(),
                            parent: None,
                        },
                    ),
                    ..st
                },
            )
        },
        Token::Attribute { start, end, value } => if !fits(s, start, end) || !value_fits(s, value) {
            Err(start as int)
        } else {
            match st.pending {
                Some(e) => Ok(
                    BuildState {
                        pending: Some(
                            e.with_attribute(
                                lower(s.subrange(start as int, end as int)),
                                Some(value_of(s, value)),
                            ),
                        ),
                        ..st
                    },
                ),
                None => Ok(st),
            }
        },
        Token::TagEnd { closed } => match st.pending {
            Some(e) => Ok(
                BuildState {
                    nodes: add_node(st, NodeView::Element(e)),
                    stack: if closed {
                        st.stack
                    } else {
                        st.stack.push(st.nodes.len() as usize)
                    },
                    pending: None,
                },
            ),
            None => Ok(st),
        },
        Token::Close { start, end } => if fits(s, start, end) && st.stack.len() > 1
            && st.nodes[st.stack.last() as int].tag() == s.subrange(start as int, end as int) {
            Ok(BuildState { stack: st.stack.drop_last(), ..st })
        } else {
            Err(start as int)
        },
        Token::Text { start, end } => if !fits(s, start, end) {
            Err(start as int)
        } else {
            Ok(
                BuildState {
                    nodes: add_node(
                        st,
                        NodeView::Text(
                            crate::node::TextView {
                                text: s.subrange(start as int, end as int),
                                parent: None,
                            },
                        ),
                    ),
                    ..st
                },
            )
        },
    }
}

/// The builder after the first `n` tokens.
pub open spec fn run(s: Seq<char>, toks: Seq<Token>, n: nat) -> Result<BuildState, int>
    decreases n,
{
    if n == 0 {
        Ok(BuildState { nodes: seq![root_view()], stack: seq![0usize], pending: None })
    } else {
        match run(s, toks, (n - 1) as nat) {
            Ok(st) => if n <= toks.len() {
                step(s, st, toks[n - 1])
            } else {
                Ok(st)
            },
            Err(e) => Err(e),
        }
    }
}

/// An error stays an error as more tokens are read.
pub proof fn lemma_run_err(s: Seq<char>, toks: Seq<Token>, n: nat, m: nat)
    requires
        n <= m,
        run(s, toks, n) is Err,
    ensures
        run(s, toks, m) == run(s, toks, n),
    decreases m - n,
{
    if n < m {
        lemma_run_err(s, toks, n, (m - 1) as nat);
    }
}

/// The tree that the tokens build, rooted at node 0; or the offset of the error.
pub open spec fn built(s: Seq<char>, toks: Seq<Token>) -> Result<DomView, int> {
    match run(s, toks, toks.len()) {
        Err(e) => Err(e),
        Ok(st) => if st.stack.len() == 1 {
            Ok(DomView { nodes: st.nodes, tree: 0 })
        } else {
            Err(s.len() as int)
        },
    }
}

/// The tree that markup text gives; or the offset where it stops following the grammar.
pub open spec fn parsed(s: Seq<char>) -> Result<DomView, int> {
    match lex(s, 0) {
        Err(e) => Err(e),
        Ok(toks) => built(s, toks),
    }
}

/// Whether `v[lo..hi]` is the text of `t`.
fn range_equals(v: &Vec<char>, lo: usize, hi: usize, t: &String) -> (r: bool)
    requires
        lo <= hi <= v.len(),
    ensures
        r == (v@.subrange(lo as int, hi as int) == t@),
{
    let w = chars_of(t.as_str());
    if hi - lo != w.len() {
        return false;
    }
    let mut k: usize = 0;
    while k < w.len()
        invariant
            lo <= hi <= v.len(),
            hi - lo == w.len(),
            w@ == t@,
            k <= w.len(),
            forall|x: int| 0 <= x < k ==> v@[lo + x] == w@[x],
        decreases w.len() - k,
    {
        if v[lo + k] != w[k] {
            assert(v@.subrange(lo as int, hi as int)[k as int] != t@[k as int]);
            return false;
        }
        k = k + 1;
    }
    assert(v@.subrange(lo as int, hi as int) =~= t@);
    true
}

fn range_fits(v: &Vec<char>, start: usize, end: usize) -> (r: bool)
    ensures
        r == fits(v@, start, end),
{
    start <= end && end <= v.len()
}

/// The value an attribute is given.
fn attribute_value(v: &Vec<char>, value: AttributeValue) -> (r: Option<String>)
    ensures
        r is Some <==> value_fits(v@, value),
        r matches Some(x) ==> x@ == value_of(v@, value),
{
    match value {
        AttributeValue::Absent => Some(String::new()),
        AttributeValue::Quoted { quote, start, end } => {
            if !range_fits(v, start, end) {
                return None;
            }
            let raw = copy_range(v, start, end);
            let u = unescape(&raw, quote);
            let r = string_of(&u, 0, u.len());
            assert(u@.subrange(0, u.len() as int) =~= u@);
            Some(r)
        },
        AttributeValue::Naked { start, end } => {
            if !range_fits(v, start, end) {
                return None;
            }
            Some(string_of(v, start, end))
        },
    }
}

impl Dom {
    /// The builder's view of an arena, open elements and pending element.
    pub open spec fn state_of(&self, stack: Seq<usize>, pending: Option<ElementNode>) -> BuildState {
        BuildState {
            nodes: self@.nodes,
            stack,
            pending: match pending {
                Some(e) => Some(e@),
                None => None,
            },
        }
    }

    /// Builds the tree that the tokens of `v` give.
    pub fn build(v: &Vec<char>, toks: &Vec<Token>) -> (r: Result<Dom, DomParseError>)
        ensures
            match built(v@, toks@) {
                Err(e) => r == Err::<Dom, DomParseError>(DomParseError::ParseError(e as usize)),
                Ok(d) => r matches Ok(dom) && dom.wf() && dom@ == d,
            },
    {
        let ghost s = v@;
        let mut dom = Dom::new();
        let mut stack: Vec<usize> = Vec::new();
        stack.push(0);
        let mut pending: Option<ElementNode> = None;
        let mut i: usize = 0;
        assert(dom@.nodes =~= seq![root_view()]);
        assert(stack@ =~= seq![0usize]);
        while i < toks.len()
            invariant
                s == v@,
                i <= toks.len(),
                dom.wf(),
                dom@.tree == 0,
                stack@.len() >= 1,
                forall|k: int|
                    0 <= k < stack@.len() ==> (#[trigger] stack@[k] as int) < dom@.nodes.len()
                        && dom@.nodes[stack@[k] as int].is_element(),
                pending matches Some(e) ==> e.wf() && e@.parent is None && e@.children.len()
                    == 0,
                run(s, toks@, i as nat) == Ok::<BuildState, int>(dom.state_of(stack@, pending)),
            decreases toks.len() - i,
        {
            let t = toks[i];
            let ghost st = dom.state_of(stack@, pending);
            match t {
                Token::TagStart { start, end } => {
                    if !range_fits(v, start, end) {
                        proof {
                            lemma_run_err(s, toks@, (i + 1) as nat, toks@.len());
                        }
                        return Err(DomParseError::ParseError(start));
                    }
                    pending = Some(ElementNode::new_with_tag(string_of(v, start, end)));
                },
                Token::Attribute { start, end, value } => {
                    if !range_fits(v, start, end) {
                        proof {
                            lemma_run_err(s, toks@, (i + 1) as nat, toks@.len());
                        }
                        return Err(DomParseError::ParseError(start));
                    }
                    let val = match attribute_value(v, value) {
                        Some(x) => x,
                        None => {
                            proof {
                            lemma_run_err(s, toks@, (i + 1) as nat, toks@.len());
                        }
                        return Err(DomParseError::ParseError(start));
                        },
                    };
                    let key = string_of(v, start, end);
                    match pending {
                        Some(mut e) => {
                            e.set_attribute(key.as_str(), Some(val));
                            pending = Some(e);
                        },
                        None => {
                            pending = None;
                        },
                    }
                },
                Token::TagEnd { closed } => {
                    match pending {
                        Some(e) => {
                            let top = stack[stack.len() - 1];
                            assert(stack@[stack@.len() - 1] == top);
                            let h = dom.insert_node(Node::Element(e));
                            let attached = SharedNode(top).push(&mut dom, h);
                            assert(attached is Ok);
                            if !closed {
                                stack.push(h.0);
                            }
                            pending = None;
                            proof {
                                assert forall|k: int| 0 <= k < stack@.len() implies (#[trigger] stack@[k] as int)
                                    < dom@.nodes.len() && dom@.nodes[stack@[k] as int].is_element() by {
                                    if k < st.stack.len() {
                                        assert(stack@[k] == st.stack[k]);
                                    }
                                }
                            }
                        },
                        None => {
                            pending = None;
                        },
                    }
                },
                Token::Close { start, end } => {
                    if !range_fits(v, start, end) || stack.len() <= 1 {
                        proof {
                            lemma_run_err(s, toks@, (i + 1) as nat, toks@.len());
                        }
                        return Err(DomParseError::ParseError(start));
                    }
                    let top = stack[stack.len() - 1];
                    assert(stack@[stack@.len() - 1] == top);
                    let same = match dom.node(SharedNode(top)) {
                        Node::Element(e) => range_equals(v, start, end, &e.tag_name),
                        Node::Text(_) => false,
                    };
                    if !same {
                        proof {
                            lemma_run_err(s, toks@, (i + 1) as nat, toks@.len());
                        }
                        return Err(DomParseError::ParseError(start));
                    }
                    stack.pop();
                    proof {
                        assert(stack@ =~= st.stack.drop_last());
                        assert forall|k: int| 0 <= k < stack@.len() implies (#[trigger] stack@[k] as int)
                            < dom@.nodes.len() && dom@.nodes[stack@[k] as int].is_element() by {
                            assert(stack@[k] == st.stack[k]);
                        }
                    }
                },
                Token::Text { start, end } => {
                    if !range_fits(v, start, end) {
                        proof {
                            lemma_run_err(s, toks@, (i + 1) as nat, toks@.len());
                        }
                        return Err(DomParseError::ParseError(start));
                    }
                    let top = stack[stack.len() - 1];
                    assert(stack@[stack@.len() - 1] == top);
                    let h = dom.insert_node(Node::Text(TextNode::new(string_of(v, start, end))));
                    let attached = SharedNode(top).push(&mut dom, h);
                    assert(attached is Ok);
                },
            }
            proof {
                assert(run(s, toks@, (i + 1) as nat) == step(s, st, t));
            }
            i = i + 1;
        }
        if stack.len() != 1 {
            return Err(DomParseError::ParseError(v.len()));
        }
        Ok(dom)
    }

    /// Reads markup text into a tree under a sentinel element tagged `root`.
    pub fn parse(html: &str) -> (r: Result<Dom, DomParseError>)
        ensures
            match parsed(html@) {
                Err(e) => r == Err::<Dom, DomParseError>(DomParseError::ParseError(e as usize)),
                Ok(d) => r matches Ok(dom) && dom.wf() && dom@ == d,
            },
    {
        let v = chars_of(html);
        match tokenize(&v) {
            Err(e) => Err(DomParseError::ParseError(e)),
            Ok(toks) => Dom::build(&v, &toks),
        }
    }
}

} // verus!
