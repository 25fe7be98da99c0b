use breeze::dom::{Dom, DomPushError, InnerHtml, SharedClone, SharedNode, WeakNode};
use breeze::errors::DomParseError;
use breeze::node::{ElementNode, Node, TextNode};

fn sorted(v: &Vec<String>) -> Vec<String> {
    let mut c = v.clone();
    c.sort();
    c
}

fn element(dom: &Dom, h: SharedNode) -> &ElementNode {
    match dom.node(h) {
        Node::Element(e) => e,
        Node::Text(_) => panic!("expected an element"),
    }
}

#[test]
fn attach_appends_in_order_and_links_parent() {
    let mut dom = Dom::new();
    let root = dom.tree;
    let a = dom.insert_node(Node::Element(ElementNode::new_with_tag("a".to_string())));
    let b = dom.insert_node(Node::Text(TextNode::new("b".to_string())));
    assert_eq!(root.push(&mut dom, a), Ok(()));
    assert_eq!(root.push(&mut dom, b), Ok(()));
    assert_eq!(element(&dom, dom.tree).children, vec![a, b]);
    assert_eq!(dom.parent_of(a), Some(dom.tree));
    assert_eq!(dom.parent_of(b), Some(dom.tree));
    assert_eq!(dom.parent_of(dom.tree), None);
    assert_eq!(dom.tree.inner_html(&dom), "<root><a/>b</root>");
}

#[test]
fn attach_of_a_node_with_a_parent_is_refused() {
    let mut dom = Dom::new();
    let root = dom.tree;
    let a = dom.insert_node(Node::Element(ElementNode::new_with_tag("a".to_string())));
    let c = dom.insert_node(Node::Element(ElementNode::new_with_tag("c".to_string())));
    assert_eq!(root.push(&mut dom, c), Ok(()));
    assert_eq!(a.push(&mut dom, c), Err(DomPushError::AlreadyHasParent));
    assert!(element(&dom, a).children.is_empty());
    assert_eq!(element(&dom, dom.tree).children, vec![c]);
    assert_eq!(dom.parent_of(c), Some(dom.tree));
}

#[test]
fn attach_under_a_text_node_is_refused() {
    let mut dom = Dom::new();
    let t = dom.insert_node(Node::Text(TextNode::new("t".to_string())));
    let a = dom.insert_node(Node::Element(ElementNode::new_with_tag("a".to_string())));
    assert_eq!(t.push(&mut dom, a), Err(DomPushError::NotAttachable));
    assert_eq!(dom.parent_of(a), None);
}

#[test]
fn parent_check_comes_before_the_text_check() {
    let mut dom = Dom::new();
    let root = dom.tree;
    let t = dom.insert_node(Node::Text(TextNode::new("t".to_string())));
    let a = dom.insert_node(Node::Element(ElementNode::new_with_tag("a".to_string())));
    assert_eq!(root.push(&mut dom, a), Ok(()));
    assert_eq!(t.push(&mut dom, a), Err(DomPushError::AlreadyHasParent));
}

#[test]
fn top_of_a_node_is_its_tree_root() {
    let mut dom = Dom::new();
    let root = dom.tree;
    let a = dom.insert_node(Node::Element(ElementNode::new_with_tag("a".to_string())));
    let b = dom.insert_node(Node::Element(ElementNode::new_with_tag("b".to_string())));
    assert_eq!(a.push(&mut dom, b), Ok(()));
    assert_eq!(dom.top(b), a);
    assert_eq!(dom.top(a), a);
    assert_eq!(root.push(&mut dom, a), Ok(()));
    assert_eq!(dom.top(b), root);
    assert_eq!(dom.tree.inner_html(&dom), "<root><a><b/></a></root>");
}

#[test]
fn a_new_root_is_a_detached_element() {
    let mut dom = Dom::new();
    let root = dom.tree;
    let r = SharedNode::root(&mut dom);
    assert_eq!(r, SharedNode(1));
    assert_eq!(element(&dom, r).tag_name, "root");
    assert_eq!(dom.parent_of(r), None);
    assert_eq!(root.push(&mut dom, r), Ok(()));
    assert_eq!(dom.tree.inner_html(&dom), "<root><root/></root>");
}

#[test]
fn weak_handles_resolve_only_to_stored_nodes() {
    let dom = Dom::new();
    let w: WeakNode = dom.tree.into();
    assert_eq!(w, WeakNode(0));
    assert_eq!(dom.upgrade(&w), Some(dom.tree));
    assert_eq!(dom.upgrade(&WeakNode(5)), None);
    assert_eq!(w.shared_clone(), w);
    assert_eq!(dom.tree.shared_clone(), dom.tree);
}

#[test]
fn node_parent_links() {
    let mut n = Node::Text(TextNode::new("x".to_string()));
    assert_eq!(n.parent(), None);
    n.set_parent(Some(WeakNode(3)));
    assert_eq!(n.parent(), Some(&WeakNode(3)));
    n.set_parent(None);
    assert_eq!(n.parent(), None);
}

#[test]
fn id_is_trimmed_and_empty_id_is_absent() {
    let mut e = ElementNode::new();
    e.set_attribute("ID", Some("  main\t".to_string()));
    assert_eq!(e.id(), Some("main"));
    assert_eq!(e.attribute("id"), Some("  main\t"));
    e.set_attribute("id", Some("   ".to_string()));
    assert_eq!(e.id(), None);
    e.set_attribute("id", Some("x".to_string()));
    assert_eq!(e.id(), Some("x"));
    e.set_attribute("id", None);
    assert_eq!(e.id(), None);
    assert_eq!(e.attribute("id"), None);
}

#[test]
fn classes_are_lowercase_space_split_tokens() {
    let mut e = ElementNode::new();
    e.set_attribute("Class", Some(" Rounded  stylish-Button rounded\n".to_string()));
    assert_eq!(sorted(e.classes()), vec!["rounded".to_string(), "stylish-button".to_string()]);
    e.set_attribute("class", Some("".to_string()));
    assert!(e.classes().is_empty());
    e.set_attribute("class", Some("a".to_string()));
    assert_eq!(sorted(e.classes()), vec!["a".to_string()]);
    e.set_attribute("class", None);
    assert!(e.classes().is_empty());
}

#[test]
fn writing_the_same_value_twice_is_as_writing_it_once() {
    let mut once = ElementNode::new();
    once.set_attribute("class", Some("p q".to_string()));
    let mut twice = ElementNode::new();
    twice.set_attribute("class", Some("p q".to_string()));
    twice.set_attribute("class", Some("p q".to_string()));
    assert_eq!(sorted(once.classes()), sorted(twice.classes()));
    assert_eq!(once.attributes, twice.attributes);
    assert_eq!(once.id(), twice.id());
}

#[test]
fn other_keys_leave_the_cache_alone() {
    let mut e = ElementNode::new();
    e.set_attribute("class", Some("k".to_string()));
    e.set_attribute("title", Some("t".to_string()));
    assert_eq!(sorted(e.classes()), vec!["k".to_string()]);
    assert_eq!(e.id(), None);
    assert_eq!(e.attribute("TITLE"), Some("t"));
    e.set_attribute("missing", None);
    assert_eq!(e.attributes.len(), 2);
}

#[test]
fn attribute_order_is_kept_on_overwrite() {
    let mut e = ElementNode::new_with_tag("x".to_string());
    e.set_attribute("a", Some("1".to_string()));
    e.set_attribute("b", Some("2".to_string()));
    e.set_attribute("A", Some("3".to_string()));
    assert_eq!(
        e.attributes,
        vec![("a".to_string(), "3".to_string()), ("b".to_string(), "2".to_string())]
    );
    e.set_attribute("a", None);
    assert_eq!(e.attributes, vec![("b".to_string(), "2".to_string())]);
}

#[test]
fn bulk_construction_fills_the_cache() {
    let e = ElementNode::new_with_tag_and_attributes(
        "Div".to_string(),
        vec![
            ("ID".to_string(), " top ".to_string()),
            ("class".to_string(), "X y".to_string()),
            ("Class".to_string(), "Z".to_string()),
        ],
    );
    assert_eq!(e.tag_name, "Div");
    assert_eq!(e.id(), Some("top"));
    assert_eq!(sorted(e.classes()), vec!["z".to_string()]);
    assert_eq!(e.attributes.len(), 2);
    assert_eq!(e.attribute("class"), Some("Z"));
}

#[test]
fn set_tag_replaces_the_name() {
    let mut e = ElementNode::new();
    assert_eq!(e.tag_name, "");
    e.set_tag("span".to_string());
    assert_eq!(e.tag_name, "span");
}

#[test]
fn text_markup_is_not_escaped() {
    let dom = Dom::new();
    let t = TextNode::new("<b>&".to_string());
    assert_eq!(t.inner_html(&dom), "<b>&");
}

#[test]
fn error_messages() {
    assert_eq!(DomPushError::NotAttachable.message(), "text nodes can't have children");
    assert_eq!(DomPushError::AlreadyHasParent.message(), "node already has parent");
    assert_eq!(DomParseError::ParseError(0).message(), "failed to parse html");
}
