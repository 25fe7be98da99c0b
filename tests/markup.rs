use breeze::dom::{Dom, InnerHtml, SharedNode};
use breeze::errors::DomParseError;
use breeze::node::{ElementNode, Node};

fn element(dom: &Dom, h: SharedNode) -> &ElementNode {
    match dom.node(h) {
        Node::Element(e) => e,
        Node::Text(_) => panic!("expected an element"),
    }
}

fn text(dom: &Dom, h: SharedNode) -> String {
    match dom.node(h) {
        Node::Text(t) => t.text.clone(),
        Node::Element(_) => panic!("expected a text node"),
    }
}

fn children(dom: &Dom, h: SharedNode) -> Vec<SharedNode> {
    element(dom, h).children.clone()
}

fn sorted_classes(e: &ElementNode) -> Vec<String> {
    let mut c = e.classes().clone();
    c.sort();
    c
}

#[test]
pub fn _0() {
    let dom = Dom::parse(
        r#"
    <p>This is a cat!</p>
    <img src="foo.png"/>
    <quirky lol="\"" owo="\\" x="\'" y='\"' />
    <button type="button" id="register-button" class="rounded stylish-button">Register</button>
  "#,
    )
    .unwrap();
    println!("{}", dom.tree.inner_html(&dom));
}

#[test]
fn sample_document_structure() {
    let dom = Dom::parse(
        r#"
    <p>This is a cat!</p>
    <img src="foo.png"/>
    <quirky lol="\"" owo="\\" x="\'" y='\"' />
    <button type="button" id="register-button" class="rounded stylish-button">Register</button>
  "#,
    )
    .unwrap();
    let top = children(&dom, dom.tree);
    assert_eq!(top.len(), 4);
    assert_eq!(element(&dom, top[0]).tag_name, "p");
    assert_eq!(text(&dom, children(&dom, top[0])[0]), "This is a cat!");
    let quirky = element(&dom, top[2]);
    assert_eq!(quirky.attribute("lol"), Some("\""));
    assert_eq!(quirky.attribute("owo"), Some("\\"));
    assert_eq!(quirky.attribute("x"), Some("\\'"));
    assert_eq!(quirky.attribute("y"), Some("\\\""));
    let button = element(&dom, top[3]);
    assert_eq!(button.id(), Some("register-button"));
    assert_eq!(button.attribute("TYPE"), Some("button"));
}

#[test]
fn single_void_image() {
    let dom = Dom::parse(r#"<img src="a.png"/>"#).unwrap();
    let top = children(&dom, dom.tree);
    assert_eq!(top.len(), 1);
    let img = element(&dom, top[0]);
    assert_eq!(img.tag_name, "img");
    assert_eq!(img.attribute("src"), Some("a.png"));
    assert_eq!(img.attributes.len(), 1);
    assert!(img.children.is_empty());
    assert_eq!(dom.parent_of(top[0]), Some(dom.tree));
}

#[test]
fn button_with_classes_and_text() {
    let dom = Dom::parse(r#"<button class="rounded stylish-button">Register</button>"#).unwrap();
    let top = children(&dom, dom.tree);
    assert_eq!(top.len(), 1);
    let button = element(&dom, top[0]);
    assert_eq!(sorted_classes(button), vec!["rounded".to_string(), "stylish-button".to_string()]);
    assert_eq!(button.children.len(), 1);
    assert_eq!(text(&dom, button.children[0]), "Register");
}

#[test]
fn nested_elements_and_text() {
    let dom = Dom::parse("<p>A<b>B</b></p>").unwrap();
    let top = children(&dom, dom.tree);
    assert_eq!(top.len(), 1);
    let p = element(&dom, top[0]);
    assert_eq!(p.tag_name, "p");
    assert_eq!(p.children.len(), 2);
    assert_eq!(text(&dom, p.children[0]), "A");
    let b = element(&dom, p.children[1]);
    assert_eq!(b.tag_name, "b");
    assert_eq!(b.children.len(), 1);
    assert_eq!(text(&dom, b.children[0]), "B");
    assert_eq!(dom.parent_of(b.children[0]), Some(p.children[1]));
}

#[test]
fn escaped_double_quote_in_value() {
    let dom = Dom::parse(r#"<x v="a\"b"/>"#).unwrap();
    let x = element(&dom, children(&dom, dom.tree)[0]);
    assert_eq!(x.attribute("v"), Some("a\"b"));
}

#[test]
fn escaped_single_quote_in_value() {
    let dom = Dom::parse(r#"<x v='a\'b'/>"#).unwrap();
    let x = element(&dom, children(&dom, dom.tree)[0]);
    assert_eq!(x.attribute("v"), Some("a'b"));
}

#[test]
fn escaped_backslash_in_value() {
    let dom = Dom::parse(r#"<x v="a\\b"/>"#).unwrap();
    let x = element(&dom, children(&dom, dom.tree)[0]);
    assert_eq!(x.attribute("v"), Some("a\\b"));
}

#[test]
fn naked_and_empty_values() {
    let dom = Dom::parse("<input value=abc disabled Name = 'n'>").unwrap();
    let top = children(&dom, dom.tree);
    assert_eq!(top.len(), 1);
    let input = element(&dom, top[0]);
    assert_eq!(input.attribute("value"), Some("abc"));
    assert_eq!(input.attribute("disabled"), Some(""));
    assert_eq!(input.attribute("name"), Some("n"));
    assert!(input.children.is_empty());
}

#[test]
fn later_duplicate_attribute_wins() {
    let dom = Dom::parse(r#"<a href="x" HREF="y"/>"#).unwrap();
    let a = element(&dom, children(&dom, dom.tree)[0]);
    assert_eq!(a.attributes.len(), 1);
    assert_eq!(a.attribute("href"), Some("y"));
}

#[test]
fn comments_and_declarations_are_skipped() {
    let dom = Dom::parse("<!DOCTYPE html>\n<!-- a comment -->\n<br>\n<p>x<!-- inner --></p>").unwrap();
    let top = children(&dom, dom.tree);
    assert_eq!(top.len(), 2);
    assert_eq!(element(&dom, top[0]).tag_name, "br");
    let p = element(&dom, top[1]);
    assert_eq!(p.children.len(), 1);
    assert_eq!(text(&dom, p.children[0]), "x");
}

#[test]
fn text_keeps_inner_spaces_and_drops_trailing_ones() {
    let dom = Dom::parse("<p>  two words  </p>").unwrap();
    let p = element(&dom, children(&dom, dom.tree)[0]);
    assert_eq!(text(&dom, p.children[0]), "two words");
}

#[test]
fn empty_input_gives_bare_root() {
    let dom = Dom::parse("  \n ").unwrap();
    assert_eq!(dom.node_count(), 1);
    assert_eq!(element(&dom, dom.tree).tag_name, "root");
    assert_eq!(dom.tree.inner_html(&dom), "<root/>");
}

#[test]
fn unclosed_element_is_an_error() {
    assert_eq!(Dom::parse("<p>text").err(), Some(DomParseError::ParseError(7)));
}

#[test]
fn mismatched_end_tag_is_an_error() {
    assert_eq!(Dom::parse("<p></q>").err(), Some(DomParseError::ParseError(5)));
}

#[test]
fn stray_end_tag_is_an_error() {
    assert_eq!(Dom::parse("</p>").err(), Some(DomParseError::ParseError(2)));
}

#[test]
fn unterminated_quote_is_an_error() {
    assert_eq!(Dom::parse(r#"<p a="x>"#).err(), Some(DomParseError::ParseError(5)));
}

#[test]
fn lone_angle_bracket_is_an_error() {
    assert_eq!(Dom::parse("a < b").err(), Some(DomParseError::ParseError(2)));
}

#[test]
fn markup_of_parsed_tree() {
    let dom = Dom::parse(r#"<div id=" main "><span class="A b"/>hi</div>"#).unwrap();
    assert_eq!(
        dom.tree.inner_html(&dom),
        r#"<root><div id=" main "><span class="A b"/>hi</div></root>"#
    );
    let div = children(&dom, dom.tree)[0];
    assert_eq!(element(&dom, div).id(), Some("main"));
}

#[test]
fn markup_escapes_attribute_values() {
    let dom = Dom::parse(r#"<x v='a"b\\c'/>"#).unwrap();
    assert_eq!(dom.tree.inner_html(&dom), r#"<root><x v="a\"b\\c"/></root>"#);
}

fn same_tree(a: &Dom, ha: SharedNode, b: &Dom, hb: SharedNode) -> bool {
    match (a.node(ha), b.node(hb)) {
        (Node::Text(x), Node::Text(y)) => x.text == y.text,
        (Node::Element(x), Node::Element(y)) => {
            let mut ax = x.attributes.clone();
            let mut ay = y.attributes.clone();
            ax.sort();
            ay.sort();
            x.tag_name == y.tag_name
                && ax == ay
                && x.children.len() == y.children.len()
                && x.children
                    .iter()
                    .zip(y.children.iter())
                    .all(|(cx, cy)| same_tree(a, *cx, b, *cy))
        }
        _ => false,
    }
}

#[test]
fn markup_parses_back_to_the_same_tree() {
    let source = r#"<div id="a" class="x y"><span/><p title=t><i k='v'></i></p></div><hr>"#;
    let first = Dom::parse(source).unwrap();
    let markup = first.tree.inner_html(&first);
    // The projection wraps everything in the sentinel root, which reads back as one element.
    let second = Dom::parse(&markup).unwrap();
    let wrapped = children(&second, second.tree)[0];
    assert_eq!(element(&second, wrapped).tag_name, "root");
    assert!(same_tree(&first, first.tree, &second, wrapped));
}
