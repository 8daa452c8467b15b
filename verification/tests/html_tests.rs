use toy_browser::dom::{AttrMap, Element, Node};
use toy_browser::html::{parse, HtmlError};

fn document(source: &str) -> Node {
    match parse(source.to_owned()) {
        Ok(node) => node,
        Err(error) => panic!("no document: {:?}", error),
    }
}

fn failure(source: &str) -> HtmlError {
    match parse(source.to_owned()) {
        Ok(_) => panic!("a document"),
        Err(error) => error,
    }
}

fn element(node: &Node) -> &Element {
    match node {
        Node::Element(element) => element,
        Node::Text(text) => panic!("a text: {}", text),
    }
}

fn text(node: &Node) -> &str {
    match node {
        Node::Text(text) => text,
        Node::Element(element) => panic!("an element: {}", element.tag_name),
    }
}

#[test]
fn html_a_text_runs_up_to_the_next_tag() {
    assert_eq!(text(&document("hello world")), "hello world");
    assert_eq!(text(&document("  two\n lines <b></b>")), "  two\n lines ");
}

#[test]
fn html_an_element_without_children() {
    let root = document("<div></div>");
    let root = element(&root);
    assert_eq!(root.tag_name, "div");
    assert_eq!(root.attributes.len(), 0);
    assert_eq!(root.children.len(), 0);
}

#[test]
fn html_attributes_in_double_and_single_quotes() {
    let root = document("<p id=\"x\" class='a b' data-n=\"it's\"  title='say \"hi\"' ></p>");
    let root = element(&root);
    assert_eq!(root.tag_name, "p");
    assert_eq!(root.attributes.len(), 4);
    assert_eq!(root.attributes.get("id"), Some(&"x".to_owned()));
    assert_eq!(root.attributes.get("class"), Some(&"a b".to_owned()));
    assert_eq!(root.attributes.get("data-n"), Some(&"it's".to_owned()));
    assert_eq!(root.attributes.get("title"), Some(&"say \"hi\"".to_owned()));
    assert_eq!(root.attributes.get("href"), None);
}

#[test]
fn html_an_empty_attribute_value() {
    let root = document("<a href=\"\"></a>");
    assert_eq!(element(&root).attributes.get("href"), Some(&"".to_owned()));
}

#[test]
fn html_of_two_attributes_of_one_name_the_later_counts() {
    let root = document("<a x=\"1\" y=\"2\" x=\"3\"></a>");
    let root = element(&root);
    assert_eq!(root.attributes.len(), 2);
    assert_eq!(root.attributes.get("x"), Some(&"3".to_owned()));
    assert_eq!(root.attributes.get("y"), Some(&"2".to_owned()));
}

#[test]
fn html_children_in_document_order() {
    let root = document("<ul><li>one</li> <li>two</li>tail</ul>");
    let root = element(&root);
    assert_eq!(root.children.len(), 4);
    assert_eq!(element(&root.children[0]).tag_name, "li");
    assert_eq!(text(&element(&root.children[0]).children[0]), "one");
    assert_eq!(text(&root.children[1]), " ");
    assert_eq!(text(&element(&root.children[2]).children[0]), "two");
    assert_eq!(text(&root.children[3]), "tail");
}

#[test]
fn html_elements_of_one_name_nest() {
    let root = document("<div><div><div>x</div></div><div></div></div>");
    let root = element(&root);
    assert_eq!(root.children.len(), 2);
    let first = element(&root.children[0]);
    assert_eq!(first.children.len(), 1);
    assert_eq!(text(&element(&first.children[0]).children[0]), "x");
    assert_eq!(element(&root.children[1]).children.len(), 0);
}

#[test]
fn html_white_space_in_text_is_kept() {
    let root = document("<p>\n  a  b\t</p>");
    assert_eq!(text(&element(&root).children[0]), "\n  a  b\t");
}

#[test]
fn html_tag_names_are_compared_as_written() {
    assert_eq!(failure("<p></P>"), HtmlError::ExpectedName);
    assert_eq!(failure("<P>text</p>"), HtmlError::ExpectedName);
    assert_eq!(element(&document("<P></P>")).tag_name, "P");
}

#[test]
fn html_what_follows_the_root_does_not_count() {
    assert_eq!(element(&document("<a></a><b></b>")).tag_name, "a");
    assert_eq!(element(&document("<a></a> and more <")).tag_name, "a");
}

#[test]
fn html_text_that_is_not_ascii() {
    let root = document("<p title=\"café\">naïve — 日本語</p>");
    let root = element(&root);
    assert_eq!(root.attributes.get("title"), Some(&"café".to_owned()));
    assert_eq!(text(&root.children[0]), "naïve — 日本語");
}

#[test]
fn html_a_text_that_ends_too_early_is_an_error() {
    assert_eq!(failure(""), HtmlError::UnexpectedEnd);
    assert_eq!(failure("<a"), HtmlError::UnexpectedEnd);
    assert_eq!(failure("<a "), HtmlError::UnexpectedEnd);
    assert_eq!(failure("<a>"), HtmlError::UnexpectedEnd);
    assert_eq!(failure("<a>text"), HtmlError::UnexpectedEnd);
    assert_eq!(failure("<a><b></b>"), HtmlError::UnexpectedEnd);
    assert_eq!(failure("<a x"), HtmlError::UnexpectedEnd);
    assert_eq!(failure("<a x="), HtmlError::UnexpectedEnd);
    assert_eq!(failure("<a x=\"1"), HtmlError::UnexpectedEnd);
    assert_eq!(failure("<a x=\"1\""), HtmlError::UnexpectedEnd);
}

#[test]
fn html_a_missing_name_is_an_error() {
    assert_eq!(failure("<>"), HtmlError::ExpectedName);
    assert_eq!(failure("< a></a>"), HtmlError::ExpectedName);
    assert_eq!(failure("</a>"), HtmlError::ExpectedName);
    assert_eq!(failure("<a></b></a>"), HtmlError::ExpectedName);
    assert_eq!(failure("<a></a"), HtmlError::ExpectedName);
    assert_eq!(failure("<a =\"1\"></a>"), HtmlError::ExpectedName);
    assert_eq!(failure("<a><!-- c --></a>"), HtmlError::ExpectedName);
}

#[test]
fn html_attributes_need_white_space_between_them() {
    assert_eq!(failure("<a x=\"1\"y=\"2\"></a>"), HtmlError::ExpectedSpace);
    assert_eq!(failure("<a/></a>"), HtmlError::ExpectedSpace);
    assert_eq!(failure("<a=b></a>"), HtmlError::ExpectedSpace);
}

#[test]
fn html_an_attribute_needs_an_equals_sign() {
    assert_eq!(failure("<a x></a>"), HtmlError::ExpectedEquals);
    assert_eq!(failure("<a x y=\"1\"></a>"), HtmlError::ExpectedEquals);
    assert_eq!(failure("<a x =\"1\"></a>"), HtmlError::ExpectedEquals);
}

#[test]
fn html_an_attribute_value_needs_quotes() {
    assert_eq!(failure("<a x=1></a>"), HtmlError::ExpectedQuote);
    assert_eq!(failure("<a x= \"1\"></a>"), HtmlError::ExpectedQuote);
    assert_eq!(failure("<a x=`1`></a>"), HtmlError::ExpectedQuote);
}

#[test]
fn html_the_attribute_map_replaces_and_keeps_order() {
    let mut attributes = AttrMap::new();
    assert_eq!(attributes.len(), 0);
    assert_eq!(attributes.get("a"), None);
    attributes.insert("a".to_owned(), "1".to_owned());
    attributes.insert("b".to_owned(), "2".to_owned());
    attributes.insert("a".to_owned(), "3".to_owned());
    assert_eq!(attributes.len(), 2);
    assert_eq!(attributes.get("a"), Some(&"3".to_owned()));
    assert_eq!(attributes.get("b"), Some(&"2".to_owned()));
    assert_eq!(attributes.name_at(0), "a");
    assert_eq!(attributes.value_at(0), "3");
    assert_eq!(attributes.name_at(1), "b");
    assert_eq!(attributes.value_at(1), "2");
}

#[test]
fn html_classes_are_the_words_of_the_class_attribute() {
    let root = document("<p class=\"a  bb c \"></p>");
    assert_eq!(element(&root).classes(), vec!["a".to_owned(), "bb".to_owned(), "c".to_owned()]);
    let root = document("<p class=\"\"></p>");
    assert_eq!(element(&root).classes().len(), 0);
    let root = document("<p class=\"   \"></p>");
    assert_eq!(element(&root).classes().len(), 0);
    let root = document("<p id=\"a\"></p>");
    assert_eq!(element(&root).classes().len(), 0);
    let root = document("<p class=\"one\"></p>");
    assert_eq!(element(&root).classes(), vec!["one".to_owned()]);
    let root = document("<p class=\"a\tb\"></p>");
    assert_eq!(element(&root).classes(), vec!["a\tb".to_owned()]);
}

#[test]
fn html_markup_of_a_text() {
    assert_eq!(Node::Text("hi there".to_owned()).markup(), "hi there");
}

#[test]
fn html_markup_of_a_tree() {
    let root = document("<a x=\"1\" y='2'><b></b>hi<c>deep</c></a>");
    assert_eq!(
        root.markup(),
        "<a x=\"1\" y=\"2\">\n    <b>\n\n    </b>\n    hi\n    <c>\n        deep\n    </c>\n</a>"
    );
}

#[test]
fn html_markup_of_an_element_without_attributes_and_children() {
    assert_eq!(document("<br></br>").markup(), "<br>\n\n</br>");
}

#[test]
fn html_markup_is_the_same_each_time() {
    let root = document("<a k=\"v\"><b>t</b></a>");
    assert_eq!(root.markup(), root.markup());
    let again = document("<a k=\"v\"><b>t</b></a>");
    assert_eq!(root.markup(), again.markup());
}
