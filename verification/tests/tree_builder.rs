//! Tests of the tree builder over the event reader.

use reader_for_microxml::tree::get_root_element;
use reader_for_microxml::tree::Node;

/// A root with an attribute and a text child.
#[test]
fn tree_root_with_attribute_and_text() {
    let root = get_root_element("<html class=\"cl_name\">test</html>").unwrap();
    assert_eq!(root.name, "html");
    assert_eq!(root.attributes.len(), 1);
    assert_eq!(root.attributes[0].name, "class");
    assert_eq!(root.attributes[0].value, "cl_name");
    assert_eq!(root.nodes.len(), 1);
    match &root.nodes[0] {
        Node::Text(t) => assert_eq!(t, "test"),
        other => panic!("expected a text leaf, got {:?}", other),
    }
}

/// Nested elements become nested nodes, in reading order.
#[test]
fn tree_nested_elements() {
    let root = get_root_element("<a><b>x</b>y</a>").unwrap();
    assert_eq!(root.name, "a");
    assert_eq!(root.nodes.len(), 2);
    match &root.nodes[0] {
        Node::Element(b) => {
            assert_eq!(b.name, "b");
            assert_eq!(b.nodes.len(), 1);
            match &b.nodes[0] {
                Node::Text(t) => assert_eq!(t, "x"),
                other => panic!("expected a text leaf, got {:?}", other),
            }
        }
        other => panic!("expected a child element, got {:?}", other),
    }
    match &root.nodes[1] {
        Node::Text(t) => assert_eq!(t, "y"),
        other => panic!("expected a text leaf, got {:?}", other),
    }
}

/// Comments are not data for the tree builder.
#[test]
fn tree_skips_comments() {
    let root = get_root_element("<a><!--c-->x</a>").unwrap();
    assert_eq!(root.nodes.len(), 1);
    match &root.nodes[0] {
        Node::Text(t) => assert_eq!(t, "x"),
        other => panic!("expected a text leaf, got {:?}", other),
    }
}

/// An input that does not begin with an element has no root.
#[test]
fn tree_no_root_element() {
    let err = get_root_element("test").unwrap_err();
    assert_eq!(err, "Error: no root element");
}

/// A malformed construct aborts the build with its message.
#[test]
fn tree_error_aborts() {
    let err = get_root_element("<html no_good >test</html>").unwrap_err();
    assert_eq!(err, "Error: Attribute does not have the char = .");
}

/// A malformed construct inside a child aborts the whole build.
#[test]
fn tree_error_in_child_aborts() {
    let err = get_root_element("<a><b no_good ></b></a>").unwrap_err();
    assert_eq!(err, "Error: Attribute does not have the char = .");
}

/// Attributes of nested children land on the right element.
#[test]
fn tree_nested_attributes() {
    let root = get_root_element("<a x=\"1\"><b y=\"2\"/></a>").unwrap();
    assert_eq!(root.attributes.len(), 1);
    assert_eq!(root.attributes[0].name, "x");
    assert_eq!(root.attributes[0].value, "1");
    match &root.nodes[0] {
        Node::Element(b) => {
            assert_eq!(b.name, "b");
            assert_eq!(b.attributes.len(), 1);
            assert_eq!(b.attributes[0].name, "y");
            assert_eq!(b.attributes[0].value, "2");
            assert_eq!(b.nodes.len(), 0);
        }
        other => panic!("expected a child element, got {:?}", other),
    }
}
