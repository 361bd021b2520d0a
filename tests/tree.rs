use xml_tree::{Document, Node, NodeType, ParseOptions, XmlError};

fn element(doc: &mut Document, parent: &mut Node, name: &str) -> Node {
    let mut n = Node::new(name, doc).unwrap();
    parent.add_child(doc, &mut n).unwrap()
}

fn with_root(name: &str) -> (Document, Node) {
    let mut doc = Document::new().unwrap();
    let mut root = Node::new(name, &mut doc).unwrap();
    doc.set_root_element(&mut root);
    (doc, root)
}

/// `<root><child></child><sibling></sibling></root>`
fn two_children() -> (Document, Node) {
    let (mut doc, mut root) = with_root("root");
    element(&mut doc, &mut root, "child");
    element(&mut doc, &mut root, "sibling");
    (doc, root)
}

/// `<root><child>child</child><sibling>sibling</sibling></root>`
fn two_children_with_text() -> (Document, Node) {
    let (mut doc, mut root) = with_root("root");
    let mut c = element(&mut doc, &mut root, "child");
    c.append_text(&mut doc, "child");
    let mut s = element(&mut doc, &mut root, "sibling");
    s.append_text(&mut doc, "sibling");
    (doc, root)
}

/// The tree of
/// `<root>\n            <child attribute="value">some text</child>\n            <child attribute="empty">more text</child>\n        </root>`,
/// whitespace text included.
fn import_source() -> Document {
    let (mut doc, mut root) = with_root("root");
    root.append_text(&mut doc, "\n            ");
    let mut a = element(&mut doc, &mut root, "child");
    a.set_attribute(&mut doc, "attribute", "value");
    a.append_text(&mut doc, "some text");
    root.append_text(&mut doc, "\n            ");
    let mut b = element(&mut doc, &mut root, "child");
    b.set_attribute(&mut doc, "attribute", "empty");
    b.append_text(&mut doc, "more text");
    root.append_text(&mut doc, "\n        ");
    doc
}

#[test]
fn get_root_element_test() {
    let (mut doc, root) = with_root("root");
    let node = doc.get_root_element().unwrap();
    assert_eq!(node, root);
    assert_eq!(node.get_name(&doc), "root");
}

#[test]
fn document_can_import_node() {
    let mut doc1 = import_source();
    let mut doc2 = import_source();

    let mut root2 = doc2.get_root_element().unwrap();
    assert_eq!(root2.get_child_elements(&mut doc2).len(), 2);

    let root1 = doc1.get_root_element().unwrap();
    let elements = root1.get_child_elements(&mut doc1);
    let node = elements.first().unwrap();
    let mut imported = doc2.import_node(&doc1, node).unwrap();
    assert!(root2.add_child(&mut doc2, &mut imported).is_ok());
    assert_eq!(root2.get_child_elements(&mut doc2).len(), 3);
}

#[test]
fn get_first_child_next_sibling_test() {
    let (mut doc, _) = two_children();
    let node = doc.get_root_element().unwrap();
    let child = node.get_first_child(&mut doc);
    assert!(child.is_some());
    let sibling = child.unwrap().get_next_sibling(&mut doc);
    assert!(sibling.is_some());
}

#[test]
fn get_child_nodes_test() {
    let (mut doc, _) = two_children();
    let node = doc.get_root_element().unwrap();
    let child_nodes = node.get_child_nodes(&mut doc);
    assert_eq!(2, child_nodes.len());
}

#[test]
fn set_name_test() {
    let (mut doc, _) = two_children_with_text();
    let node = doc.get_root_element().unwrap();
    let child_nodes = node.get_child_nodes(&mut doc);
    assert_eq!(2, child_nodes.len());
    for mut child_node in child_nodes {
        child_node.set_name(&mut doc, "lol");
    }
    assert_eq!("<root><lol>child</lol><lol>sibling</lol></root>", node.to_string(&doc, false));
}

#[test]
fn unlink_test() {
    let (mut doc, _) = two_children_with_text();
    {
        let mut node = doc.get_root_element().unwrap();
        node.unlink(&mut doc);
    }
    assert!(doc.get_root_element().is_none());
}

#[test]
fn navigation_returns_the_same_wrapper() {
    let (mut doc, root) = two_children();
    let via_first = root.get_first_child(&mut doc).unwrap();
    let via_list = root.get_child_nodes(&mut doc)[0];
    assert_eq!(via_first, via_list);
    assert_eq!(via_first.node_ptr(), via_list.node_ptr());
    let via_last = root.get_last_child(&mut doc).unwrap();
    let via_next = via_first.get_next_sibling(&mut doc).unwrap();
    assert_eq!(via_last, via_next);
    assert_eq!(doc.lookup(via_last.node_ptr()), Some(via_last));
    assert!(via_next.get_next_sibling(&mut doc).is_none());
}

#[test]
fn serialization_is_stable() {
    let (doc, _) = two_children_with_text();
    let first = doc.to_string(false);
    let second = doc.to_string(false);
    assert_eq!(first, second);
    assert_eq!(
        first,
        "<?xml version=\"1.0\" encoding=\"UTF-8\"?>\n<root><child>child</child><sibling>sibling</sibling></root>\n"
    );
}

#[test]
fn formatted_serialization_indents_element_children() {
    let (doc, root) = two_children();
    assert_eq!(root.to_string(&doc, true), "<root>\n    <child/>\n    <sibling/>\n  </root>");
    assert_eq!(
        doc.to_string(true),
        "<?xml version=\"1.0\" encoding=\"UTF-8\"?>\n<root>\n  <child/>\n  <sibling/>\n</root>\n"
    );
    let (doc2, root2) = two_children_with_text();
    assert_eq!(
        root2.to_string(&doc2, true),
        "<root>\n    <child>child</child>\n    <sibling>sibling</sibling>\n  </root>"
    );
}

#[test]
fn text_and_attributes_are_escaped() {
    let (mut doc, mut root) = with_root("r");
    root.set_property(&mut doc, "a", "x\"<&>\n\t\r");
    root.append_text(&mut doc, "1 < 2 & 3 > 2\r\n\t");
    assert_eq!(
        root.to_string(&doc, false),
        "<r a=\"x&quot;&lt;&amp;&gt;&#10;&#9;&#13;\">1 &lt; 2 &amp; 3 &gt; 2&#13;\n\t</r>"
    );
}

#[test]
fn unlink_and_relink_keeps_content() {
    let (mut doc, mut root) = with_root("root");
    let mut a = element(&mut doc, &mut root, "a");
    let mut b = element(&mut doc, &mut root, "b");
    let mut inner = element(&mut doc, &mut a, "inner");
    inner.append_text(&mut doc, "deep");
    a.set_property(&mut doc, "k", "v");
    assert_eq!(root.get_child_nodes(&mut doc).len(), 2);

    a.unlink(&mut doc);
    assert_eq!(root.get_child_nodes(&mut doc).len(), 1);
    assert_eq!(doc.lookup(a.node_ptr()), None);

    let moved = b.add_child(&mut doc, &mut a).unwrap();
    assert_eq!(moved, a);
    assert_eq!(a.get_name(&doc), "a");
    assert_eq!(a.get_property(&doc, "k"), Some("v".to_string()));
    assert_eq!(a.get_content(&doc), "deep");
    assert_eq!(a.get_child_nodes(&mut doc).len(), 1);
    assert_eq!(root.to_string(&doc, false), "<root><b><a k=\"v\"><inner>deep</inner></a></b></root>");
}

#[test]
fn unlink_of_document_node_does_nothing() {
    let (mut doc, _) = two_children();
    let before = doc.to_string(false);
    let mut d = Node::wrap(0);
    d.unlink(&mut doc);
    assert_eq!(doc.to_string(false), before);
    assert!(doc.get_root_element().is_some());
}

#[test]
fn add_child_refuses_cycles() {
    let (mut doc, mut root) = with_root("root");
    let mut a = element(&mut doc, &mut root, "a");
    let mut b = element(&mut doc, &mut a, "b");
    assert!(b.add_child(&mut doc, &mut root).is_err());
    let mut same = a;
    assert!(a.add_child(&mut doc, &mut same).is_err());
    assert_eq!(root.to_string(&doc, false), "<root><a><b/></a></root>");
}

#[test]
fn import_copies_and_stays_independent() {
    let mut src = import_source();
    let (mut dst, mut droot) = with_root("other");
    let sroot = src.get_root_element().unwrap();
    let first = sroot.get_child_elements(&mut src)[0];
    let mut copy = dst.import_node(&src, &first).unwrap();
    assert_eq!(copy.get_name(&dst), "child");
    assert_eq!(copy.get_property(&dst, "attribute"), Some("value".to_string()));
    assert_eq!(copy.get_content(&dst), "some text");
    copy.set_property(&mut dst, "attribute", "changed");
    copy.set_name(&mut dst, "renamed");
    assert_eq!(first.get_property(&src, "attribute"), Some("value".to_string()));
    assert_eq!(first.get_name(&src), "child");
    droot.add_child(&mut dst, &mut copy).unwrap();
    assert_eq!(
        droot.to_string(&dst, false),
        "<other><renamed attribute=\"changed\">some text</renamed></other>"
    );
    let mut whole = Node::wrap(0);
    assert!(dst.import_node(&src, &whole).is_none());
    whole.unlink(&mut dst);
}

#[test]
fn attribute_round_trip() {
    let (mut doc, mut root) = with_root("root");
    root.set_property(&mut doc, "attr", "v");
    assert_eq!(root.get_property(&doc, "attr"), Some("v".to_string()));
    root.set_attribute(&mut doc, "other", "w");
    root.set_property(&mut doc, "attr", "v2");
    assert_eq!(root.get_attribute(&doc, "attr"), Some("v2".to_string()));
    let props = root.get_properties(&doc);
    assert_eq!(
        props,
        vec![("attr".to_string(), "v2".to_string()), ("other".to_string(), "w".to_string())]
    );
    assert_eq!(root.get_attributes(&doc), props);
    root.remove_property(&mut doc, "attr");
    assert_eq!(root.get_property(&doc, "attr"), None);
    root.remove_attribute(&mut doc, "missing");
    assert_eq!(root.get_properties(&doc).len(), 1);
}

#[test]
fn concrete_scenario() {
    let (mut doc, mut root) = with_root("root");
    let mut child = element(&mut doc, &mut root, "child");
    child.set_property(&mut doc, "attr", "v");
    child.append_text(&mut doc, "text");
    let root = doc.get_root_element().unwrap();
    let elems = root.get_child_elements(&mut doc);
    assert_eq!(elems.len(), 1);
    assert_eq!(elems[0].get_name(&doc), "child");
    assert_eq!(elems[0].get_property(&doc, "attr"), Some("v".to_string()));
    assert_eq!(elems[0].get_content(&doc), "text");
    assert_eq!(root.get_content(&doc), "text");
}

#[test]
fn child_elements_skip_text() {
    let (mut doc, mut root) = with_root("root");
    root.append_text(&mut doc, "a");
    element(&mut doc, &mut root, "e");
    root.append_text(&mut doc, "b");
    assert_eq!(root.get_child_nodes(&mut doc).len(), 3);
    let elems = root.get_child_elements(&mut doc);
    assert_eq!(elems.len(), 1);
    assert!(!elems[0].is_text_node(&doc));
    let first = root.get_first_child(&mut doc).unwrap();
    assert!(first.is_text_node(&doc));
    assert_eq!(first.get_type(&doc), Some(NodeType::TextNode));
    assert_eq!(root.get_content(&doc), "ab");
}

#[test]
fn set_root_element_replaces_the_root() {
    let (mut doc, old_root) = with_root("first");
    let mut second = Node::new("second", &mut doc).unwrap();
    doc.set_root_element(&mut second);
    assert_eq!(doc.get_root_element(), Some(second));
    assert_eq!(doc.lookup(old_root.node_ptr()), None);
    let mut text = doc.get_root_element().unwrap();
    text.append_text(&mut doc, "t");
    let mut t = text.get_first_child(&mut doc).unwrap();
    doc.set_root_element(&mut t);
    assert_eq!(doc.get_root_element(), Some(second));
}

#[test]
fn node_type_tags() {
    assert_eq!(NodeType::from_c_int(1), Some(NodeType::ElementNode));
    assert_eq!(NodeType::from_c_int(3), Some(NodeType::TextNode));
    assert_eq!(NodeType::from_c_int(21), Some(NodeType::DOCBDocumentNode));
    assert_eq!(NodeType::from_c_int(0), None);
    assert_eq!(NodeType::from_c_int(22), None);
}

#[test]
fn parse_options_flags() {
    let d = ParseOptions::default_xml();
    assert_eq!(d.bits(), 1 | 32 | 64);
    assert!(d.contains(ParseOptions::from_bits(1)));
    assert!(!d.contains(ParseOptions::from_bits(2)));
    assert_eq!(d.union(ParseOptions::from_bits(2)).bits(), 99);
    assert_eq!(d.difference(ParseOptions::from_bits(1)).bits(), 96);
    assert_eq!(ParseOptions::empty().bits(), 0);
}

#[test]
fn parse_outcome_keeps_diagnostics() {
    let err = XmlError { message: "Start tag expected".to_string(), level: 3, line: 1, column: 1 };
    let failed = Document::handle_result(None, vec![err.clone()]);
    match failed {
        Err(list) => assert_eq!(list.len(), 1),
        Ok(_) => panic!("expected the diagnostics"),
    }
    let built = Document::new().unwrap();
    let ok = Document::handle_result(Some(built), vec![err]).unwrap();
    assert_eq!(ok.diagnostic_count(), 1);
    assert_eq!(ok.get_errors()[0].message, "Start tag expected");
    assert_eq!(ok.get_errors()[0].line, 1);
    let clean = Document::handle_result(Some(Document::new().unwrap()), vec![]).unwrap();
    assert_eq!(clean.diagnostic_count(), 0);
}

#[test]
fn prev_sibling_is_inserted_before() {
    let (mut doc, mut root) = with_root("root");
    let mut b = element(&mut doc, &mut root, "b");
    let a = Node::new("a", &mut doc).unwrap();
    assert_eq!(b.add_prev_sibling(&mut doc, a), Some(a));
    assert_eq!(root.to_string(&doc, false), "<root><a/><b/></root>");
    let c = root.get_last_child(&mut doc).unwrap();
    assert_eq!(c, b);
    assert_eq!(a.get_next_sibling(&mut doc), Some(b));
    let mut top = doc.get_root_element().unwrap();
    let loose = Node::new("loose", &mut doc).unwrap();
    let mut detached_parentless = Node::new("x", &mut doc).unwrap();
    assert_eq!(detached_parentless.add_prev_sibling(&mut doc, loose), None);
    assert_eq!(b.add_prev_sibling(&mut doc, top), None);
    assert_eq!(top.add_prev_sibling(&mut doc, b), Some(b));
    assert_eq!(top.to_string(&doc, false), "<root><a/></root>");
}

#[test]
fn created_nodes_of_every_text_kind() {
    let (mut doc, mut root) = with_root("root");
    let mut c = Node::create(NodeType::CommentNode, "", " note ", &mut doc).unwrap();
    root.add_child(&mut doc, &mut c).unwrap();
    let mut p = Node::create(NodeType::PiNode, "target", "data", &mut doc).unwrap();
    root.add_child(&mut doc, &mut p).unwrap();
    let mut d = Node::create(NodeType::CDataSectionNode, "", "a<b]]>c", &mut doc).unwrap();
    root.add_child(&mut doc, &mut d).unwrap();
    assert!(Node::create(NodeType::DocumentNode, "", "", &mut doc).is_err());
    assert_eq!(
        root.to_string(&doc, false),
        "<root><!-- note --><?target data?><![CDATA[a<b]]]]><![CDATA[>c]]></root>"
    );
    assert_eq!(root.get_content(&doc), "a<b]]>c");
    let mut e = Node::create(NodeType::EntityRefNode, "ent", "", &mut doc).unwrap();
    root.add_child(&mut doc, &mut e).unwrap();
    assert!(root.to_string(&doc, false).ends_with("&ent;</root>"));
    assert_eq!(c.get_content(&doc), " note ");
    assert_eq!(doc.doc_ptr(), 0);
}
