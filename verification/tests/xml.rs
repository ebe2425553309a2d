use scansector::error::LoadError;
use scansector::xml::{XmlAttribute, XmlDocument, XmlNode};

fn element(tag: &str, span: usize) -> XmlNode {
    XmlNode { tag: tag.to_string(), attributes: Vec::new(), text: None, span }
}

fn attribute(namespace: Option<&str>, name: &str, value: &str) -> XmlAttribute {
    XmlAttribute {
        namespace: namespace.map(|n| n.to_string()),
        name: name.to_string(),
        value: value.to_string(),
    }
}

fn nodes_of(doc: &XmlDocument) -> Vec<XmlNode> {
    let mut nodes = Vec::new();
    for i in 0..doc.len() {
        nodes.push(doc.node(i).clone());
    }
    nodes
}

#[test]
fn parse_gives_the_nodes_in_document_order() {
    let doc = XmlDocument::parse("<a><b>text</b><c/></a>").unwrap();
    let nodes = nodes_of(&doc);
    assert_eq!(nodes.len(), 5);
    assert_eq!(nodes[0], XmlNode { tag: String::new(), attributes: vec![], text: None, span: 5 });
    assert_eq!(nodes[1], XmlNode { tag: "a".to_string(), attributes: vec![], text: None, span: 4 });
    assert_eq!(
        nodes[2],
        XmlNode { tag: "b".to_string(), attributes: vec![], text: Some("text".to_string()), span: 2 }
    );
    assert_eq!(
        nodes[3],
        XmlNode { tag: String::new(), attributes: vec![], text: Some("text".to_string()), span: 1 }
    );
    assert_eq!(nodes[4], XmlNode { tag: "c".to_string(), attributes: vec![], text: None, span: 1 });
}

#[test]
fn parse_gives_the_attributes() {
    let doc = XmlDocument::parse("<e xmlns:n='http://www.w3.org' a='b' n:a='c'/>").unwrap();
    let e = doc.node(1);
    assert_eq!(
        e.attributes,
        vec![attribute(None, "a", "b"), attribute(Some("http://www.w3.org"), "a", "c")]
    );
    assert_eq!(e.attribute("a"), Some("b".to_string()));
    assert_eq!(e.attribute("n:a"), None);
    assert_eq!(e.attribute("b"), None);
}

#[test]
fn parse_drops_the_prefix_of_a_tag() {
    let doc = XmlDocument::parse("<n:e xmlns:n='http://www.w3.org'><n:f/></n:e>").unwrap();
    assert_eq!(doc.node(1).tag, "e");
    assert_eq!(doc.node(2).tag, "f");
}

#[test]
fn parse_gives_text_only_where_an_element_begins_with_it() {
    let doc = XmlDocument::parse("<a><b>one<c/>two</b><d><c/>late</d><e><!--note-->x</e></a>").unwrap();
    let nodes = nodes_of(&doc);
    let b = nodes.iter().find(|n| n.tag == "b").unwrap();
    assert_eq!(b.text, Some("one".to_string()));
    let d = nodes.iter().find(|n| n.tag == "d").unwrap();
    assert_eq!(d.text, None);
    let e = nodes.iter().find(|n| n.tag == "e").unwrap();
    assert_eq!(e.text, None);
}

#[test]
fn parse_resolves_entities_and_cdata() {
    let doc = XmlDocument::parse("<a><b>1 &lt; 2 &amp; 3</b><c><![CDATA[{\"f0\":\"<x>\"}]]></c></a>").unwrap();
    let nodes = nodes_of(&doc);
    let b = nodes.iter().find(|n| n.tag == "b").unwrap();
    assert_eq!(b.text, Some("1 < 2 & 3".to_string()));
    let c = nodes.iter().find(|n| n.tag == "c").unwrap();
    assert_eq!(c.text, Some("{\"f0\":\"<x>\"}".to_string()));
}

#[test]
fn parse_counts_each_subtree() {
    let doc = XmlDocument::parse("<a><b><c/><d>t</d></b><e/></a>").unwrap();
    let nodes = nodes_of(&doc);
    let spans: Vec<(String, usize)> = nodes.iter().map(|n| (n.tag.clone(), n.span)).collect();
    assert_eq!(
        spans,
        vec![
            (String::new(), 7),
            ("a".to_string(), 6),
            ("b".to_string(), 4),
            ("c".to_string(), 1),
            ("d".to_string(), 2),
            (String::new(), 1),
            ("e".to_string(), 1),
        ]
    );
    for i in 0..doc.len() {
        assert_eq!(doc.subtree_end(i), i + nodes[i].span);
        assert!(doc.subtree_end(i) <= doc.len());
    }
}

#[test]
fn parse_rejects_what_is_not_xml() {
    for text in ["", "not xml", "<a>", "<a></b>", "<a/><b/>", "</a>", "<a b=c/>", "<a>&nope;</a>", "{\"f0\": 1}"] {
        match XmlDocument::parse(text) {
            Err(LoadError::Parse(message)) => assert!(!message.is_empty(), "{:?}", text),
            other => panic!("{:?} gave {:?}", text, other.map(|d| d.len())),
        }
    }
}

#[test]
fn parse_error_says_where() {
    match XmlDocument::parse("<a></b>") {
        Err(e) => assert_eq!(e.message(), "expected 'a' tag, not 'b' at 1:4"),
        Ok(_) => panic!("accepted"),
    }
}

#[test]
fn new_takes_nodes_whose_subtrees_fit() {
    let doc = XmlDocument::new(vec![element("", 3), element("a", 2), element("b", 1)]).unwrap();
    assert_eq!(doc.len(), 3);
    assert_eq!(doc.node(1).tag, "a");
    assert_eq!(doc.subtree_end(0), 3);
    assert_eq!(doc.subtree_end(1), 3);
    assert_eq!(doc.subtree_end(2), 3);
    assert_eq!(XmlDocument::new(Vec::new()).unwrap().len(), 0);
}

#[test]
fn new_refuses_a_subtree_without_its_root() {
    assert!(XmlDocument::new(vec![element("a", 0)]).is_none());
    assert!(XmlDocument::new(vec![element("a", 2), element("b", 0)]).is_none());
}

#[test]
fn new_refuses_a_subtree_that_reaches_past_the_end() {
    assert!(XmlDocument::new(vec![element("a", 2)]).is_none());
    assert!(XmlDocument::new(vec![element("a", 2), element("b", 2)]).is_none());
    assert!(XmlDocument::new(vec![element("a", usize::MAX)]).is_none());
    assert!(XmlDocument::new(vec![element("a", 1), element("b", usize::MAX)]).is_none());
}

#[test]
fn find_tagged_gives_the_first_in_the_range() {
    let doc = XmlDocument::new(vec![
        element("", 5),
        element("a", 1),
        element("b", 1),
        element("a", 1),
        element("c", 1),
    ])
    .unwrap();
    let a = "a".to_string();
    let c = "c".to_string();
    assert_eq!(doc.find_tagged(&a, 0, 5), Some(1));
    assert_eq!(doc.find_tagged(&a, 2, 5), Some(3));
    assert_eq!(doc.find_tagged(&a, 2, 3), None);
    assert_eq!(doc.find_tagged(&a, 4, 5), None);
    assert_eq!(doc.find_tagged(&c, 0, 4), None);
    assert_eq!(doc.find_tagged(&c, 0, 5), Some(4));
    assert_eq!(doc.find_tagged(&c, 3, 3), None);
    assert_eq!(doc.find_tagged(&"d".to_string(), 0, 5), None);
}

#[test]
fn attribute_gives_the_first_without_a_namespace() {
    let node = XmlNode {
        tag: "e".to_string(),
        attributes: vec![
            attribute(Some("urn:x"), "bN", "spaced"),
            attribute(None, "other", "o"),
            attribute(None, "bN", "plain"),
            attribute(None, "bN", "again"),
        ],
        text: None,
        span: 1,
    };
    assert_eq!(node.attribute("bN"), Some("plain".to_string()));
    assert_eq!(node.attribute("other"), Some("o".to_string()));
    assert_eq!(node.attribute("bn"), None);
    assert_eq!(node.attribute(""), None);
}

#[test]
fn load_error_carries_its_text() {
    assert_eq!(LoadError::Io("no such file".to_string()).message(), "no such file");
    assert_eq!(LoadError::Parse("bad tag".to_string()).message(), "bad tag");
}
