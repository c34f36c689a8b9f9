use sofer::id::Uuid;
use sofer::node::TreeNode;
use sofer::opml::{outline_from_events, OutlineEvent};

const DOCUMENT: &str = r#"<?xml version="1.0" encoding="UTF-8"?>
<opml version="2.0">
  <head><title>skipped</title></head>
  <body>
    <outline text="one">
      <outline kind="x" text="one one"/>
      <outline text="one two"><outline text="deep"/></outline>
    </outline>
    <outline/>
    <outline text="three"/>
  </body>
</opml>
"#;

#[test]
fn an_outline_is_read_from_its_elements() {
    let tree = TreeNode::import_from_opml(DOCUMENT);
    assert!(tree.uuid.is_nil());
    assert_eq!(
        tree.print(false),
        "\n    one\n        one one\n        one two\n            deep\n    \n    three\n"
    );
    for (depth, node) in tree.traverse() {
        assert_eq!(depth == 0, node.uuid.is_nil());
        assert_eq!(node.value.evaled, None);
        assert!(node.value.attributes.is_empty());
    }
}

#[test]
fn what_comes_before_a_failure_is_kept() {
    let tree = TreeNode::import_from_opml("<opml><body><outline text=\"a\"/><outline text=\"b\"></body>");
    assert_eq!(tree.print(false), "\n    a\n    b\n");
    assert_eq!(TreeNode::import_from_opml("no xml at all").print(false), "\n");
}

fn start(name: &str, attributes: &[(&str, &str)]) -> OutlineEvent {
    OutlineEvent::Start {
        name: name.into(),
        attributes: attributes.iter().map(|(k, v)| (k.to_string(), v.to_string())).collect(),
    }
}

fn end(name: &str) -> OutlineEvent {
    OutlineEvent::End { name: name.into() }
}

#[test]
fn events_with_given_identifiers() {
    let events = vec![
        OutlineEvent::Other,
        start("outline", &[("text", "before the body")]),
        end("outline"),
        start("body", &[]),
        start("outline", &[("a", "b"), ("text", "first"), ("text", "second")]),
        start("outline", &[]),
        end("outline"),
        end("outline"),
        start("outline", &[("text", "later")]),
        OutlineEvent::Failure,
        start("outline", &[("text", "never")]),
    ];
    let ids: Vec<Uuid> = (0..events.len()).map(|i| Uuid { value: 100 + i as u128 }).collect();
    let tree = outline_from_events(&events, &ids);
    assert_eq!(tree.print(false), "\n    first\n        \n    later\n");
    let found: Vec<u128> = tree.traverse().into_iter().map(|(_, n)| n.uuid.value).collect();
    assert_eq!(found, vec![0, 104, 105, 108]);
}
