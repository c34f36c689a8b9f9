use sofer::id::Uuid;
use sofer::node::{Attribute, Node, TreeNode};
use sofer::reader::{nodes_to_tree_node, read_attributes, sort_nodes, ParseError};
use sofer::tree::Tree;

fn id(text: &str) -> Uuid {
    Uuid::parse_str(text).unwrap()
}

fn node(raw: &str, attributes: Vec<Attribute>) -> Node {
    Node { raw: raw.into(), evaled: None, attributes }
}

fn tree(
    raw: &str,
    attributes: Vec<Attribute>,
    uuid: &str,
    first_child: Option<TreeNode>,
    next_sibling: Option<TreeNode>,
) -> TreeNode {
    Tree {
        value: node(raw, attributes),
        uuid: id(uuid),
        first_child: first_child.map(Box::new),
        next_sibling: next_sibling.map(Box::new),
    }
}

const DOCUMENT: &str = r#"00000000-0000-0000-0000-000000000001 00000000-0000-0000-0000-000000000000 caca="fa";ñe=T;vaca=F; caca de vaca @ function(node) return tostring(node.children[1].value.raw) end
00000000-0000-0000-0000-000000000002 00000000-0000-0000-0000-000000000000 ñe=T; Esto es lo que he dicho: @ function(node) return node.value.raw end
00000000-0000-0000-0000-000000000003 00000000-0000-0000-0000-000000000001 ñeñe=231; Estos son los campos de este nodo: @function(node) function tabletostring(table) local str = ""   for k,v in pairs(node) do str = str .. ", " .. k .. "=" .. tostring(v) end return str end   return tabletostring(node) end
00000000-0000-0000-0000-000000000004 00000000-0000-0000-0000-000000000001  Este también. Esto nodo tiene este número de hijos @ function(node) return #node.children end
00000000-0000-0000-0000-000000000005 00000000-0000-0000-0000-000000000003  Este está todavía más debajo. Nodo 5. @ true
00000000-0000-0000-0000-000000000006 00000000-0000-0000-0000-000000000003  Este está todavía más debajo. Nodo 6. @ "ñe"
00000000-0000-0000-0000-000000000007 00000000-0000-0000-0000-000000000003  Este está todavía más debajo. Nodo 7.
00000000-0000-0000-0000-000000000008 00000000-0000-0000-0000-000000000003  Este está todavía más debajo. Nodo 8.
00000000-0000-0000-0000-000000000009 00000000-0000-0000-0000-000000000006  Este está todavía más debajo. Nodo 9.
00000000-0000-0000-0000-000000000010 00000000-0000-0000-0000-000000000004  Este está todavía más debajo. Nodo 10.
00000000-0000-0000-0000-000000000011 00000000-0000-0000-0000-000000000004  Este está todavía más debajo. Nodo 11.
00000000-0000-0000-0000-000000000012 00000000-0000-0000-0000-000000000004  Este está todavía más debajo. Nodo 12.
00000000-0000-0000-0000-000000000013 00000000-0000-0000-0000-000000000002  Un subnodo en el segundo nodo superior!
00000000-0000-0000-0000-000000000014 00000000-0000-0000-0000-000000000002  Otro subnodo en el segundo nodo superior!
"#;

fn document_tree() -> TreeNode {
    let nine = tree(
        "Este está todavía más debajo. Nodo 9.",
        vec![],
        "00000000-0000-0000-0000-000000000009",
        None,
        None,
    );
    let eight = tree(
        "Este está todavía más debajo. Nodo 8.",
        vec![],
        "00000000-0000-0000-0000-000000000008",
        None,
        None,
    );
    let seven = tree(
        "Este está todavía más debajo. Nodo 7.",
        vec![],
        "00000000-0000-0000-0000-000000000007",
        None,
        Some(eight),
    );
    let six = tree(
        "Este está todavía más debajo. Nodo 6. @ \"ñe\"",
        vec![],
        "00000000-0000-0000-0000-000000000006",
        Some(nine),
        Some(seven),
    );
    let five = tree(
        "Este está todavía más debajo. Nodo 5. @ true",
        vec![],
        "00000000-0000-0000-0000-000000000005",
        None,
        Some(six),
    );
    let twelve = tree(
        "Este está todavía más debajo. Nodo 12.",
        vec![],
        "00000000-0000-0000-0000-000000000012",
        None,
        None,
    );
    let eleven = tree(
        "Este está todavía más debajo. Nodo 11.",
        vec![],
        "00000000-0000-0000-0000-000000000011",
        None,
        Some(twelve),
    );
    let ten = tree(
        "Este está todavía más debajo. Nodo 10.",
        vec![],
        "00000000-0000-0000-0000-000000000010",
        None,
        Some(eleven),
    );
    let four = tree(
        "Este también. Esto nodo tiene este número de hijos @ function(node) return #node.children end",
        vec![],
        "00000000-0000-0000-0000-000000000004",
        Some(ten),
        None,
    );
    let three = tree(
        "Estos son los campos de este nodo: @function(node) function tabletostring(table) local str = \"\"   for k,v in pairs(node) do str = str .. \", \" .. k .. \"=\" .. tostring(v) end return str end   return tabletostring(node) end",
        vec![Attribute::Number("ñeñe".into(), "231".into())],
        "00000000-0000-0000-0000-000000000003",
        Some(five),
        Some(four),
    );
    let fourteen = tree(
        "Otro subnodo en el segundo nodo superior!",
        vec![],
        "00000000-0000-0000-0000-000000000014",
        None,
        None,
    );
    let thirteen = tree(
        "Un subnodo en el segundo nodo superior!",
        vec![],
        "00000000-0000-0000-0000-000000000013",
        None,
        Some(fourteen),
    );
    let two = tree(
        "Esto es lo que he dicho: @ function(node) return node.value.raw end",
        vec![Attribute::Boolean("ñe".into(), true)],
        "00000000-0000-0000-0000-000000000002",
        Some(thirteen),
        None,
    );
    let one = tree(
        "caca de vaca @ function(node) return tostring(node.children[1].value.raw) end",
        vec![
            Attribute::Text("caca".into(), "fa".into()),
            Attribute::Boolean("ñe".into(), true),
            Attribute::Boolean("vaca".into(), false),
        ],
        "00000000-0000-0000-0000-000000000001",
        Some(three),
        Some(two),
    );
    tree("", vec![], "00000000-0000-0000-0000-000000000000", Some(one), None)
}

#[test]
fn read_nodes() {
    assert_eq!(
        nodes_to_tree_node(sofer::reader::read_nodes(DOCUMENT).unwrap()),
        document_tree()
    );
}

#[test]
fn import_reads_the_document() {
    assert_eq!(TreeNode::import_from_sofer(DOCUMENT).unwrap(), document_tree());
}

#[test]
fn export_writes_the_document_back() {
    assert_eq!(document_tree().export_to_sofer(false), DOCUMENT);
}

#[test]
fn two_lines_scenario() {
    let text = "00000000-0000-0000-0000-000000000001 00000000-0000-0000-0000-000000000000 a=\"x\";b=T; hello\n\
                00000000-0000-0000-0000-000000000002 00000000-0000-0000-0000-000000000001 c=3; world\n";
    let read = TreeNode::import_from_sofer(text).unwrap();
    let world = tree(
        "world",
        vec![Attribute::Number("c".into(), "3".into())],
        "00000000-0000-0000-0000-000000000002",
        None,
        None,
    );
    let hello = tree(
        "hello",
        vec![Attribute::Text("a".into(), "x".into()), Attribute::Boolean("b".into(), true)],
        "00000000-0000-0000-0000-000000000001",
        Some(world),
        None,
    );
    let root = tree("", vec![], "00000000-0000-0000-0000-000000000000", Some(hello), None);
    assert_eq!(read, root);
    assert!(read.uuid.is_nil());
    assert_eq!(read.export_to_sofer(true), text);
    assert_eq!(read.export_to_sofer(false), text);
}

#[test]
fn records_come_sorted_by_parent() {
    let text = "00000000-0000-0000-0000-000000000002 00000000-0000-0000-0000-000000000001  b\n\
                00000000-0000-0000-0000-000000000001 00000000-0000-0000-0000-000000000000  a\n\
                00000000-0000-0000-0000-000000000003 00000000-0000-0000-0000-000000000001  c\n";
    let records = sofer::reader::read_nodes(text).unwrap();
    let contents: Vec<&str> = records.iter().map(|r| r.content.as_str()).collect();
    assert_eq!(contents, vec!["a", "b", "c"]);
    assert_eq!(
        records[1].to_string(),
        "00000000-0000-0000-0000-000000000002 00000000-0000-0000-0000-000000000001 b"
    );
}

#[test]
fn sort_nodes_is_stable() {
    let record = |uuid: u128, parent: u128, content: &str| sofer::reader::Node {
        content: content.into(),
        attributes: vec![],
        uuid: Uuid { value: uuid },
        parent_uuid: Uuid { value: parent },
    };
    let mut records = vec![
        record(5, 2, "x"),
        record(9, 1, "first of one"),
        record(3, 2, "y"),
        record(4, 1, "second of one"),
        record(7, 0, "top"),
    ];
    sort_nodes(&mut records);
    let contents: Vec<&str> = records.iter().map(|r| r.content.as_str()).collect();
    assert_eq!(contents, vec!["top", "first of one", "second of one", "x", "y"]);
}

#[test]
fn the_tree_does_not_depend_on_the_order_of_the_lines() {
    let lines: Vec<&str> = DOCUMENT.lines().collect();
    let mut reversed = String::new();
    for line in lines.iter().rev() {
        reversed.push_str(line);
        reversed.push('\n');
    }
    let mut rotated = String::new();
    for i in 0..lines.len() {
        rotated.push_str(lines[(i * 5 + 3) % lines.len()]);
        rotated.push('\n');
    }
    assert_eq!(TreeNode::import_from_sofer(&reversed).unwrap(), document_tree());
    assert_eq!(TreeNode::import_from_sofer(&rotated).unwrap(), document_tree());
}

#[test]
fn a_record_of_an_unknown_parent_hangs_under_the_root() {
    let text = "00000000-0000-0000-0000-000000000002 00000000-0000-0000-0000-0000000000aa  stray\n\
                00000000-0000-0000-0000-000000000001 00000000-0000-0000-0000-000000000000  a\n";
    let read = TreeNode::import_from_sofer(text).unwrap();
    let children: Vec<String> = read.get_children().into_iter().map(|c| c.value.raw).collect();
    assert_eq!(children, vec!["a", "stray"]);
}

#[test]
fn records_that_hang_under_each_other_are_left_out() {
    let text = "00000000-0000-0000-0000-000000000001 00000000-0000-0000-0000-000000000002  a\n\
                00000000-0000-0000-0000-000000000002 00000000-0000-0000-0000-000000000001  b\n\
                00000000-0000-0000-0000-000000000003 00000000-0000-0000-0000-000000000000  c\n";
    let read = TreeNode::import_from_sofer(text).unwrap();
    assert_eq!(read.traverse().len(), 2);
    assert_eq!(read.first_child.as_ref().unwrap().value.raw, "c");
}

#[test]
fn what_stands_after_the_last_line_feed_is_ignored() {
    let text = "00000000-0000-0000-0000-000000000001 00000000-0000-0000-0000-000000000000  a\nrest";
    assert_eq!(sofer::reader::read_nodes(text).unwrap().len(), 1);
    assert_eq!(sofer::reader::read_nodes("").unwrap().len(), 0);
    assert_eq!(sofer::reader::read_nodes("\n").unwrap().len(), 0);
    assert_eq!(
        sofer::reader::read_nodes("00000000-0000-0000-0000-000000000001 00000000-0000-0000-0000-000000000000  a\n\n")
            .unwrap()
            .len(),
        1
    );
    assert_eq!(sofer::reader::read_nodes("no line feed").unwrap().len(), 0);
}

#[test]
fn a_wrong_identifier_is_refused() {
    assert_eq!(
        sofer::reader::read_nodes("xyz 00000000-0000-0000-0000-000000000000  a\n"),
        Err(ParseError::WrongUuid("xyz".into()))
    );
    assert_eq!(
        sofer::reader::read_nodes("00000000-0000-0000-0000-000000000001 nothing  a\n"),
        Err(ParseError::WrongUuid("nothing".into()))
    );
    assert_eq!(sofer::reader::read_nodes("\n\n"), Err(ParseError::WrongUuid("".into())));
    assert_eq!(
        sofer::reader::read_nodes("\n00000000-0000-0000-0000-000000000001 00000000-0000-0000-0000-000000000000  a\n"),
        Err(ParseError::WrongUuid("".into()))
    );
    assert_eq!(
        sofer::reader::read_nodes("00000000-0000-0000-0000-000000000001\n"),
        Err(ParseError::WrongUuid("".into()))
    );
}

#[test]
fn wrong_attributes_are_refused() {
    assert_eq!(
        sofer::reader::read_nodes(
            "00000000-0000-0000-0000-000000000001 00000000-0000-0000-0000-000000000000 a=b; x\n"
        ),
        Err(ParseError::WrongAttributes("a=b;".into()))
    );
    assert_eq!(
        TreeNode::import_from_sofer(
            "00000000-0000-0000-0000-000000000001 00000000-0000-0000-0000-000000000000 a=1 x\n"
        ),
        Err(ParseError::WrongAttributes("a=1".into()))
    );
}

#[test]
fn attribute_values() {
    assert_eq!(read_attributes(""), Some(vec![]));
    assert_eq!(
        read_attributes("a=\"x;y=z\";b=F;c=-1.5e+3;d=T;"),
        Some(vec![
            Attribute::Text("a".into(), "x;y=z".into()),
            Attribute::Boolean("b".into(), false),
            Attribute::Number("c".into(), "-1.5e+3".into()),
            Attribute::Boolean("d".into(), true),
        ])
    );
    assert_eq!(
        read_attributes("n=.5;m=5.;"),
        Some(vec![
            Attribute::Number("n".into(), ".5".into()),
            Attribute::Number("m".into(), "5.".into()),
        ])
    );
    for wrong in [
        "a", "a=", "a=;", "a=1", "=", ";", "a;b=1;", "a=\"x", "a=\"x\"", "a=\"x\"y;", "a=Tx;",
        "a=FF;", "a=1e;", "a=.;", "a=1.2.3;", "a=--1;", "a=1;b", "a=e5;", "a=1e+;",
    ] {
        assert_eq!(read_attributes(wrong), None, "{}", wrong);
    }
}

#[test]
fn attributes_are_written_as_they_are_read() {
    let attributes = vec![
        Attribute::Text("a".into(), "x y".into()),
        Attribute::Number("n".into(), "0.25".into()),
        Attribute::Boolean("t".into(), true),
        Attribute::Boolean("f".into(), false),
    ];
    let tree = Tree::with_uuid(Node::new("text".into(), attributes.clone()), Uuid { value: 7 });
    let text = tree.export_attributes();
    assert_eq!(text, "a=\"x y\";n=0.25;t=T;f=F;");
    assert_eq!(read_attributes(&text), Some(attributes));
}

#[test]
fn export_takes_the_evaluated_text_where_there_is_one() {
    let mut tree = TreeNode::import_from_sofer(
        "00000000-0000-0000-0000-000000000002 00000000-0000-0000-0000-000000000000  b\n\
         00000000-0000-0000-0000-000000000001 00000000-0000-0000-0000-000000000000  a\n",
    )
    .unwrap();
    tree.first_child.as_mut().unwrap().value.evaled = Some("A".into());
    assert_eq!(
        tree.export_to_sofer(true),
        "00000000-0000-0000-0000-000000000001 00000000-0000-0000-0000-000000000000  A\n\
         00000000-0000-0000-0000-000000000002 00000000-0000-0000-0000-000000000000  b\n"
    );
    assert_eq!(
        tree.export_to_sofer(false),
        "00000000-0000-0000-0000-000000000001 00000000-0000-0000-0000-000000000000  a\n\
         00000000-0000-0000-0000-000000000002 00000000-0000-0000-0000-000000000000  b\n"
    );
    assert_eq!(tree.print(true), "\n    A\n    b\n");
    assert_eq!(tree.print(false), "\n    a\n    b\n");
}

#[test]
fn print_indents_by_depth() {
    assert_eq!(
        TreeNode::import_from_sofer(
            "00000000-0000-0000-0000-000000000001 00000000-0000-0000-0000-000000000000  a\n\
             00000000-0000-0000-0000-000000000002 00000000-0000-0000-0000-000000000001  b\n\
             00000000-0000-0000-0000-000000000003 00000000-0000-0000-0000-000000000002  c\n\
             00000000-0000-0000-0000-000000000004 00000000-0000-0000-0000-000000000000  d\n"
        )
        .unwrap()
        .print(false),
        "\n    a\n        b\n            c\n    d\n"
    );
}

#[test]
fn identifiers_of_records_stand_in_the_hyphenated_form() {
    assert_eq!(
        sofer::reader::read_nodes("00000000000000000000000000000001 00000000-0000-0000-0000-000000000000  a\n"),
        Err(ParseError::WrongUuid("00000000000000000000000000000001".into()))
    );
    assert_eq!(
        sofer::reader::read_nodes(
            "00000000-0000-0000-0000-000000000001 {00000000-0000-0000-0000-000000000000}  a\n"
        ),
        Err(ParseError::WrongUuid("{00000000-0000-0000-0000-000000000000}".into()))
    );
    let read = sofer::reader::read_nodes(
        "ABCDEF00-0000-0000-0000-000000000001 00000000-0000-0000-0000-000000000000  a\n",
    )
    .unwrap();
    assert_eq!(read[0].uuid, id("abcdef00-0000-0000-0000-000000000001"));
}

#[test]
fn a_document_with_siblings_in_any_order_keeps_its_records() {
    let leaf = |raw: &str, uuid: u128| -> TreeNode {
        Tree::with_uuid(
            Node::new(raw.into(), vec![Attribute::Number("n".into(), "1".into())]),
            Uuid { value: uuid },
        )
    };
    let mut tree: TreeNode = Tree::new_tree(Node::new("".into(), vec![]));
    tree.insert(Uuid::nil(), leaf("nine", 9));
    tree.insert(Uuid::nil(), leaf("three", 3));
    tree.insert(Uuid { value: 9 }, leaf("seven", 7));
    tree.insert(Uuid { value: 9 }, leaf("five", 5));
    tree.insert(Uuid { value: 5 }, leaf("one with spaces", 1));
    let written = tree.export_to_sofer(false);
    let read = TreeNode::import_from_sofer(&written).unwrap();
    assert_eq!(read.export_to_sofer(false), written);
    assert_eq!(read.print(false), "\n    three\n    nine\n        five\n            one with spaces\n        seven\n");
    let mut was: Vec<(u128, u128, String)> = Vec::new();
    for (_, node) in tree.traverse() {
        for child in node.get_children() {
            was.push((child.uuid.value, node.uuid.value, child.value.raw));
        }
    }
    let mut is: Vec<(u128, u128, String)> = Vec::new();
    for (_, node) in read.traverse() {
        for child in node.get_children() {
            is.push((child.uuid.value, node.uuid.value, child.value.raw));
        }
    }
    was.sort();
    is.sort();
    assert_eq!(was, is);
    assert_eq!(was.len(), 5);
    assert_eq!(TreeNode::import_from_sofer(&read.export_to_sofer(false)).unwrap(), read);
}
