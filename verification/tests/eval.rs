use sofer::bridge::{ConversionError, FromScript, Shape, ToScript};
use sofer::formula::{fold_outcome, split_formula, ImportError};
use sofer::id::Uuid;
use sofer::node::{Attribute, Node, TreeNode};
use sofer::script::{
    decide_outcome, integer_to_text, text_of_outcome, FormulaOutcome, Kind, ScriptValue,
};
use sofer::tree::Tree;

fn single(raw: &str) -> TreeNode {
    Tree::new_tree(Node::new(raw.into(), Vec::new()))
}

fn text(value: &str) -> ScriptValue {
    ScriptValue::Text(value.into())
}

#[test]
fn a_function_is_called_and_its_result_kept() {
    assert_eq!(single("Count: @ function(n) return 0 end").eval(), "Count: 0");
}

#[test]
fn a_text_without_formula_evaluates_to_itself() {
    assert_eq!(single("Plain text, no formula").eval(), "Plain text, no formula");
    assert_eq!(single("").eval(), "");
    assert_eq!(single("ends with the sign @").eval(), "ends with the sign ");
}

#[test]
fn the_function_sees_the_node_and_its_children() {
    let mut tree = single("first is @ function(node) return node.children[1].value.raw end");
    tree.insert(Uuid::nil(), Tree::with_uuid(Node::new("one".into(), vec![]), Uuid { value: 1 }));
    tree.insert(Uuid::nil(), Tree::with_uuid(Node::new("two".into(), vec![]), Uuid { value: 2 }));
    assert_eq!(tree.eval(), "first is one");
    let count = Tree::with_uuid(
        Node::new("n = @ function(node) return #node.children end".into(), vec![]),
        Uuid { value: 3 },
    );
    assert_eq!(count.eval(), "n = 0");
    let own = single("I say: @ function(node) return node.value.raw end");
    assert_eq!(own.eval(), "I say: I say: @ function(node) return node.value.raw end");
    let uuid = Tree::with_uuid(
        Node::new("@function(node) return node.uuid end".into(), vec![]),
        Uuid { value: 0xab },
    );
    assert_eq!(uuid.eval(), "000000000000000000000000000000ab");
    let hidden = Tree::with_uuid(
        Node {
            raw: "@function(node) return tostring(node.value.evaled) .. tostring(node.value.attributes) end"
                .into(),
            evaled: Some("before".into()),
            attributes: vec![Attribute::Boolean("b".into(), true)],
        },
        Uuid { value: 4 },
    );
    assert_eq!(hidden.eval(), "nilnil");
}

#[test]
fn a_function_that_fails_leaves_a_fixed_text() {
    assert_eq!(single("x @ function(n) error('no') end").eval(), "x error function");
    assert_eq!(single("x @ function(n) return n.nothing.at.all end").eval(), "x error function");
    assert_eq!(single("x @ function(n) return {} end").eval(), "x error function");
}

#[test]
fn a_value_that_is_no_function_is_described() {
    assert_eq!(single("it is @ true").eval(), "it is Boolean(true)");
    assert_eq!(single("it is @ 1 + 2").eval(), "it is Integer(3)");
    assert_eq!(single("it is @ \"ñe\"").eval(), "it is String(\"ñe\")");
    let wrong = single("it is @ )(").eval();
    assert!(wrong.starts_with("it is SyntaxError"), "{}", wrong);
}

#[test]
fn a_pass_evaluates_every_node_whatever_its_formula_comes_to() {
    let mut tree = TreeNode::import_from_sofer(
        "00000000-0000-0000-0000-000000000001 00000000-0000-0000-0000-000000000000  a @ function(n) error('stop') end\n\
         00000000-0000-0000-0000-000000000002 00000000-0000-0000-0000-000000000001  b @ function(n) return n.value.raw end\n\
         00000000-0000-0000-0000-000000000003 00000000-0000-0000-0000-000000000000  c @ )(\n\
         00000000-0000-0000-0000-000000000004 00000000-0000-0000-0000-000000000000  d\n",
    )
    .unwrap();
    let before = tree.traverse();
    tree.eval_all();
    let after = tree.traverse();
    assert_eq!(after.len(), 5);
    assert_eq!(before.len(), after.len());
    for ((depth, was), (level, is)) in before.iter().zip(after.iter()) {
        assert_eq!(depth, level);
        assert_eq!(was.uuid, is.uuid);
        assert_eq!(was.value.raw, is.value.raw);
        assert!(is.value.evaled.is_some());
    }
    let texts: Vec<String> = after.into_iter().map(|(_, n)| n.value.evaled.unwrap()).collect();
    assert_eq!(texts[0], "");
    assert_eq!(texts[1], "a error function");
    assert_eq!(texts[2], "b b @ function(n) return n.value.raw end");
    assert!(texts[3].starts_with("c SyntaxError"));
    assert_eq!(texts[4], "d");
    tree.eval_all();
    assert_eq!(tree.first_child.as_ref().unwrap().value.evaled, Some("a error function".into()));
}

#[test]
fn formula_parts() {
    assert_eq!(split_formula("a @ b @ c"), ("a ".to_string(), " b @ c".to_string()));
    assert_eq!(split_formula("plain"), ("plain".to_string(), "".to_string()));
    assert_eq!(split_formula("@"), ("".to_string(), "".to_string()));
    assert_eq!(fold_outcome("a @ b", None), "a ");
    assert_eq!(fold_outcome("a @ b", Some(FormulaOutcome::Returned("r".into()))), "a r");
    assert_eq!(fold_outcome("a @ b", Some(FormulaOutcome::CallFailed)), "a error function");
    assert_eq!(text_of_outcome(FormulaOutcome::Value("v".into())), "v");
    assert_eq!(text_of_outcome(FormulaOutcome::Failure("f".into())), "f");
}

#[test]
fn tree_from_lua() {
    let lua_code = r#"
{
    value="",
    uuid="00000000-0000-0000-0000-000000000000",
    children={
        {
            value="caca de vaca @ function(node) return tostring(node.children[1].value.raw) end",
            uuid="00000000-0000-0000-0000-000000000001",
            children={}
        },
        {
            value="Esto es lo que he dicho: @ function(node) return node.value.raw end",
            uuid="00000000-0000-0000-0000-000000000002",
            children={}
        }
    }
}
        "#;
    let tree: Tree<String> = Tree::from_lua(lua_code).unwrap();
    assert_eq!(
        tree,
        Tree {
            value: "".into(),
            uuid: Uuid::nil(),
            first_child: Some(Box::new(Tree {
                value: "caca de vaca @ function(node) return tostring(node.children[1].value.raw) end"
                    .into(),
                uuid: Uuid::parse_str("00000000-0000-0000-0000-000000000001").unwrap(),
                first_child: None,
                next_sibling: Some(Box::new(Tree {
                    value: "Esto es lo que he dicho: @ function(node) return node.value.raw end"
                        .into(),
                    uuid: Uuid::parse_str("00000000-0000-0000-0000-000000000002").unwrap(),
                    first_child: None,
                    next_sibling: None,
                })),
            })),
            next_sibling: None,
        }
    )
}

fn sample() -> TreeNode {
    let mut tree = Tree::new_tree(Node::new("top \"quoted\"\n".into(), Vec::new()));
    let mut child = Tree::with_uuid(
        Node::new(
            "child".into(),
            vec![
                Attribute::Text("t".into(), "x \\ y".into()),
                Attribute::Number("n".into(), "231".into()),
                Attribute::Number("m".into(), "0.5".into()),
                Attribute::Boolean("yes".into(), true),
                Attribute::Boolean("no".into(), false),
            ],
        ),
        Uuid { value: 1 },
    );
    child.value.evaled = Some("evaluated".into());
    tree.insert(Uuid::nil(), child);
    tree.insert(Uuid { value: 1 }, Tree::with_uuid(Node::new("below".into(), vec![]), Uuid { value: 2 }));
    tree.insert(Uuid::nil(), Tree::with_uuid(Node::new("last".into(), vec![]), Uuid { value: 3 }));
    tree
}

#[test]
fn export_to_lua_writes_nested_tables() {
    let mut tree = Tree::new_tree(Node::new("a \"b\"".into(), Vec::new()));
    tree.insert(
        Uuid::nil(),
        Tree::with_uuid(
            Node {
                raw: "c".into(),
                evaled: Some("d".into()),
                attributes: vec![
                    Attribute::Text("t".into(), "x".into()),
                    Attribute::Number("n".into(), "3".into()),
                    Attribute::Boolean("y".into(), true),
                    Attribute::Boolean("z".into(), false),
                ],
            },
            Uuid { value: 1 },
        ),
    );
    tree.insert(Uuid::nil(), Tree::with_uuid(Node::new("e".into(), vec![]), Uuid { value: 2 }));
    assert_eq!(
        tree.export_to_lua(),
        "{value={raw=\"a \\\"b\\\"\",evaled=nil,attributes={}},uuid=\"00000000-0000-0000-0000-000000000000\",children={\
         {value={raw=\"c\",evaled=\"d\",attributes={[\"t\"]=\"x\";[\"n\"]=3;[\"y\"]=true;[\"z\"]=false;}},uuid=\"00000000-0000-0000-0000-000000000001\",children={}},\
         {value={raw=\"e\",evaled=nil,attributes={}},uuid=\"00000000-0000-0000-0000-000000000002\",children={}}}}"
    );
}

fn sorted(mut node: Node) -> Node {
    node.attributes.sort_by_key(|a| match a {
        Attribute::Text(name, _) | Attribute::Number(name, _) | Attribute::Boolean(name, _) => {
            name.clone()
        }
    });
    node
}

#[test]
fn what_export_to_lua_writes_import_from_lua_reads() {
    let tree = sample();
    let read = TreeNode::import_from_lua(&tree.export_to_lua()).unwrap();
    let was = tree.traverse();
    let is = read.traverse();
    assert_eq!(was.len(), is.len());
    for ((depth, a), (level, b)) in was.into_iter().zip(is.into_iter()) {
        assert_eq!(depth, level);
        assert_eq!(a.uuid, b.uuid);
        assert_eq!(sorted(a.value), sorted(b.value));
    }
}

#[test]
fn import_from_lua_refuses_what_is_no_tree() {
    assert!(matches!(TreeNode::import_from_lua("this is no script"), Err(ImportError::Script(_))));
    assert_eq!(
        TreeNode::import_from_lua("17"),
        Err(ImportError::Conversion(ConversionError::Mismatch {
            expected: Shape::Tree,
            found: Kind::Integer
        }))
    );
    assert_eq!(
        TreeNode::import_from_lua("{uuid=\"00000000-0000-0000-0000-000000000000\",children={}}"),
        Err(ImportError::Conversion(ConversionError::Mismatch {
            expected: Shape::Node,
            found: Kind::Nil
        }))
    );
    assert_eq!(
        TreeNode::import_from_lua("{value={},uuid=\"00000000-0000-0000-0000-000000000000\",children={}}"),
        Err(ImportError::Conversion(ConversionError::Mismatch {
            expected: Shape::Raw,
            found: Kind::Nil
        }))
    );
    assert_eq!(
        TreeNode::import_from_lua("{value={raw=\"a\",evaled=true},uuid=\"0\",children={}}"),
        Err(ImportError::Conversion(ConversionError::Mismatch {
            expected: Shape::Evaled,
            found: Kind::Boolean
        }))
    );
    assert_eq!(
        TreeNode::import_from_lua("{value={raw=\"a\",attributes=\"b\"},uuid=\"0\",children={}}"),
        Err(ImportError::Conversion(ConversionError::Mismatch {
            expected: Shape::Attributes,
            found: Kind::Text
        }))
    );
    assert_eq!(
        TreeNode::import_from_lua("{value={raw=\"a\"},uuid=7,children={}}"),
        Err(ImportError::Conversion(ConversionError::Mismatch {
            expected: Shape::Uuid,
            found: Kind::Integer
        }))
    );
    assert_eq!(
        TreeNode::import_from_lua("{value={raw=\"a\"},uuid=\"seven\",children={}}"),
        Err(ImportError::Conversion(ConversionError::WrongUuid("seven".into())))
    );
    assert_eq!(
        TreeNode::import_from_lua("{value={raw=\"a\"},uuid=\"00000000-0000-0000-0000-000000000000\"}"),
        Err(ImportError::Conversion(ConversionError::Mismatch {
            expected: Shape::Children,
            found: Kind::Nil
        }))
    );
    assert_eq!(
        TreeNode::import_from_lua(
            "{value={raw=\"a\"},uuid=\"00000000-0000-0000-0000-000000000000\",children={1.5}}"
        ),
        Err(ImportError::Conversion(ConversionError::Mismatch {
            expected: Shape::Tree,
            found: Kind::Number
        }))
    );
    assert_eq!(
        Tree::<String>::from_lua("{value={},uuid=\"00000000-0000-0000-0000-000000000000\",children={}}"),
        Err(ImportError::Conversion(ConversionError::Mismatch {
            expected: Shape::Text,
            found: Kind::Table
        }))
    );
}

#[test]
fn a_tree_is_shown_as_a_table() {
    let mut tree = Tree::new_tree(Node::new("top".into(), vec![Attribute::Boolean("b".into(), true)]));
    tree.insert(Uuid::nil(), Tree::with_uuid(Node::new("one".into(), vec![]), Uuid { value: 1 }));
    tree.insert(Uuid::nil(), Tree::with_uuid(Node::new("two".into(), vec![]), Uuid { value: 2 }));
    let shown = |raw: &str, uuid: &str, children: Vec<(ScriptValue, ScriptValue)>| {
        ScriptValue::Table(vec![
            (text("value"), ScriptValue::Table(vec![(text("raw"), text(raw))])),
            (text("uuid"), text(uuid)),
            (text("children"), ScriptValue::Table(children)),
        ])
    };
    assert_eq!(
        tree.to_script(),
        shown(
            "top",
            "00000000000000000000000000000000",
            vec![
                (ScriptValue::Integer(1), shown("one", "00000000000000000000000000000001", vec![])),
                (ScriptValue::Integer(2), shown("two", "00000000000000000000000000000002", vec![])),
            ]
        )
    );
    assert_eq!(tree.value.to_script(), ScriptValue::Table(vec![(text("raw"), text("top"))]));
    let back = TreeNode::from_script(&tree.to_script()).unwrap();
    assert_eq!(back.print(false), tree.print(false));
    assert_eq!(back.value.attributes, vec![]);
}

#[test]
fn a_tree_of_texts_is_shown_as_a_table() {
    let mut tree: Tree<String> = Tree::new_tree("top".to_string());
    tree.insert(Uuid::nil(), Tree::with_uuid("one".to_string(), Uuid { value: 1 }));
    let shown = tree.to_script();
    assert_eq!(
        shown,
        ScriptValue::Table(vec![
            (text("value"), text("top")),
            (text("uuid"), text("00000000000000000000000000000000")),
            (
                text("children"),
                ScriptValue::Table(vec![(
                    ScriptValue::Integer(1),
                    ScriptValue::Table(vec![
                        (text("value"), text("one")),
                        (text("uuid"), text("00000000000000000000000000000001")),
                        (text("children"), ScriptValue::Table(vec![])),
                    ])
                )])
            ),
        ])
    );
    assert_eq!(Tree::<String>::from_script(&shown), Ok(tree));
}

#[test]
fn a_node_is_read_from_a_table() {
    let value = ScriptValue::Table(vec![
        (text("evaled"), text("e")),
        (
            text("attributes"),
            ScriptValue::Table(vec![
                (text("t"), text("x")),
                (text("i"), ScriptValue::Integer(-231)),
                (text("n"), ScriptValue::Number("0.5".into())),
                (text("bad"), ScriptValue::Number("NaN".into())),
                (text("b"), ScriptValue::Boolean(false)),
                (text("f"), ScriptValue::Function),
                (ScriptValue::Integer(1), text("no name")),
            ]),
        ),
        (text("raw"), text("r")),
    ]);
    assert_eq!(
        Node::from_script(&value),
        Ok(Node {
            raw: "r".into(),
            evaled: Some("e".into()),
            attributes: vec![
                Attribute::Text("t".into(), "x".into()),
                Attribute::Number("i".into(), "-231".into()),
                Attribute::Number("n".into(), "0.5".into()),
                Attribute::Boolean("b".into(), false),
            ],
        })
    );
    assert_eq!(
        Node::from_script(&ScriptValue::Function),
        Err(ConversionError::Mismatch { expected: Shape::Node, found: Kind::Function })
    );
    assert_eq!(String::from_script(&text("payload")), Ok("payload".to_string()));
    assert_eq!(ScriptValue::Other.kind(), Kind::Other);
}

#[test]
fn integers_in_decimal_notation() {
    assert_eq!(integer_to_text(0), "0");
    assert_eq!(integer_to_text(7), "7");
    assert_eq!(integer_to_text(-40), "-40");
    assert_eq!(integer_to_text(i64::MAX), "9223372036854775807");
    assert_eq!(integer_to_text(i64::MIN), "-9223372036854775808");
}

#[test]
fn what_the_answers_of_the_engine_come_to() {
    assert_eq!(
        decide_outcome(Err("no".into()), Some("never".into()), "never".into()),
        FormulaOutcome::Failure("no".into())
    );
    assert_eq!(
        decide_outcome(Ok(Kind::Function), Some("given".into()), "never".into()),
        FormulaOutcome::Returned("given".into())
    );
    assert_eq!(
        decide_outcome(Ok(Kind::Function), None, "never".into()),
        FormulaOutcome::CallFailed
    );
    for kind in [
        Kind::Nil,
        Kind::Boolean,
        Kind::Integer,
        Kind::Number,
        Kind::Text,
        Kind::Table,
        Kind::Other,
    ] {
        assert_eq!(
            decide_outcome(Ok(kind), Some("never".into()), "described".into()),
            FormulaOutcome::Value("described".into())
        );
    }
}

fn nested(levels: usize) -> String {
    format!(
        "local function node(k)\n\
           local id = string.format(\"%032x\", k)\n\
           if k == 0 then return {{value={{raw=\"leaf\"}}, uuid=id, children={{}}}} end\n\
           return {{value={{raw=\"inner\"}}, uuid=id, children={{node(k - 1)}}}}\n\
         end\n\
         return node({})",
        levels
    )
}

#[test]
fn tables_are_taken_out_down_to_a_limit() {
    let deep = TreeNode::import_from_lua(&nested(127)).unwrap();
    let walk = deep.traverse();
    assert_eq!(walk.len(), 128);
    assert_eq!(walk[127].0, 127);
    assert_eq!(walk[127].1.value.raw, "leaf");
    assert_eq!(
        TreeNode::import_from_lua(&nested(128)),
        Err(ImportError::Conversion(ConversionError::Mismatch {
            expected: Shape::Tree,
            found: Kind::Other
        }))
    );
}
