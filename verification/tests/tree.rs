use sofer::id::Uuid;
use sofer::tree::Tree;

fn leaf(value: &str, uuid: Uuid) -> Tree<String> {
    Tree { value: value.into(), uuid, first_child: None, next_sibling: None }
}

fn sample() -> (Tree<String>, Vec<Uuid>) {
    let mut tree: Tree<String> = Tree::new_tree("parent".into());

    let first = Tree::new_child("first child".into());
    let first_first = Tree::new_child("first first child".into());
    let first_second = Tree::new_child("first second child".into());
    let first_second_first = Tree::new_child("first second first child".into());
    let second = Tree::new_child("second child".into());
    let second_first = Tree::new_child("second first child".into());
    let ids = vec![
        first.uuid,
        first_first.uuid,
        first_second.uuid,
        first_second_first.uuid,
        second.uuid,
        second_first.uuid,
    ];

    tree.insert(Uuid::nil(), first.clone());
    tree.insert(first.uuid, first_first.clone());
    tree.insert(first.uuid, first_second.clone());
    tree.insert(first_second.uuid, first_second_first.clone());
    tree.insert(Uuid::nil(), second.clone());
    tree.insert(second.uuid, second_first.clone());
    (tree, ids)
}

fn expected(tree_uuid: Uuid, ids: &Vec<Uuid>) -> Tree<String> {
    Tree {
        value: "parent".into(),
        uuid: tree_uuid,
        next_sibling: None,
        first_child: Some(Box::new(Tree {
            value: "first child".into(),
            uuid: ids[0],
            first_child: Some(Box::new(Tree {
                value: "first first child".into(),
                uuid: ids[1],
                first_child: None,
                next_sibling: Some(Box::new(Tree {
                    value: "first second child".into(),
                    uuid: ids[2],
                    next_sibling: None,
                    first_child: Some(Box::new(leaf("first second first child", ids[3]))),
                })),
            })),
            next_sibling: Some(Box::new(Tree {
                value: "second child".into(),
                uuid: ids[4],
                next_sibling: None,
                first_child: Some(Box::new(leaf("second first child", ids[5]))),
            })),
        })),
    }
}

#[test]
fn tree_insert() {
    let (tree, ids) = sample();
    assert_eq!(expected(tree.uuid, &ids), tree)
}

#[test]
fn tree_find() {
    let (tree, ids) = sample();

    assert_eq!(tree.find(ids[0]).unwrap().value, "first child");
    assert_eq!(tree.find(ids[1]).unwrap().value, "first first child");
    assert_eq!(tree.find(ids[2]).unwrap().value, "first second child");
    assert_eq!(tree.find(ids[3]).unwrap().value, "first second first child");
    assert_eq!(tree.find(ids[4]).unwrap().value, "second child");
    assert_eq!(tree.find(ids[5]).unwrap().value, "second first child");

    for _ in 0..100 {
        let uuid = Uuid::new_v4();
        for (_, n) in tree.traverse() {
            if n.uuid == uuid {
                continue;
            }
        }
        assert!(tree.find(uuid).is_none())
    }
}

#[test]
fn traverse() {
    let (tree, ids) = sample();
    let whole = expected(tree.uuid, &ids);
    let first = (**whole.first_child.as_ref().unwrap()).clone();
    let first_first = (**first.first_child.as_ref().unwrap()).clone();
    let first_second = (**first_first.next_sibling.as_ref().unwrap()).clone();
    let first_second_first = (**first_second.first_child.as_ref().unwrap()).clone();
    let second = (**first.next_sibling.as_ref().unwrap()).clone();
    let second_first = (**second.first_child.as_ref().unwrap()).clone();

    assert_eq!(
        vec![
            (0 as usize, whole),
            (1 as usize, first),
            (2 as usize, first_first),
            (2 as usize, first_second),
            (3 as usize, first_second_first),
            (1 as usize, second),
            (2 as usize, second_first),
        ],
        tree.traverse()
    )
}

#[test]
fn tree_get_siblings() {
    let mut tree = Tree::new_tree("top");
    let first = Tree::new_child("first");
    let second = Tree::new_child("second");
    let third = Tree::new_child("third");
    let forth = Tree::new_child("forth");
    let fifth = Tree::new_child("fifth");
    tree.insert(Uuid::nil(), first.clone());
    tree.insert(Uuid::nil(), second.clone());
    tree.insert(Uuid::nil(), third.clone());
    tree.insert(Uuid::nil(), forth.clone());
    tree.insert(Uuid::nil(), fifth.clone());
    println!("tree = {:?}", tree);
    assert_eq!(
        tree.get_children().iter().map(|x| x.value).collect::<Vec<_>>(),
        vec!["first", "second", "third", "forth", "fifth"]
    )
}

#[test]
fn insert_under_an_unknown_parent_changes_nothing() {
    let (mut tree, ids) = sample();
    let before = expected(tree.uuid, &ids);
    let unknown = Uuid { value: 17 };
    assert!(tree.find(unknown).is_none());
    assert!(!tree.insert(unknown, Tree::new_child("lost".into())));
    assert_eq!(tree, before);
    assert_eq!(tree.traverse().len(), 7);
}

#[test]
fn insert_goes_to_the_end_of_the_children() {
    let mut tree: Tree<String> = Tree::new_tree("top".into());
    let mut pair = leaf("a", Uuid { value: 1 });
    pair.insert_to_sibling(leaf("b", Uuid { value: 2 }));
    pair.insert_to_sibling(leaf("c", Uuid { value: 3 }));
    assert!(tree.insert(Uuid::nil(), pair));
    assert!(tree.insert(Uuid::nil(), leaf("d", Uuid { value: 4 })));
    assert!(tree.insert(Uuid { value: 2 }, leaf("e", Uuid { value: 5 })));
    let walk: Vec<(usize, String)> =
        tree.traverse().into_iter().map(|(depth, node)| (depth, node.value)).collect();
    assert_eq!(
        walk,
        vec![
            (0, "top".to_string()),
            (1, "a".to_string()),
            (1, "b".to_string()),
            (2, "e".to_string()),
            (1, "c".to_string()),
            (1, "d".to_string()),
        ]
    );
    let after: Vec<String> =
        tree.first_child.as_ref().unwrap().get_siblings().into_iter().map(|n| n.value).collect();
    assert_eq!(after, vec!["b", "c", "d"]);
}

#[test]
fn the_first_node_in_the_walk_is_found() {
    let mut tree: Tree<String> = Tree::new_tree("top".into());
    tree.insert(Uuid::nil(), leaf("first", Uuid { value: 9 }));
    tree.insert(Uuid::nil(), leaf("second", Uuid { value: 9 }));
    tree.insert(Uuid { value: 9 }, leaf("below", Uuid { value: 10 }));
    assert_eq!(tree.find(Uuid { value: 9 }).unwrap().value, "first");
    assert_eq!(tree.find(Uuid { value: 10 }).unwrap().value, "below");
    assert_eq!(tree.first_child.as_ref().unwrap().first_child.as_ref().unwrap().value, "below");
    assert_eq!(tree.find(Uuid::nil()).unwrap().value, "top");
}
