use sofer::config::{bindings_from, read_config, ConfigError};
use sofer::script::Kind;
use std::collections::BTreeMap;

const BINDINGS: &str = r#"
config = {
    keybindings = {
        [17] = function() return "seventeen" end,
        [3] = function() return "three" end,
        ["5"] = function() return "five" end,
        [7] = "no function",
        name = function() return "no key code" end,
    }
}
"#;

#[test]
fn key_bindings_are_read_from_the_globals() {
    let lua = rlua::Lua::new();
    let config = read_config(BINDINGS.to_string(), &lua).unwrap();
    let codes: Vec<i32> = config.keybindings.keys().copied().collect();
    assert_eq!(codes, vec![3, 5, 17]);
    for (code, answer) in [(3, "three"), (5, "five"), (17, "seventeen")] {
        let function: rlua::Function = lua.registry_value(&config.keybindings[&code]).unwrap();
        assert_eq!(function.call::<_, String>(()).unwrap(), answer);
    }
}

#[test]
fn a_script_without_bindings_gives_none() {
    let lua = rlua::Lua::new();
    assert_eq!(
        read_config("x = 1".to_string(), &lua).err(),
        Some(ConfigError::NoConfig(Kind::Nil))
    );
    assert_eq!(
        read_config("config = 17".to_string(), &lua).err(),
        Some(ConfigError::NoConfig(Kind::Integer))
    );
    assert_eq!(
        read_config("config = {}".to_string(), &lua).err(),
        Some(ConfigError::NoKeybindings(Kind::Nil))
    );
    assert_eq!(
        read_config("config = { keybindings = \"none\" }".to_string(), &lua).err(),
        Some(ConfigError::NoKeybindings(Kind::Text))
    );
    let empty = read_config("config = { keybindings = {} } error('late')".to_string(), &lua);
    assert!(empty.unwrap().keybindings.is_empty());
}

#[test]
fn read_lua_table() {
    let lua = rlua::Lua::new();
    let _ = lua.load("table = { 1, 2, a = 2, b = 3 }").exec();

    let mut table_fields: BTreeMap<String, i32> = BTreeMap::new();
    let mut table_array: Vec<i32> = Vec::new();
    let table_lua = lua.globals().get::<_, rlua::Table>("table").expect("reading table");
    let mut table_lua_iter = table_lua.pairs::<rlua::Value, i32>();
    loop {
        match table_lua_iter.next() {
            Some(Ok((rlua::Value::String(k), v))) => {
                table_fields.insert(String::from(k.to_str().unwrap()), v);
            }
            Some(Ok((rlua::Value::Integer(_), v))) => {
                table_array.push(v);
            }
            None | Some(Err(_)) => break,
            _ => {}
        }
    }

    let mut expected: BTreeMap<String, i32> = BTreeMap::new();
    expected.insert(String::from("a"), 2);
    expected.insert(String::from("b"), 3);
    assert_eq!(table_fields, expected);
    assert_eq!(table_array, vec![1, 2]);
}

#[test]
fn function_from_table() {
    let lua = rlua::Lua::new();
    let _ = lua
        .load(
            r#"
                table = {
                    add = function (x, y) return x+y end,
                    pow = function (x) return x*x end
                }
            "#,
        )
        .exec();

    let table = lua.globals().get::<&str, rlua::Table>("table").unwrap();

    let add: rlua::Function = table.get("add").unwrap();
    let pow: rlua::Function = table.get("pow").unwrap();

    assert_eq!(add.call::<_, i32>((1, 2)).unwrap(), 1 + 2);
    assert_eq!(pow.call::<_, i32>(17).unwrap(), 17 * 17);
}

#[test]
fn iterate_over_table() {
    let lua = rlua::Lua::new();
    let _ = lua
        .load(
            r#"
                table = {
                    a = "a",
                    b = "b"
                }
            "#,
        )
        .exec();

    let table = lua.globals().get::<&str, rlua::Table>("table").unwrap();
    let values = table.pairs::<String, String>().map(|x| x.unwrap()).collect::<Vec<_>>();

    assert!(
        values == vec![("a".into(), "a".into()), ("b".into(), "b".into())]
            || values == vec![("b".into(), "b".into()), ("a".into(), "a".into())]
    );
}

#[test]
fn bindings_of_entries_looked_at() {
    let lua = rlua::Lua::new();
    let key = |text: &str| lua.create_registry_value(text).unwrap();
    let bindings = bindings_from(vec![
        (Some(4), Kind::Function, key("first of four")),
        (Some(2), Kind::Function, key("two")),
        (None, Kind::Function, key("no key code")),
        (Some(9), Kind::Text, key("no function")),
        (Some(4), Kind::Function, key("second of four")),
        (Some(-1), Kind::Function, key("below zero")),
    ]);
    let read: Vec<(i32, String)> = bindings
        .iter()
        .map(|(code, held)| (*code, lua.registry_value::<String>(held).unwrap()))
        .collect();
    assert_eq!(
        read,
        vec![
            (-1, "below zero".to_string()),
            (2, "two".to_string()),
            (4, "second of four".to_string()),
        ]
    );
    assert!(bindings_from(vec![]).is_empty());
}
