//! Key bindings, read from a script.

use crate::script::{
    entries, execute, field, globals, key_code, kind_of, scalar, Kind, ScriptValue,
};
use std::collections::BTreeMap;
use vstd::prelude::*;

verus! {

/// The functions that keys are bound to: for every key code the handle of
/// a function in the engine that the bindings were read from.
pub struct Config {
    pub keybindings: BTreeMap<i32, rlua::RegistryKey>,
}

/// Why a script gives no key bindings.
#[derive(Clone, Copy, Debug, PartialEq, Eq, Structural)]
pub enum ConfigError {
    /// The global `config` is of this kind, and no table.
    NoConfig(Kind),
    /// The field `keybindings` of `config` is of this kind, and no table.
    NoKeybindings(Kind),
}

/// The bindings after one more entry of the table was looked at: an entry
/// whose key stands for a key code and whose value is a function binds
/// that key code, in place of what it was bound to; any other entry binds
/// nothing.
pub open spec fn bound(
    bindings: Map<i32, rlua::RegistryKey>,
    code: Option<i32>,
    kind: Kind,
    function: rlua::RegistryKey,
) -> Map<i32, rlua::RegistryKey> {
    match code {
        Some(code) if kind == Kind::Function => bindings.insert(code, function),
        _ => bindings,
    }
}

/// The bindings after every entry of a run was looked at in turn, starting
/// with none. Of an entry, the key code that its key stands for, the kind
/// of its value and the handle of its value are given.
pub open spec fn bindings_after(looked: Seq<(Option<i32>, Kind, rlua::RegistryKey)>) -> Map<
    i32,
    rlua::RegistryKey,
>
    decreases looked.len(),
{
    if looked.len() == 0 {
        Map::empty()
    } else {
        bound(
            bindings_after(looked.drop_last()),
            looked.last().0,
            looked.last().1,
            looked.last().2,
        )
    }
}

/// Looks at one entry of the table of bindings.
pub fn bind(
    bindings: &mut BTreeMap<i32, rlua::RegistryKey>,
    code: Option<i32>,
    kind: Kind,
    function: rlua::RegistryKey,
)
    ensures
        final(bindings)@ == bound(old(bindings)@, code, kind, function),
{
    broadcast use vstd::std_specs::btree::group_btree_axioms;

    match code {
        Some(code) => {
            if kind == Kind::Function {
                bindings.insert(code, function);
            }
        },
        None => {},
    }
}

/// The bindings that looking at the entries of a table in turn gives. Of
/// an entry, the key code that its key stands for, the kind of its value
/// and the handle of its value are given.
pub fn bindings_from(looked: Vec<(Option<i32>, Kind, rlua::RegistryKey)>) -> (bindings: BTreeMap<
    i32,
    rlua::RegistryKey,
>)
    ensures
        bindings@ == bindings_after(looked@),
{
    let ghost all = looked@;
    let ghost mut done: int = 0;
    let mut left = looked;
    let mut bindings: BTreeMap<i32, rlua::RegistryKey> = BTreeMap::new();
    proof {
        assert(all.subrange(0, 0) =~= Seq::<(Option<i32>, Kind, rlua::RegistryKey)>::empty());
    }
    while left.len() > 0
        invariant
            0 <= done <= all.len(),
            left@ == all.subrange(done, all.len() as int),
            bindings@ == bindings_after(all.subrange(0, done)),
        decreases left.len(),
    {
        let (code, kind, function) = left.remove(0);
        proof {
            let next = all.subrange(0, done + 1);
            assert(next.drop_last() =~= all.subrange(0, done));
            assert(next.last() == (code, kind, function));
            assert(left@ =~= all.subrange(done + 1, all.len() as int));
            done = done + 1;
        }
        bind(&mut bindings, code, kind, function);
    }
    proof {
        assert(all.subrange(0, done) =~= all);
    }
    bindings
}

/// The kind of what was found in a state, which is nil where nothing was
/// found.
fn kind_in(found: &Option<ScriptValue>) -> (kind: Kind)
    ensures
        kind == match *found {
            Some(value) => kind_of(value@),
            None => Kind::Nil,
        },
{
    match found {
        Some(value) => value.kind(),
        None => Kind::Nil,
    }
}

/// Runs a script in an engine and reads the key bindings that it leaves in
/// its globals: `config.keybindings`, a table from key codes to functions.
/// Whether the script fails does not matter. What the table holds is the
/// engine's to say; [`bindings_from`] says which bindings its entries give.
/// There are no bindings where `config`, or its field `keybindings`, is no
/// table.
pub fn read_config(source: String, lua: &rlua::Lua) -> (config: Result<Config, ConfigError>)
    ensures
        config matches Err(ConfigError::NoConfig(kind)) ==> kind != Kind::Table,
        config matches Err(ConfigError::NoKeybindings(kind)) ==> kind != Kind::Table,
{
    let _ = execute(lua, source.as_str());
    let config = match globals(lua) {
        Some(table) => field(lua, &table, "config"),
        None => None,
    };
    let held = match &config {
        Some(key) => Some(scalar(lua, key)),
        None => None,
    };
    let found = kind_in(&held);
    let config = match config {
        Some(table) if found == Kind::Table => table,
        _ => {
            return Err(ConfigError::NoConfig(found));
        },
    };
    let keybindings = field(lua, &config, "keybindings");
    let held = match &keybindings {
        Some(key) => Some(scalar(lua, key)),
        None => None,
    };
    let found = kind_in(&held);
    let keybindings = match keybindings {
        Some(table) if found == Kind::Table => table,
        _ => {
            return Err(ConfigError::NoKeybindings(found));
        },
    };
    let mut pairs = entries(lua, &keybindings);
    let mut looked: Vec<(Option<i32>, Kind, rlua::RegistryKey)> = Vec::new();
    while pairs.len() > 0
        decreases pairs.len(),
    {
        let (key, function) = pairs.remove(0);
        let code = key_code(lua, &key);
        let kind = scalar(lua, &function).kind();
        looked.push((code, kind, function));
    }
    Ok(Config { keybindings: bindings_from(looked) })
}

} // verus!
