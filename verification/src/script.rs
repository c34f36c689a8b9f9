//! Values that cross between documents and the scripting engine, and the
//! engine itself.
//!
//! The engine is Lua, from an outside crate. Values that live inside a Lua
//! state are held by registry keys; a key that is shown to a state that did
//! not make it is answered with an error, never with a panic.

use crate::id::hex_digit;
use crate::text::text_of;
use vstd::prelude::*;

verus! {

/// The scripting engine of an outside crate: one Lua state.
#[verifier::external_type_specification]
#[verifier::external_body]
pub struct ExLua(rlua::Lua);

/// A handle to a value that lives inside a Lua state.
#[verifier::external_type_specification]
#[verifier::external_body]
pub struct ExRegistryKey(rlua::RegistryKey);

/// A value of the scripting language, as far as documents deal with it.
#[derive(Debug, PartialEq)]
pub enum ScriptValue {
    Nil,
    Boolean(bool),
    Integer(i64),
    /// A number that is no integer, in decimal notation.
    Number(String),
    Text(String),
    /// A table: its keys with their values, in the order of the engine's
    /// own walk.
    Table(Vec<(ScriptValue, ScriptValue)>),
    Function,
    /// Anything else that the engine knows.
    Other,
}

/// What a [`ScriptValue`] holds, as plain values.
pub enum ScriptView {
    Nil,
    Boolean(bool),
    Integer(i64),
    Number(Seq<char>),
    Text(Seq<char>),
    Table(Seq<(ScriptView, ScriptView)>),
    Function,
    Other,
}

/// The views of the entries of a table.
pub open spec fn entry_views(entries: Seq<(ScriptValue, ScriptValue)>) -> Seq<
    (ScriptView, ScriptView),
>
    decreases entries,
{
    Seq::new(
        entries.len(),
        |i: int|
            if 0 <= i < entries.len() {
                (script_view(entries[i].0), script_view(entries[i].1))
            } else {
                (ScriptView::Nil, ScriptView::Nil)
            },
    )
}

/// The view of a script value.
pub open spec fn script_view(value: ScriptValue) -> ScriptView
    decreases value,
{
    match value {
        ScriptValue::Nil => ScriptView::Nil,
        ScriptValue::Boolean(b) => ScriptView::Boolean(b),
        ScriptValue::Integer(i) => ScriptView::Integer(i),
        ScriptValue::Number(text) => ScriptView::Number(text@),
        ScriptValue::Text(text) => ScriptView::Text(text@),
        ScriptValue::Table(entries) => ScriptView::Table(entry_views(entries@)),
        ScriptValue::Function => ScriptView::Function,
        ScriptValue::Other => ScriptView::Other,
    }
}

impl View for ScriptValue {
    type V = ScriptView;

    open spec fn view(&self) -> ScriptView {
        script_view(*self)
    }
}

/// The keys and values of a table are smaller than the table.
pub proof fn lemma_entry_decreases(value: ScriptValue, i: int)
    requires
        value is Table,
        0 <= i < value->Table_0.len(),
    ensures
        decreases_to!(value => value->Table_0@[i].0),
        decreases_to!(value => value->Table_0@[i].1),
{
    let entries = value->Table_0;
    assert(decreases_to!(value => entries));
    assert(decreases_to!(entries => entries@)) by {
        vstd::std_specs::vec::axiom_vec_decreases_to_view(entries);
    }
    assert(decreases_to!(entries@ => entries@[i])) by {
        broadcast use vstd::seq::group_seq_axioms;
    }
    assert(decreases_to!(entries@[i] => entries@[i].0));
    assert(decreases_to!(entries@[i] => entries@[i].1));
}

/// The kinds of script values.
#[derive(Clone, Copy, Debug, PartialEq, Eq, Structural)]
pub enum Kind {
    Nil,
    Boolean,
    Integer,
    Number,
    Text,
    Table,
    Function,
    Other,
}

/// The kind of a script value.
pub open spec fn kind_of(value: ScriptView) -> Kind {
    match value {
        ScriptView::Nil => Kind::Nil,
        ScriptView::Boolean(_) => Kind::Boolean,
        ScriptView::Integer(_) => Kind::Integer,
        ScriptView::Number(_) => Kind::Number,
        ScriptView::Text(_) => Kind::Text,
        ScriptView::Table(_) => Kind::Table,
        ScriptView::Function => Kind::Function,
        ScriptView::Other => Kind::Other,
    }
}

impl ScriptValue {
    /// The kind of this value.
    pub fn kind(&self) -> (kind: Kind)
        ensures
            kind == kind_of(self@),
    {
        match self {
            ScriptValue::Nil => Kind::Nil,
            ScriptValue::Boolean(_) => Kind::Boolean,
            ScriptValue::Integer(_) => Kind::Integer,
            ScriptValue::Number(_) => Kind::Number,
            ScriptValue::Text(_) => Kind::Text,
            ScriptValue::Table(_) => Kind::Table,
            ScriptValue::Function => Kind::Function,
            ScriptValue::Other => Kind::Other,
        }
    }
}

/// What running a formula came to.
#[derive(Debug, PartialEq)]
pub enum FormulaOutcome {
    /// The formula gave a function, and the function gave this text.
    Returned(String),
    /// The formula gave a function, and calling it failed.
    CallFailed,
    /// The formula gave a value that is no function; this describes it.
    Value(String),
    /// The formula could not be run; this describes why.
    Failure(String),
}

/// What stands in the text of a node for a function that failed.
pub open spec fn call_failed_text() -> Seq<char> {
    "error function"@
}

/// The text that an outcome puts behind the literal part of a node's text.
pub open spec fn outcome_text(outcome: FormulaOutcome) -> Seq<char> {
    match outcome {
        FormulaOutcome::Returned(text) => text@,
        FormulaOutcome::CallFailed => call_failed_text(),
        FormulaOutcome::Value(text) => text@,
        FormulaOutcome::Failure(text) => text@,
    }
}

/// Starts a scripting engine.
///
/// Trusted: this is `rlua::Lua::new`, which makes a Lua state with the safe
/// part of the standard library. Nothing is claimed of the state.
#[verifier::external_body]
fn engine() -> rlua::Lua {
    rlua::Lua::new()
}

/// Runs a piece of source, as an expression if it is one and as a block
/// otherwise, and keeps its value in the state.
///
/// Trusted: this is `Lua::load`, `Chunk::eval` and
/// `Lua::create_registry_value`. On failure the result is the `Debug` text
/// of the engine's error. Nothing is claimed of either result: what a
/// script gives is up to the script, and the call comes back only when the
/// script does.
#[verifier::external_body]
fn evaluate(lua: &rlua::Lua, source: &str) -> Result<rlua::RegistryKey, String> {
    lua.load(source).eval::<rlua::Value>().and_then(|value| lua.create_registry_value(value)).map_err(
        |error| format!("{:?}", error),
    )
}

/// What a value in the state is, without what a table holds: a table comes
/// back empty.
///
/// Trusted: this is `Lua::registry_value` and a match on
/// `rlua::Value`, one arm for each kind. A string that is no UTF-8, and a
/// key of another state, come back as `Other`. A number that is no integer
/// comes back in the notation of its `Display`. Nothing is claimed of the
/// result.
#[verifier::external_body]
pub(crate) fn scalar(lua: &rlua::Lua, key: &rlua::RegistryKey) -> ScriptValue {
    match lua.registry_value::<rlua::Value>(key) {
        Ok(rlua::Value::Nil) => ScriptValue::Nil,
        Ok(rlua::Value::Boolean(b)) => ScriptValue::Boolean(b),
        Ok(rlua::Value::Integer(i)) => ScriptValue::Integer(i),
        Ok(rlua::Value::Number(n)) => ScriptValue::Number(n.to_string()),
        Ok(rlua::Value::String(s)) => s.to_str().map_or(
            ScriptValue::Other,
            |text| ScriptValue::Text(text.to_owned()),
        ),
        Ok(rlua::Value::Table(_)) => ScriptValue::Table(Vec::new()),
        Ok(rlua::Value::Function(_)) => ScriptValue::Function,
        _ => ScriptValue::Other,
    }
}

/// The keys and values of a table in the state, in the order of the
/// engine's own walk; nothing for a value that is no table.
///
/// Trusted: this is `Lua::registry_value`, `Table::pairs` and
/// `Lua::create_registry_value`. A pair that the engine cannot hand over is
/// left out. Nothing is claimed of the result; the order of the walk is the
/// engine's.
#[verifier::external_body]
pub(crate) fn entries(
    lua: &rlua::Lua,
    key: &rlua::RegistryKey,
) -> Vec<(rlua::RegistryKey, rlua::RegistryKey)> {
    lua.registry_value::<rlua::Table>(key).map_or(
        Vec::new(),
        |table|
            table.pairs::<rlua::Value, rlua::Value>().filter_map(
                |pair|
                    {
                        let (k, v) = pair.ok()?;
                        Some((lua.create_registry_value(k).ok()?, lua.create_registry_value(v).ok()?))
                    },
            ).collect(),
    )
}

/// A description of a value in the state.
///
/// Trusted: this is `Lua::registry_value` and the `Debug` text of
/// `rlua::Value`, or of the engine's error where the key is of another
/// state. Nothing is claimed of the text: for a table it holds an address.
#[verifier::external_body]
fn describe(lua: &rlua::Lua, key: &rlua::RegistryKey) -> String {
    lua.registry_value::<rlua::Value>(key).map_or_else(
        |error| format!("{:?}", error),
        |value| format!("{:?}", value),
    )
}

/// Calls a function in the state with one argument and takes the result as
/// text; `None` where the call fails or gives no text.
///
/// Trusted: this is `Lua::registry_value` and `Function::call` with
/// `String` as the type of the result. Nothing is claimed of the result,
/// and the call comes back only when the function does.
#[verifier::external_body]
fn call_for_text(
    lua: &rlua::Lua,
    function: &rlua::RegistryKey,
    argument: &rlua::RegistryKey,
) -> Option<String> {
    let function = lua.registry_value::<rlua::Function>(function).ok()?;
    let argument = lua.registry_value::<rlua::Value>(argument).ok()?;
    function.call::<_, String>(argument).ok()
}

/// Puts a value into the state, a table without what it holds; `None`
/// where the engine refuses.
///
/// Trusted: this is `Lua::create_string`, `Lua::coerce_number`,
/// `Lua::create_table` and `Lua::create_registry_value`. A number goes in
/// as the engine reads its notation. What has no counterpart in the engine
/// goes in as nil. Nothing is claimed of the result.
#[verifier::external_body]
fn store(lua: &rlua::Lua, value: &ScriptValue) -> Option<rlua::RegistryKey> {
    let value = match value {
        ScriptValue::Boolean(b) => rlua::Value::Boolean(*b),
        ScriptValue::Integer(i) => rlua::Value::Integer(*i),
        ScriptValue::Number(text) => rlua::Value::Number(
            lua.coerce_number(rlua::Value::String(lua.create_string(text).ok()?)).ok()??,
        ),
        ScriptValue::Text(text) => rlua::Value::String(lua.create_string(text).ok()?),
        ScriptValue::Table(_) => rlua::Value::Table(lua.create_table().ok()?),
        _ => rlua::Value::Nil,
    };
    lua.create_registry_value(value).ok()
}

/// Whether a value can be the key of a table that goes into the state: a
/// text, an integer or a boolean. The engine takes neither nil nor a number
/// that is no number for a key, and a table or a function has no
/// counterpart that could be found again.
pub open spec fn is_key(value: ScriptView) -> bool {
    value is Text || value is Integer || value is Boolean
}

/// Sets one key of a table in the state; `false` where the engine refuses.
///
/// Trusted: this is `Lua::create_string`, `Lua::registry_value` and
/// `Table::raw_set`. The key goes in as a string, an integer or a boolean
/// of the engine; with such a key `raw_set` raises no error of the engine.
/// Nothing is claimed beyond the result being the engine's answer.
#[verifier::external_body]
fn table_set(
    lua: &rlua::Lua,
    table: &rlua::RegistryKey,
    key: &ScriptValue,
    value: &rlua::RegistryKey,
) -> bool
    requires
        is_key(key@),
{
    let key = match key {
        ScriptValue::Text(text) => match lua.create_string(text) {
            Ok(string) => rlua::Value::String(string),
            Err(_) => return false,
        },
        ScriptValue::Integer(i) => rlua::Value::Integer(*i),
        ScriptValue::Boolean(b) => rlua::Value::Boolean(*b),
        _ => return false,
    };
    match (lua.registry_value::<rlua::Table>(table), lua.registry_value::<rlua::Value>(value)) {
        (Ok(table), Ok(value)) => table.raw_set(key, value).is_ok(),
        _ => false,
    }
}

/// Runs a piece of source as a block; `false` where it fails.
///
/// Trusted: this is `Lua::load` and `Chunk::exec`. Nothing is claimed of
/// the result, and the call comes back only when the script does.
#[verifier::external_body]
pub(crate) fn execute(lua: &rlua::Lua, source: &str) -> bool {
    lua.load(source).exec().is_ok()
}

/// The table of the globals of a state; `None` where the engine refuses.
///
/// Trusted: this is `Lua::globals` and `Lua::create_registry_value`.
/// Nothing is claimed of the result.
#[verifier::external_body]
pub(crate) fn globals(lua: &rlua::Lua) -> Option<rlua::RegistryKey> {
    lua.create_registry_value(lua.globals()).ok()
}

/// What a table in the state holds under a name, nil where it holds
/// nothing; `None` where the value is no table or the engine refuses.
///
/// Trusted: this is `Lua::registry_value`, `Table::get` and
/// `Lua::create_registry_value`. Nothing is claimed of the result.
#[verifier::external_body]
pub(crate) fn field(lua: &rlua::Lua, table: &rlua::RegistryKey, name: &str) -> Option<
    rlua::RegistryKey,
> {
    let table = lua.registry_value::<rlua::Table>(table).ok()?;
    lua.create_registry_value(table.get::<_, rlua::Value>(name).ok()?).ok()
}

/// The number that a value in the state stands for, as the engine reads it
/// where a number of 32 bits is asked for; `None` where it stands for none.
///
/// Trusted: this is `Lua::registry_value` with `i32` as the type of the
/// result. Nothing is claimed of the result.
#[verifier::external_body]
pub(crate) fn key_code(lua: &rlua::Lua, key: &rlua::RegistryKey) -> Option<i32> {
    lua.registry_value::<i32>(key).ok()
}

/// Whether a value can go into the state with all that it holds: every
/// key of every table in it is a text, an integer or a boolean.
pub open spec fn storable(value: ScriptView) -> bool
    decreases value,
{
    match value {
        ScriptView::Table(entries) => forall|i: int|
            0 <= i < entries.len() ==> is_key((#[trigger] entries[i]).0) && storable(entries[i].1),
        _ => true,
    }
}

/// Whether a value can be the key of a table that goes into the state.
fn fits_as_key(value: &ScriptValue) -> (fits: bool)
    ensures
        fits == is_key(value@),
{
    match value {
        ScriptValue::Text(_) => true,
        ScriptValue::Integer(_) => true,
        ScriptValue::Boolean(_) => true,
        _ => false,
    }
}

/// Puts a value with all that it holds into the state and gives its
/// handle. There is no handle for a value that holds a table with a key
/// that is no text, integer or boolean; for any other value the engine
/// decides.
fn load(lua: &rlua::Lua, value: &ScriptValue) -> (handle: Option<rlua::RegistryKey>)
    ensures
        handle is Some ==> storable(value@),
    decreases value,
{
    let key = store(lua, value)?;
    match value {
        ScriptValue::Table(list) => {
            let mut i: usize = 0;
            while i < list.len()
                invariant
                    i <= list.len(),
                    *value == ScriptValue::Table(*list),
                    forall|j: int|
                        0 <= j < i ==> is_key((#[trigger] list[j]).0@) && storable(list[j].1@),
                decreases list.len() - i,
            {
                proof {
                    lemma_entry_decreases(*value, i as int);
                }
                if !fits_as_key(&list[i].0) {
                    return None;
                }
                let held = load(lua, &list[i].1)?;
                if !table_set(lua, &key, &list[i].0, &held) {
                    return None;
                }
                i += 1;
            }
            proof {
                let views = entry_views(list@);
                assert forall|j: int| 0 <= j < views.len() implies is_key(
                    (#[trigger] views[j]).0,
                ) && storable(views[j].1) by {
                    assert(views[j] == (list[j].0@, list[j].1@));
                }
            }
        },
        _ => {},
    }
    Some(key)
}

/// Whether tables lie at most `depth` deep in one another in `value`: a
/// value that is no table does at any depth, a table at no depth below one,
/// and at a depth above if all its keys and values do one level less deep.
pub open spec fn nested_within(value: ScriptView, depth: nat) -> bool
    decreases depth,
{
    match value {
        ScriptView::Table(entries) => if depth == 0 {
            false
        } else {
            forall|i: int|
                0 <= i < entries.len() ==> nested_within(
                    (#[trigger] entries[i]).0,
                    (depth - 1) as nat,
                ) && nested_within(entries[i].1, (depth - 1) as nat)
        },
        _ => true,
    }
}

/// Takes a value with all that it holds out of the state. What lies deeper
/// than `depth` tables down comes out as `Other`, so that in the result
/// tables lie at most `depth` deep in one another, however they lie in
/// the state.
fn unload(lua: &rlua::Lua, key: &rlua::RegistryKey, depth: usize) -> (value: ScriptValue)
    ensures
        nested_within(value@, depth as nat),
    decreases depth,
{
    match scalar(lua, key) {
        ScriptValue::Table(_) => {
            if depth == 0 {
                return ScriptValue::Other;
            }
            let pairs = entries(lua, key);
            let mut list: Vec<(ScriptValue, ScriptValue)> = Vec::new();
            let mut i: usize = 0;
            while i < pairs.len()
                invariant
                    i <= pairs.len(),
                    depth > 0,
                    forall|j: int|
                        0 <= j < list.len() ==> nested_within(
                            (#[trigger] list[j]).0@,
                            (depth - 1) as nat,
                        ) && nested_within(list[j].1@, (depth - 1) as nat),
                decreases pairs.len() - i,
            {
                let name = unload(lua, &pairs[i].0, depth - 1);
                let held = unload(lua, &pairs[i].1, depth - 1);
                list.push((name, held));
                i += 1;
            }
            proof {
                let views = entry_views(list@);
                assert forall|j: int| 0 <= j < views.len() implies nested_within(
                    (#[trigger] views[j]).0,
                    (depth - 1) as nat,
                ) && nested_within(views[j].1, (depth - 1) as nat) by {
                    assert(views[j] == (list[j].0@, list[j].1@));
                }
            }
            ScriptValue::Table(list)
        },
        other => other,
    }
}

/// How deep tables may lie in one another in what a script hands over.
pub const NESTING_LIMIT: usize = 256;

/// What a formula comes to, given what the engine answered: `ran` is the
/// kind of the value that the formula gave, or the engine's description of
/// why it could not be run; `called` is the text that the call of a
/// function gave, if there was a call and it gave one; `described` is the
/// engine's description of a value that is no function.
///
/// A failure to run is kept with its description. A function that gave a
/// text has returned it; one that gave none, or could not be called, has
/// failed. Any other value is kept with its description.
pub open spec fn formula_outcome(
    ran: Result<Kind, String>,
    called: Option<String>,
    described: String,
) -> FormulaOutcome {
    match ran {
        Err(failure) => FormulaOutcome::Failure(failure),
        Ok(kind) => if kind == Kind::Function {
            match called {
                Some(text) => FormulaOutcome::Returned(text),
                None => FormulaOutcome::CallFailed,
            }
        } else {
            FormulaOutcome::Value(described)
        },
    }
}

/// Decides what a formula comes to, given what the engine answered.
pub fn decide_outcome(ran: Result<Kind, String>, called: Option<String>, described: String) -> (outcome:
    FormulaOutcome)
    ensures
        outcome == formula_outcome(ran, called, described),
{
    match ran {
        Err(failure) => FormulaOutcome::Failure(failure),
        Ok(kind) => if kind == Kind::Function {
            match called {
                Some(text) => FormulaOutcome::Returned(text),
                None => FormulaOutcome::CallFailed,
            }
        } else {
            FormulaOutcome::Value(described)
        },
    }
}

/// Runs a formula and, where it gives a function, calls the function with
/// `argument`. What the engine answers is the engine's to say, and
/// [`decide_outcome`] says what each answer comes to. A function is called
/// only with an argument that can go into the state, so none has returned
/// where the argument cannot.
pub(crate) fn run_formula(source: &str, argument: &ScriptValue) -> (outcome: FormulaOutcome)
    ensures
        outcome is Returned ==> storable(argument@),
{
    let lua = engine();
    match evaluate(&lua, source) {
        Err(failure) => decide_outcome(Err(failure), None, String::new()),
        Ok(key) => {
            let kind = scalar(&lua, &key).kind();
            if kind == Kind::Function {
                let called = match load(&lua, argument) {
                    Some(handle) => call_for_text(&lua, &key, &handle),
                    None => None,
                };
                decide_outcome(Ok(kind), called, String::new())
            } else {
                let described = describe(&lua, &key);
                decide_outcome(Ok(kind), None, described)
            }
        },
    }
}

/// Runs a script and takes out what it gives; on failure, the engine's
/// description of the failure. In what is taken out, tables lie no deeper
/// in one another than [`NESTING_LIMIT`].
pub(crate) fn run_script(source: &str) -> (value: Result<ScriptValue, String>)
    ensures
        match value {
            Ok(given) => nested_within(given@, NESTING_LIMIT as nat),
            Err(_) => true,
        },
{
    let lua = engine();
    match evaluate(&lua, source) {
        Err(text) => Err(text),
        Ok(key) => Ok(unload(&lua, &key, NESTING_LIMIT)),
    }
}

/// The text that an outcome puts behind the literal part of a node's text:
/// what the function returned; a fixed text where the call failed; the
/// description of a value that is no function, or of a failure to run.
pub fn text_of_outcome(outcome: FormulaOutcome) -> (text: String)
    ensures
        text@ == outcome_text(outcome),
{
    match outcome {
        FormulaOutcome::Returned(text) => text,
        FormulaOutcome::CallFailed => String::from_str("error function"),
        FormulaOutcome::Value(text) => text,
        FormulaOutcome::Failure(text) => text,
    }
}

/// The decimal notation of a natural number.
pub open spec fn natural_text(n: nat) -> Seq<char>
    decreases n,
{
    if n < 10 {
        seq![hex_digit(n as int)]
    } else {
        natural_text(n / 10) + seq![hex_digit((n % 10) as int)]
    }
}

/// The decimal notation of an integer.
pub open spec fn integer_text(i: int) -> Seq<char> {
    if i < 0 {
        seq!['-'] + natural_text((-i) as nat)
    } else {
        natural_text(i as nat)
    }
}

/// The character of a decimal digit.
fn digit_char(d: u64) -> (c: char)
    requires
        d < 10,
    ensures
        c == hex_digit(d as int),
{
    if d == 0 {
        '0'
    } else if d == 1 {
        '1'
    } else if d == 2 {
        '2'
    } else if d == 3 {
        '3'
    } else if d == 4 {
        '4'
    } else if d == 5 {
        '5'
    } else if d == 6 {
        '6'
    } else if d == 7 {
        '7'
    } else if d == 8 {
        '8'
    } else {
        '9'
    }
}

/// Appends the decimal notation of `n`.
fn push_natural(n: u64, out: &mut Vec<char>)
    ensures
        final(out)@ == old(out)@ + natural_text(n as nat),
    decreases n,
{
    if n < 10 {
        out.push(digit_char(n));
        assert(out@ =~= old(out)@ + natural_text(n as nat));
    } else {
        push_natural(n / 10, out);
        out.push(digit_char(n % 10));
        assert(out@ =~= old(out)@ + natural_text(n as nat));
    }
}

/// The decimal notation of an integer.
pub fn integer_to_text(i: i64) -> (text: String)
    ensures
        text@ == integer_text(i as int),
{
    let mut digits: Vec<char> = Vec::new();
    if i < 0 {
        digits.push('-');
        let magnitude: u64 = ((-(i + 1)) as u64) + 1;
        push_natural(magnitude, &mut digits);
    } else {
        push_natural(i as u64, &mut digits);
        assert(digits@ =~= natural_text(i as nat));
    }
    let text = text_of(&digits, 0, digits.len());
    assert(digits@.subrange(0, digits@.len() as int) =~= digits@);
    text
}

} // verus!
