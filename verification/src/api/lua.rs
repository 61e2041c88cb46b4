//! The parts of the Lua runtime (`rlua`) that the script modules use: its
//! context, values, tables, functions and errors, carried through as opaque
//! handles, and the calls that make and read them.
use rlua::{Context, FromLua, Function, Table, Value};
use vstd::prelude::*;

verus! {

/// A handle on a running Lua state.
#[verifier::external_type_specification]
#[verifier::external_body]
pub struct ExContext<'lua>(rlua::Context<'lua>);

/// A Lua value.
#[verifier::external_type_specification]
#[verifier::external_body]
pub struct ExValue<'lua>(rlua::Value<'lua>);

/// A Lua table.
#[verifier::external_type_specification]
#[verifier::external_body]
pub struct ExTable<'lua>(rlua::Table<'lua>);

/// A Lua function.
#[verifier::external_type_specification]
#[verifier::external_body]
pub struct ExFunction<'lua>(rlua::Function<'lua>);

/// An error raised by the Lua runtime or by a Rust function called from Lua.
#[verifier::external_type_specification]
#[verifier::external_body]
pub struct ExError(rlua::Error);

/// Which function of a script module a Lua function was made from, as the
/// module numbers its functions.
pub uninterp spec fn lua_function_tag(f: Function<'_>) -> u8;

/// For each string key of a Lua table that holds a function, the tag of
/// that function.
pub uninterp spec fn table_function_tags(t: Table<'_>) -> Map<Seq<char>, u8>;

/// The tags under the names of `entries`, a later entry replacing an
/// earlier one of the same name.
pub open spec fn entry_tags<'lua>(entries: Seq<(&'static str, Function<'lua>)>) -> Map<Seq<char>, u8>
    decreases entries.len(),
{
    if entries.len() == 0 {
        Map::empty()
    } else {
        entry_tags(entries.drop_last()).insert(entries.last().0@, lua_function_tag(entries.last().1))
    }
}

/// The table that a Lua value is, if it is one.
pub uninterp spec fn value_table(v: Value<'_>) -> Option<Table<'_>>;

/// `Context::create_table_from`: a new Lua table that maps each name of
/// `entries` to its function. It fails where the Lua state cannot allocate,
/// so success is not stated; what is stated is that a table that comes back
/// holds under exactly the names of `entries` the function given with each
/// name, a later pair replacing an earlier one of the same name (the source
/// sets each pair in order with `rawset` on a fresh table, and a function is
/// never nil).
#[verifier::external_body]
pub(crate) fn create_table_from<'lua>(
    lua: Context<'lua>,
    entries: Vec<(&'static str, Function<'lua>)>,
) -> (r: Result<Table<'lua>, rlua::Error>)
    ensures
        r is Ok ==> table_function_tags(r->Ok_0) == entry_tags(entries@),
{
    lua.create_table_from(entries)
}

/// The Lua value that is the table `table` (`Value::Table`).
#[verifier::external_body]
pub(crate) fn table_value<'lua>(table: Table<'lua>) -> (r: Value<'lua>)
    ensures
        value_table(r) == Some(table),
{
    Value::Table(table)
}

/// The table that `value` is, or `value` itself where it is no table.
#[verifier::external_body]
pub(crate) fn value_as_table<'lua>(value: Value<'lua>) -> (r: Result<Table<'lua>, Value<'lua>>)
    ensures
        match r {
            Ok(t) => value_table(value) == Some(t),
            Err(v) => value_table(value) is None && v == value,
        },
{
    match value {
        Value::Table(table) => Ok(table),
        other => Err(other),
    }
}

/// `Table::get`: the entry of `table` under `key`, converted to `V`. It
/// depends on what Lua put in the table, so nothing is stated of it.
#[verifier::external_body]
pub(crate) fn table_get<'lua, V: FromLua<'lua>>(table: &Table<'lua>, key: &'static str) -> Result<
    V,
    rlua::Error,
> {
    table.get(key)
}

/// `Context::coerce_string`, then `String::to_str`: the text of `value`
/// where Lua can turn it into a string (strings and numbers), `None` where
/// it cannot; an error where that string is not UTF-8. It depends on the
/// Lua state, so nothing is stated of it.
#[verifier::external_body]
pub(crate) fn coerce_to_text<'lua>(lua: Context<'lua>, value: Value<'lua>) -> Result<
    Option<String>,
    rlua::Error,
> {
    lua.coerce_string(value)?.map(|s| s.to_str().map(|t| t.to_owned())).transpose()
}

/// `String::from_lua`: the text of `value` where it is a string or a number
/// and UTF-8, else a conversion error. It depends on the Lua state, so
/// nothing is stated of it.
#[verifier::external_body]
pub(crate) fn text_from_lua<'lua>(lua: Context<'lua>, value: Value<'lua>) -> Result<String, rlua::Error> {
    String::from_lua(value, lua)
}

/// `Error::FromLuaConversionError`: the error that a conversion from a Lua
/// value of kind `from` to `to` failed, with `message`. The error is opaque,
/// so nothing is stated of it.
#[verifier::external_body]
pub(crate) fn conversion_error(from: &'static str, to: &'static str, message: String) -> rlua::Error {
    rlua::Error::FromLuaConversionError { from, to, message: Some(message) }
}

} // verus!
