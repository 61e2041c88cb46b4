//! The `log` module that Lua scripts see: the level names it accepts, the
//! record that each call produces, and the table of functions it exports.
use vstd::prelude::*;
use crate::api::lua::{
    coerce_to_text, conversion_error, create_table_from, entry_tags, lua_function_tag, table_function_tags,
    table_get, table_value, text_from_lua, value_as_table, value_table,
};
use rlua::{Context, Function, Value};
use vstd::string::StringExecFns;
use vstd::string::StringSliceAdditionalSpecFns;

verus! {

/// The severity of a log record, most severe first.
#[derive(Debug, Clone, Copy, PartialEq, Eq, Structural)]
pub enum Level {
    Error,
    Warn,
    Info,
    Debug,
    Trace,
}

/// What a logging call asks to be written.
#[derive(Debug, Clone)]
pub struct LogRecord {
    pub level: Level,
    pub target: String,
    pub message: String,
}

/// A logging call that was refused: the level string names no level.
#[derive(Debug, Clone)]
pub enum LogError {
    UnknownLevel(String),
}

/// `b` with an upper-case ASCII letter turned to lower case.
pub open spec fn ascii_lower(b: u8) -> u8 {
    if 65 <= b <= 90 {
        (b + 32) as u8
    } else {
        b
    }
}

/// The two byte strings are equal once ASCII letters are folded to lower case.
pub open spec fn eq_ignoring_ascii_case(a: Seq<u8>, b: Seq<u8>) -> bool {
    &&& a.len() == b.len()
    &&& forall|i: int| 0 <= i < a.len() ==> ascii_lower(#[trigger] a[i]) == ascii_lower(b[i])
}

/// The bytes of the name that Lua scripts use for `level`.
pub open spec fn level_name(level: Level) -> Seq<u8> {
    match level {
        Level::Error => seq![101u8, 114, 114, 111, 114],
        Level::Warn => seq![119u8, 97, 114, 110],
        Level::Info => seq![105u8, 110, 102, 111],
        Level::Debug => seq![100u8, 101, 98, 117, 103],
        Level::Trace => seq![116u8, 114, 97, 99, 101],
    }
}

/// The level that a script names with `s`, the name's case aside.
pub open spec fn level_named(s: Seq<u8>) -> Option<Level> {
    if eq_ignoring_ascii_case(s, level_name(Level::Error)) {
        Some(Level::Error)
    } else if eq_ignoring_ascii_case(s, level_name(Level::Warn)) {
        Some(Level::Warn)
    } else if eq_ignoring_ascii_case(s, level_name(Level::Info)) {
        Some(Level::Info)
    } else if eq_ignoring_ascii_case(s, level_name(Level::Debug)) {
        Some(Level::Debug)
    } else if eq_ignoring_ascii_case(s, level_name(Level::Trace)) {
        Some(Level::Trace)
    } else {
        None
    }
}

/// Law: the name of each level, written in any mix of ASCII case, names
/// that level.
pub proof fn lemma_level_name_parses(level: Level, s: Seq<u8>)
    requires
        eq_ignoring_ascii_case(s, level_name(level)),
    ensures
        level_named(s) == Some(level),
{
    assert(ascii_lower(s[0]) == ascii_lower(level_name(level)[0]));
    assert(level_name(level).len() == s.len());
}

/// The target of records whose call names none.
pub open spec fn default_target() -> Seq<char> {
    "unknown lua script"@
}

fn lower_byte(b: u8) -> (r: u8)
    ensures
        r == ascii_lower(b),
{
    if 65 <= b && b <= 90 {
        b + 32
    } else {
        b
    }
}

/// Whether `a` and `b` are equal once ASCII letters are folded to lower case.
pub fn bytes_eq_ignore_ascii_case(a: &[u8], b: &[u8]) -> (r: bool)
    ensures
        r == eq_ignoring_ascii_case(a@, b@),
{
    if a.len() != b.len() {
        return false;
    }
    let mut i: usize = 0;
    while i < a.len()
        invariant
            a@.len() == b@.len(),
            i <= a@.len(),
            forall|j: int| 0 <= j < i ==> ascii_lower(#[trigger] a@[j]) == ascii_lower(b@[j]),
        decreases a@.len() - i,
    {
        if lower_byte(a[i]) != lower_byte(b[i]) {
            return false;
        }
        i = i + 1;
    }
    true
}

fn name_of(level: Level) -> (r: Vec<u8>)
    ensures
        r@ == level_name(level),
{
    match level {
        Level::Error => vec![101u8, 114, 114, 111, 114],
        Level::Warn => vec![119u8, 97, 114, 110],
        Level::Info => vec![105u8, 110, 102, 111],
        Level::Debug => vec![100u8, 101, 98, 117, 103],
        Level::Trace => vec![116u8, 114, 97, 99, 101],
    }
}

/// The level that `level` names, in any mix of ASCII case; an error
/// holding `level` where it names none.
pub fn parse_level(level: &str) -> (r: Result<Level, LogError>)
    ensures
        level_named(level.spec_bytes()) matches Some(l) ==> r == Ok::<Level, LogError>(l),
        level_named(level.spec_bytes()) is None ==> (r matches Err(LogError::UnknownLevel(s))
            && s@ == level@),
{
    let bytes = level.as_bytes();
    if bytes_eq_ignore_ascii_case(bytes, name_of(Level::Error).as_slice()) {
        Ok(Level::Error)
    } else if bytes_eq_ignore_ascii_case(bytes, name_of(Level::Warn).as_slice()) {
        Ok(Level::Warn)
    } else if bytes_eq_ignore_ascii_case(bytes, name_of(Level::Info).as_slice()) {
        Ok(Level::Info)
    } else if bytes_eq_ignore_ascii_case(bytes, name_of(Level::Debug).as_slice()) {
        Ok(Level::Debug)
    } else if bytes_eq_ignore_ascii_case(bytes, name_of(Level::Trace).as_slice()) {
        Ok(Level::Trace)
    } else {
        Err(LogError::UnknownLevel(level.to_owned()))
    }
}

/// The target a call names, or the default target where it names none.
pub open spec fn target_or_default(target: Option<Seq<char>>) -> Seq<char> {
    match target {
        Some(t) => t,
        None => default_target(),
    }
}

/// The record of a call at `level` with the leading and trailing
/// arguments `first` and `last`: with both, the first names the target and
/// the last is the message; with one, it is the message.
pub open spec fn record_of(record: LogRecord, level: Level, first: Seq<char>, last: Option<Seq<char>>) -> bool {
    &&& record.level == level
    &&& match last {
        Some(message) => record.target@ == first && record.message@ == message,
        None => record.target@ == default_target() && record.message@ == first,
    }
}

/// The record of a call that names its level `level`, its target `target`
/// and its message `message`; the target defaults to "unknown lua script".
/// Refused with the level string where it names no level.
pub fn log_message(level: &str, target: Option<&str>, message: &str) -> (r: Result<LogRecord, LogError>)
    ensures
        level_named(level.spec_bytes()) matches Some(l) ==> (r matches Ok(record) && record.level == l
            && record.target@ == target_or_default(
            match target {
                Some(t) => Some(t@),
                None => None,
            },
        ) && record.message@ == message@),
        level_named(level.spec_bytes()) is None ==> (r matches Err(LogError::UnknownLevel(s))
            && s@ == level@),
{
    let level = parse_level(level)?;
    let target = match target {
        Some(t) => t.to_owned(),
        None => "unknown lua script".to_owned(),
    };
    Ok(LogRecord { level, target, message: message.to_owned() })
}

fn record_at(level: Level, first: String, last: Option<String>) -> (r: LogRecord)
    ensures
        record_of(
            r,
            level,
            first@,
            match last {
                Some(m) => Some(m@),
                None => None,
            },
        ),
{
    match last {
        Some(message) => LogRecord { level, target: first, message },
        None => LogRecord { level, target: "unknown lua script".to_owned(), message: first },
    }
}

/// A call of `trace(first)` or `trace(target, message)`.
pub fn trace(first: String, last: Option<String>) -> (r: LogRecord)
    ensures
        record_of(
            r,
            Level::Trace,
            first@,
            match last {
                Some(m) => Some(m@),
                None => None,
            },
        ),
{
    record_at(Level::Trace, first, last)
}

/// A call of `debug(first)` or `debug(target, message)`.
pub fn debug(first: String, last: Option<String>) -> (r: LogRecord)
    ensures
        record_of(
            r,
            Level::Debug,
            first@,
            match last {
                Some(m) => Some(m@),
                None => None,
            },
        ),
{
    record_at(Level::Debug, first, last)
}

/// A call of `info(first)` or `info(target, message)`.
pub fn info(first: String, last: Option<String>) -> (r: LogRecord)
    ensures
        record_of(
            r,
            Level::Info,
            first@,
            match last {
                Some(m) => Some(m@),
                None => None,
            },
        ),
{
    record_at(Level::Info, first, last)
}

/// A call of `warn(first)` or `warn(target, message)`.
pub fn warn(first: String, last: Option<String>) -> (r: LogRecord)
    ensures
        record_of(
            r,
            Level::Warn,
            first@,
            match last {
                Some(m) => Some(m@),
                None => None,
            },
        ),
{
    record_at(Level::Warn, first, last)
}

/// A call of `error(first)` or `error(target, message)`.
pub fn error(first: String, last: Option<String>) -> (r: LogRecord)
    ensures
        record_of(
            r,
            Level::Error,
            first@,
            match last {
                Some(m) => Some(m@),
                None => None,
            },
        ),
{
    record_at(Level::Error, first, last)
}

/// The text of an error for the level string `level`.
pub open spec fn unknown_level_text(level: Seq<char>) -> Seq<char> {
    "expected one of 'error', 'warn', 'info', 'debug', or 'trace'; found '"@ + level + "'"@
}

/// The text of an unknown-level error around `level`.
fn format_unknown_level(level: &str) -> (r: String)
    ensures
        r@ == unknown_level_text(level@),
{
    let head = String::from_str("expected one of 'error', 'warn', 'info', 'debug', or 'trace'; found '");
    let with_level = head.concat(level);
    with_level.concat("'")
}

impl LogError {
    /// The text of the error.
    pub fn message(&self) -> (r: String)
        ensures
            r@ == match self {
                LogError::UnknownLevel(level) => unknown_level_text(level@),
            },
    {
        match self {
            LogError::UnknownLevel(level) => format_unknown_level(level.as_str()),
        }
    }
}

/// Where the records of Lua's logging calls go.
pub trait LogSink {
    /// Writes `record`.
    fn emit(record: LogRecord);
}

/// `log(level, message)` from Lua: `level` is a level name, or a table with
/// the fields `level` and, optionally, `target`.
fn lua_log<'lua, S: LogSink>(lua: Context<'lua>, args: (Value<'lua>, Value<'lua>)) -> Result<(), rlua::Error> {
    let (level, message) = args;
    let message = text_from_lua(lua, message)?;
    let (level, target): (String, Option<String>) = match value_as_table(level) {
        Ok(table) => {
            let level: String = table_get(&table, "level")?;
            let target: Option<String> = table_get(&table, "target")?;
            (level, target)
        },
        Err(other) => match coerce_to_text(lua, other)? {
            Some(level) => (level, None),
            None => {
                return Err(
                    conversion_error(
                        "lua value",
                        "log level or logging parameter table",
                        "expected a logging level string or a table describing logging level and/or logging target".to_owned(),
                    ),
                );
            },
        },
    };
    let target_str: Option<&str> = match &target {
        Some(t) => Some(t.as_str()),
        None => None,
    };
    match log_message(level.as_str(), target_str, message.as_str()) {
        Ok(record) => {
            S::emit(record);
            Ok(())
        },
        Err(e) => Err(conversion_error("string", "log level", e.message())),
    }
}

fn lua_trace<'lua, S: LogSink>(_lua: Context<'lua>, args: (String, Option<String>)) -> (r: Result<(), rlua::Error>)
    ensures
        r is Ok,
{
    S::emit(trace(args.0, args.1));
    Ok(())
}

fn lua_debug<'lua, S: LogSink>(_lua: Context<'lua>, args: (String, Option<String>)) -> (r: Result<(), rlua::Error>)
    ensures
        r is Ok,
{
    S::emit(debug(args.0, args.1));
    Ok(())
}

fn lua_info<'lua, S: LogSink>(_lua: Context<'lua>, args: (String, Option<String>)) -> (r: Result<(), rlua::Error>)
    ensures
        r is Ok,
{
    S::emit(info(args.0, args.1));
    Ok(())
}

fn lua_warn<'lua, S: LogSink>(_lua: Context<'lua>, args: (String, Option<String>)) -> (r: Result<(), rlua::Error>)
    ensures
        r is Ok,
{
    S::emit(warn(args.0, args.1));
    Ok(())
}

fn lua_error<'lua, S: LogSink>(_lua: Context<'lua>, args: (String, Option<String>)) -> (r: Result<(), rlua::Error>)
    ensures
        r is Ok,
{
    S::emit(error(args.0, args.1));
    Ok(())
}

/// The tag of each function of the `log` module, by its name: `log` 0,
/// `error` 1, `warn` 2, `info` 3, `debug` 4, `trace` 5.
pub open spec fn log_module_tags() -> Map<Seq<char>, u8> {
    map!["log"@ => 0u8, "error"@ => 1u8, "warn"@ => 2u8, "info"@ => 3u8, "debug"@ => 4u8, "trace"@ => 5u8]
}

/// `Context::create_function` on `lua_log`: a Lua function that calls it,
/// tagged 0. It fails where Lua cannot allocate.
#[verifier::external_body]
fn create_log_function<'lua, S: LogSink + 'static>(lua: Context<'lua>) -> (r: Result<Function<'lua>, rlua::Error>)
    ensures
        r is Ok ==> lua_function_tag(r->Ok_0) == 0u8,
{
    lua.create_function(lua_log::<S>)
}

/// `Context::create_function` on `lua_error`: a Lua function that calls it,
/// tagged 1. It fails where Lua cannot allocate.
#[verifier::external_body]
fn create_error_function<'lua, S: LogSink + 'static>(lua: Context<'lua>) -> (r: Result<Function<'lua>, rlua::Error>)
    ensures
        r is Ok ==> lua_function_tag(r->Ok_0) == 1u8,
{
    lua.create_function(lua_error::<S>)
}

/// `Context::create_function` on `lua_warn`: a Lua function that calls it,
/// tagged 2. It fails where Lua cannot allocate.
#[verifier::external_body]
fn create_warn_function<'lua, S: LogSink + 'static>(lua: Context<'lua>) -> (r: Result<Function<'lua>, rlua::Error>)
    ensures
        r is Ok ==> lua_function_tag(r->Ok_0) == 2u8,
{
    lua.create_function(lua_warn::<S>)
}

/// `Context::create_function` on `lua_info`: a Lua function that calls it,
/// tagged 3. It fails where Lua cannot allocate.
#[verifier::external_body]
fn create_info_function<'lua, S: LogSink + 'static>(lua: Context<'lua>) -> (r: Result<Function<'lua>, rlua::Error>)
    ensures
        r is Ok ==> lua_function_tag(r->Ok_0) == 3u8,
{
    lua.create_function(lua_info::<S>)
}

/// `Context::create_function` on `lua_debug`: a Lua function that calls it,
/// tagged 4. It fails where Lua cannot allocate.
#[verifier::external_body]
fn create_debug_function<'lua, S: LogSink + 'static>(lua: Context<'lua>) -> (r: Result<Function<'lua>, rlua::Error>)
    ensures
        r is Ok ==> lua_function_tag(r->Ok_0) == 4u8,
{
    lua.create_function(lua_debug::<S>)
}

/// `Context::create_function` on `lua_trace`: a Lua function that calls it,
/// tagged 5. It fails where Lua cannot allocate.
#[verifier::external_body]
fn create_trace_function<'lua, S: LogSink + 'static>(lua: Context<'lua>) -> (r: Result<Function<'lua>, rlua::Error>)
    ensures
        r is Ok ==> lua_function_tag(r->Ok_0) == 5u8,
{
    lua.create_function(lua_trace::<S>)
}

/// The `log` module's table for Lua: the functions `log`, `error`, `warn`,
/// `info`, `debug` and `trace`, each calling its own handler, whose records
/// go to `S`. The table is made by the Lua state, which may fail to make
/// it; a table that comes back holds under each name the function made from
/// that name's handler.
pub fn load<'lua, S: LogSink + 'static>(lua: Context<'lua>) -> (r: Result<Value<'lua>, rlua::Error>)
    ensures
        r is Ok ==> value_table(r->Ok_0) is Some && table_function_tags(value_table(r->Ok_0)->0)
            == log_module_tags(),
{
    let log = create_log_function::<S>(lua)?;
    let error = create_error_function::<S>(lua)?;
    let warn = create_warn_function::<S>(lua)?;
    let info = create_info_function::<S>(lua)?;
    let debug = create_debug_function::<S>(lua)?;
    let trace = create_trace_function::<S>(lua)?;
    let entries = vec![
        ("log", log),
        ("error", error),
        ("warn", warn),
        ("info", info),
        ("debug", debug),
        ("trace", trace),
    ];
    proof {
        reveal_with_fuel(entry_tags, 7);
        assert(entry_tags(entries@) =~= log_module_tags());
    }
    let table = create_table_from(lua, entries)?;
    Ok(table_value(table))
}

} // verus!
