use sludge::api::log::{
    bytes_eq_ignore_ascii_case, debug, error, info, log_message, parse_level, trace, warn, Level,
    LogError,
};

#[test]
fn log_level_names_ignore_ascii_case() {
    assert_eq!(parse_level("error").ok(), Some(Level::Error));
    assert_eq!(parse_level("WARN").ok(), Some(Level::Warn));
    assert_eq!(parse_level("Info").ok(), Some(Level::Info));
    assert_eq!(parse_level("dEbUg").ok(), Some(Level::Debug));
    assert_eq!(parse_level("trace").ok(), Some(Level::Trace));
    assert!(parse_level("verbose").is_err());
    assert!(parse_level("").is_err());
    assert!(parse_level("errors").is_err());
}

#[test]
fn log_unknown_level_error_names_the_level() {
    match parse_level("loud") {
        Err(LogError::UnknownLevel(level)) => assert_eq!(level, "loud"),
        Ok(_) => panic!("accepted an unknown level"),
    }
    let e = LogError::UnknownLevel("loud".to_string());
    assert_eq!(
        e.message(),
        "expected one of 'error', 'warn', 'info', 'debug', or 'trace'; found 'loud'"
    );
}

#[test]
fn log_message_defaults_the_target() {
    let record = log_message("INFO", None, "hello").ok().unwrap();
    assert_eq!(record.level, Level::Info);
    assert_eq!(record.target, "unknown lua script");
    assert_eq!(record.message, "hello");
    let record = log_message("warn", Some("my_script"), "careful").ok().unwrap();
    assert_eq!(record.level, Level::Warn);
    assert_eq!(record.target, "my_script");
    assert_eq!(record.message, "careful");
    assert!(log_message("shout", Some("x"), "y").is_err());
}

#[test]
fn log_level_functions_take_an_optional_target() {
    let r = trace("just a message".to_string(), None);
    assert_eq!(r.level, Level::Trace);
    assert_eq!(r.target, "unknown lua script");
    assert_eq!(r.message, "just a message");
    let r = debug("target".to_string(), Some("message".to_string()));
    assert_eq!(r.level, Level::Debug);
    assert_eq!(r.target, "target");
    assert_eq!(r.message, "message");
    assert_eq!(info("m".to_string(), None).level, Level::Info);
    assert_eq!(warn("m".to_string(), None).level, Level::Warn);
    assert_eq!(error("t".to_string(), Some("m".to_string())).target, "t");
}

#[test]
fn log_ascii_case_folding_leaves_other_bytes_alone() {
    assert!(bytes_eq_ignore_ascii_case(b"ABC", b"abc"));
    assert!(!bytes_eq_ignore_ascii_case(b"[", b"{"));
    assert!(!bytes_eq_ignore_ascii_case(b"ab", b"abc"));
    assert!(bytes_eq_ignore_ascii_case("\u{e9}".as_bytes(), "\u{e9}".as_bytes()));
    assert!(!bytes_eq_ignore_ascii_case("\u{e9}".as_bytes(), "\u{c9}".as_bytes()));
}

struct Quiet;

impl sludge::api::log::LogSink for Quiet {
    fn emit(_record: sludge::api::log::LogRecord) {}
}

#[test]
fn log_module_table_for_lua() {
    let lua = rlua::Lua::new();
    lua.context(|ctx| {
        let value = sludge::api::log::load::<Quiet>(ctx).unwrap();
        let table = match value {
            rlua::Value::Table(t) => t,
            _ => panic!("the log module is not a table"),
        };
        for name in ["log", "error", "warn", "info", "debug", "trace"] {
            let _: rlua::Function = table.get(name).unwrap();
        }
        let info: rlua::Function = table.get("info").unwrap();
        info.call::<_, ()>(("hello",)).unwrap();
        info.call::<_, ()>(("target", "hello")).unwrap();
        let log: rlua::Function = table.get("log").unwrap();
        log.call::<_, ()>(("WARN", "careful")).unwrap();
        assert!(log.call::<_, ()>(("loud", "x")).is_err());
        let params = ctx.create_table().unwrap();
        params.set("level", "debug").unwrap();
        params.set("target", "t").unwrap();
        log.call::<_, ()>((params, "m")).unwrap();
        assert!(log.call::<_, ()>((true, "m")).is_err());
    });
}
