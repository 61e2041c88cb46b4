//! The Lua-facing modules of the engine.
pub mod log;
pub mod lua;
