//! Drawing support: the character sets that font atlases are built from.
pub mod text;
