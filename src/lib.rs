//! Symbol table and relocation-target resolution for object files.
//!
//! The table owns an arena of symbols and keeps three indices over it (by
//! address, by section and address, by name); every query and mutation is
//! specified against the arena alone.

pub mod flags;
pub mod names;
pub mod symbol;
mod index;
mod name_index;
pub mod table;
pub mod laws;
