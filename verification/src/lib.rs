//! Core of an interactive command shell: commands are organized in a tree,
//! built from a flat declarative table, and looked up by space-separated
//! path segments. The tree builder, the path resolver, the suggester, the
//! dispatcher and the line-editing state machine live here; terminal I/O
//! does not.
pub mod command;
pub mod laws;
pub mod shell;
pub mod tree;
