//! Verified core of a tool for the game files of iDOLM@STER Stella Stage:
//! file encryption and decryption, the `jxb`/`jxk` binary formats,
//! xml trees, and csv text tables.

pub mod crypt;
pub mod encode;
pub mod format;
pub mod inject;
pub mod csv;
pub mod jxb;
pub mod jxk;
pub mod node;
pub mod parse;
pub mod prng;
pub mod reread;
pub mod built;
pub mod strset;
pub mod table;
pub mod text;
pub mod tree;
pub mod xml;
