//! A reader library for the MDict dictionary container formats (`.mdx` text
//! dictionaries and `.mdd` binary-resource archives).
//!
//! The library parses the layered header / key-index / record-index layout,
//! decompresses and (where needed) decrypts the on-disk blocks, builds a
//! sorted keyword index, and answers exact, prefix and fuzzy queries over it.

pub mod error;
pub mod lzo;
pub mod mdd;
pub mod mdict_base;
pub mod mdx;
pub mod ripemd128;
pub mod shims;
pub mod types;
pub mod utils;
