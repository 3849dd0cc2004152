//! A small proof kernel for a term-based logical calculus: terms, binder
//! normalization, positions inside rules, polarity wrappers and the
//! inference rules that derive new rules from old ones.

pub mod term;
pub mod cell;
pub mod error;
pub mod gen;
pub mod misc;
pub mod normalize;
pub mod navi;
pub mod wrapper;
pub mod db;
pub mod reason;
pub mod parse;
pub mod readback;
