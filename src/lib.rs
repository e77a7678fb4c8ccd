//! Operating-system metrics in one platform-independent model: the value
//! types, the parsers for the line-oriented text that kernels expose, the
//! counter arithmetic behind CPU load and the derivations that let a
//! minimal backend answer the full set of questions.

pub mod data;
pub mod text;
pub mod linux;
pub mod common;
pub mod bsd;
pub mod openbsd;
pub mod network;
