//! A memo vault: memos classified into categories, searched, grouped and
//! summarised, with the rules of the vault proved by Verus.

pub mod models;
pub mod text;
pub mod format;
pub mod highlight;
pub mod memos;
pub mod groups;
pub mod storage;
pub mod categories;
pub mod display;
pub mod store;
pub mod worker;
