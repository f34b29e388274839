//! The verified core of `guise`: the devtools record store, the element-tree
//! recorder and the panels' data logic, with their contracts.

pub mod about;
pub mod binary64;
pub mod ai;
pub mod anim;
pub mod devtools;
pub mod text;
pub mod time;
