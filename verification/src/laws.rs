//! What the operations promise their callers.
//!
//! Each law speaks of what calls give back: of a function `f`,
//! `call_ensures(f, arguments, r)` says that `f`, called with those arguments, may
//! return `r`. What a law says of `r` it says over the arguments and over what the
//! device answers, place by place, entry by entry or line by line.

pub mod areas;
pub mod asking;
pub mod coding;
pub mod commands;
pub mod differing;
pub mod documents;
pub mod merging;
pub mod metadata;
pub mod naming;
pub mod planning;
pub mod searching;
pub mod streams;
pub mod syncing;
pub mod terms;
pub mod wording;
