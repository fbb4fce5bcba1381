//! Shell-history storage and interactive search: the event model, the log
//! encodings, the merge of many logs into one time-ordered stream, fuzzy
//! ranking of the pool, and the state machine of a search session.

pub mod event;

pub mod formats;

pub mod merge;
pub mod fuzzy;
pub mod index;
pub mod session;
pub mod sorting;
