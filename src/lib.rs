//! A page server core: a redo engine, a versioned page repository, the
//! decision logic of the WAL receiver and the page service wire protocol.
use vstd::prelude::*;

pub mod config;
pub mod history;
pub mod laws;
pub mod page_service;
pub mod receiver;
pub mod redo;
pub mod repository;
pub mod wire;

verus! {

} // verus!
