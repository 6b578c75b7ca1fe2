//! Focus tracking in the terminal: the data behind the sessions a person records.

pub mod arith;
pub mod diagnostics;
pub mod text;
pub mod span;
pub mod id;
pub mod session;
pub mod timer;
pub mod store;
pub mod liveness;
pub mod calendar;
pub mod stats;
pub mod tree;
pub mod export;
pub mod document;
pub mod today;
pub mod screen;
pub mod prefs;
pub mod settings;
pub mod charts;
pub mod records;
pub mod readouts;
pub mod record_form;
pub mod recover;

use vstd::prelude::*;

verus! {

} // verus!
