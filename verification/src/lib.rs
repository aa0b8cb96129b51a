//! Waveform analysis for register-transfer-level debugging: signal selection,
//! value formatting, condition search, snapshots and hierarchy browsing over
//! decoded value-change traces.

use vstd::prelude::*;

pub mod text;
pub mod number;
pub mod order;
pub mod json;
pub mod json_text;
pub mod limbs;
pub mod format;
pub mod condition;
pub mod filter;
pub mod bitstr;
pub mod history;
pub mod handles;
pub mod signal;
pub mod replay;
pub mod backend;
pub mod model;
pub mod memory;
pub mod decl;
pub mod fold;
pub mod plugin;
pub mod collect;
pub mod seek;
pub mod sweep;
pub mod time;
pub mod cli;
pub mod invocations;
pub mod path;
pub mod select;
pub mod pairs;
pub mod report;
pub mod dump;
pub mod instants;
pub mod snapshot;
pub mod compare;
pub mod list;
pub mod info;
pub mod activity;
pub mod summary;
pub mod resolve;
pub mod clauses;
pub mod search;
pub mod search_rows;
pub mod hierarchy;
pub mod tree;
pub mod design;
pub mod endpoints;
pub mod trace;
pub mod commands;
pub mod batch;
pub mod windows;
pub mod comparisons;
pub mod subtrees;
pub mod readings;
pub mod matching;
pub mod moments;
pub mod listing;
pub mod flags;
pub mod answers;
pub mod tracing;
pub mod lines;
pub mod records;
pub mod words;
pub mod notices;

verus! {

/// The version of the program.
pub const VERSION: &'static str = "0.1.0";

} // verus!
