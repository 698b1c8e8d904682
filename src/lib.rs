//! Route search over a directed graph of menu states: shortest paths from one origin to
//! several goals in one search, and the cheapest order in which to visit a set of goals.
use vstd::prelude::*;

pub mod ordering;
pub mod path_tracker;
pub mod graph;
pub mod walk;
pub mod search;
pub mod tour;
pub mod route;
pub mod directions;
