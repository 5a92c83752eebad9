//! Engine events.
use vstd::prelude::*;
use std::collections::HashMap;

verus! {

/// One event the engine reports.
#[allow(non_snake_case)]
#[derive(Debug, Clone)]
pub struct Event {
    pub Type: String,
    pub Action: String,
    pub status: String,
    pub id: String,
    pub Actor: Actor,
    pub scope: String,
    pub time: String,
    pub timeNano: Option<String>,
    pub Experimental: Option<bool>,
}

/// The object an event is about.
#[allow(non_snake_case)]
#[derive(Debug, Clone)]
pub struct Actor {
    pub ID: String,
    pub Attributes: HashMap<String, String>,
}

} // verus!
