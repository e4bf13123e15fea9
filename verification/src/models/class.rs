//! Classes.
use vstd::prelude::*;

verus! {

/// A class row to insert.
pub struct NewClass {
    pub name: String,
}

/// A class row.
pub struct DbClassModel {
    pub id: i32,
    pub name: String,
    pub blackboard: String,
}

} // verus!
