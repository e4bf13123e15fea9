//! Classes: finding one by name and keeping its blackboard.
use crate::models::class::{DbClassModel, NewClass};
use vstd::prelude::*;
use vstd::std_specs::convert::FromSpecImpl;

verus! {

/// Why a class action failed.
#[derive(Debug)]
pub enum ClassApiError {
    DieselError(diesel::result::Error),
}

impl From<diesel::result::Error> for ClassApiError {
    fn from(e: diesel::result::Error) -> (r: Self) {
        ClassApiError::DieselError(e)
    }
}

impl FromSpecImpl<diesel::result::Error> for ClassApiError {
    open spec fn obeys_from_spec() -> bool {
        true
    }

    open spec fn from_spec(e: diesel::result::Error) -> ClassApiError {
        ClassApiError::DieselError(e)
    }
}

/// What to do for a class name: use the class found under it, or insert a
/// new class of that name.
pub enum ClassLookup {
    Found(DbClassModel),
    Insert(NewClass),
}

/// The class of name `get_name`: `found` is the class stored under that
/// name, if there is one; when there is none, a new class of that name is
/// to be inserted.
pub fn get_or_make_class(get_name: &str, found: Option<DbClassModel>) -> (r: ClassLookup)
    ensures
        found matches Some(c) ==> r == ClassLookup::Found(c),
        found is None ==> (r matches ClassLookup::Insert(n) && n.name@ == get_name@),
{
    match found {
        Some(model) => ClassLookup::Found(model),
        None => ClassLookup::Insert(NewClass { name: String::from_str(get_name) }),
    }
}

/// The class with its blackboard replaced by `new_blackboard`.
pub fn set_blackboard(class: DbClassModel, new_blackboard: String) -> (r: DbClassModel)
    ensures
        r.id == class.id,
        r.name == class.name,
        r.blackboard == new_blackboard,
{
    let mut class = class;
    class.blackboard = new_blackboard;
    class
}

} // verus!
