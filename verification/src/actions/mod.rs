//! What the application does with the stored records.
use vstd::prelude::*;

pub mod class;
pub mod homework;
pub mod user;

verus! {

/// `diesel::result::Error`, the error of a database operation, carried
/// through unread.
#[verifier::external_type_specification]
#[verifier::external_body]
pub struct ExDieselError(diesel::result::Error);

} // verus!
