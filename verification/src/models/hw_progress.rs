//! A user's progress on a homework.
use vstd::prelude::*;

verus! {

/// Progress of one user on one homework. `delta` is progress made on
/// `delta_date` that is not yet counted in `progress`.
#[derive(Debug)]
pub struct HWProgressModel {
    pub homework_id: i32,
    pub user_id: i32,
    pub progress: i16,
    pub delta: i16,
    /// Day number.
    pub delta_date: i32,
    pub weight: i32,
    /// Day number.
    pub last_repeat_reset: Option<i32>,
}

/// A progress change asked for: `amount` more done on homework `id`, counted
/// as today's delta when `use_delta` is set.
pub struct ChangeProgressModel {
    pub id: i32,
    pub amount: i16,
    pub use_delta: bool,
}

} // verus!
