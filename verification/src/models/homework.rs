//! Homework as the planner sees it.
use std::cmp::Ordering;
use vstd::prelude::*;
use vstd::std_specs::cmp::PartialOrdSpecImpl;

verus! {

/// When a homework is due: on one date (a day number), or every week on a
/// weekday (Monday being 0).
///
/// Repeating homework orders before dated homework; within each kind the
/// weekdays, or the dates, order as numbers.
#[derive(Clone, Copy, Debug, PartialEq, Eq, Ord, Structural)]
pub enum DueDate {
    Repeat(i32),
    Date(i32),
}

/// How two numbers compare.
pub open spec fn order_of(a: i32, b: i32) -> Ordering {
    if a < b {
        Ordering::Less
    } else if a == b {
        Ordering::Equal
    } else {
        Ordering::Greater
    }
}

/// How two due dates compare: repeating before dated, then by number.
pub open spec fn due_order(a: DueDate, b: DueDate) -> Ordering {
    match (a, b) {
        (DueDate::Repeat(_), DueDate::Date(_)) => Ordering::Less,
        (DueDate::Date(_), DueDate::Repeat(_)) => Ordering::Greater,
        (DueDate::Repeat(x), DueDate::Repeat(y)) => order_of(x, y),
        (DueDate::Date(x), DueDate::Date(y)) => order_of(x, y),
    }
}

/// Due dates are totally ordered: two compare equal only when they are the
/// same, comparing the other way round gives the reverse answer, and the
/// order is transitive.
pub proof fn due_order_is_total(a: DueDate, b: DueDate, c: DueDate)
    ensures
        due_order(a, b) == Ordering::Equal <==> a == b,
        due_order(a, b) == Ordering::Less <==> due_order(b, a) == Ordering::Greater,
        due_order(a, b) == Ordering::Less && due_order(b, c) == Ordering::Less ==> due_order(a, c)
            == Ordering::Less,
{
}

fn compare_numbers(a: i32, b: i32) -> (r: Ordering)
    ensures
        r == order_of(a, b),
{
    if a < b {
        Ordering::Less
    } else if a == b {
        Ordering::Equal
    } else {
        Ordering::Greater
    }
}

impl PartialOrd for DueDate {
    fn partial_cmp(&self, other: &Self) -> (r: Option<Ordering>) {
        match (self, other) {
            (DueDate::Repeat(_), DueDate::Date(_)) => Some(Ordering::Less),
            (DueDate::Date(_), DueDate::Repeat(_)) => Some(Ordering::Greater),
            (DueDate::Repeat(x), DueDate::Repeat(y)) => Some(compare_numbers(*x, *y)),
            (DueDate::Date(x), DueDate::Date(y)) => Some(compare_numbers(*x, *y)),
        }
    }
}

impl PartialOrdSpecImpl for DueDate {
    open spec fn obeys_partial_cmp_spec() -> bool {
        true
    }

    open spec fn partial_cmp_spec(&self, other: &DueDate) -> Option<Ordering> {
        Some(due_order(*self, *other))
    }
}

/// The homework form: a due date or a weekday, what to do, how much, and
/// whether it is for the user alone or for the whole class.
pub struct AddHomeworkModel {
    /// Day number.
    pub due_date: Option<i32>,
    pub detail: String,
    pub amount: i16,
    pub weekday: Option<i32>,
    pub for_self: bool,
}

/// A new weight for a homework.
pub struct SetWeightModel {
    pub id: i32,
    pub weight: i32,
}

/// A homework row to insert.
pub struct NewHomeworkModel {
    /// Day number.
    pub due_date: Option<i32>,
    pub day_of_week: Option<i32>,
    pub detail: String,
    pub amount: i16,
    pub class_id: Option<i32>,
    pub user_id: Option<i32>,
}

/// A homework row.
pub struct DbHomeworkModel {
    pub id: i32,
    /// Day number.
    pub due_date: Option<i32>,
    pub detail: String,
    pub amount: i16,
    pub day_of_week: Option<i32>,
    pub class_id: Option<i32>,
    pub user_id: Option<i32>,
}

/// A homework row joined with one user's progress row.
pub struct ProgressHomeworkModel {
    pub id: i32,
    /// Day number.
    pub due_date: Option<i32>,
    pub detail: String,
    pub amount: i16,
    pub day_of_week: Option<i32>,
    pub progress: i16,
    pub delta_progress: i16,
    /// Day number.
    pub delta_date: i32,
    pub weight: i32,
    /// Day number.
    pub last_repeat_reset: Option<i32>,
}

/// A homework of a user together with the user's progress on it.
#[derive(Clone, Debug)]
pub struct UserHomework {
    pub due_date: DueDate,
    pub amount: i16,
    pub progress: i16,
    pub detail: String,
    /// Id of the homework's row.
    pub db_id: i32,
    pub delta: i16,
    pub weight: i32,
}

/// A [`UserHomework`] with its text as a sequence of characters.
pub struct HomeworkView {
    pub due_date: DueDate,
    pub amount: i16,
    pub progress: i16,
    pub detail: Seq<char>,
    pub db_id: i32,
    pub delta: i16,
    pub weight: i32,
}

impl View for UserHomework {
    type V = HomeworkView;

    open spec fn view(&self) -> HomeworkView {
        HomeworkView {
            due_date: self.due_date,
            amount: self.amount,
            progress: self.progress,
            detail: self.detail@,
            db_id: self.db_id,
            delta: self.delta,
            weight: self.weight,
        }
    }
}

impl UserHomework {
    /// The homework of a joined row: dated when the row has a due date,
    /// otherwise repeating on the row's weekday.
    pub fn from(m: ProgressHomeworkModel) -> (r: UserHomework)
        requires
            m.due_date is Some || m.day_of_week is Some,
        ensures
            r.amount == m.amount,
            r.db_id == m.id,
            r.detail == m.detail,
            r.progress == m.progress,
            r.delta == m.delta_progress,
            r.weight == m.weight,
            r.due_date == match m.due_date {
                Some(d) => DueDate::Date(d),
                None => DueDate::Repeat(m.day_of_week.unwrap()),
            },
    {
        let due_date = match m.due_date {
            Some(d) => DueDate::Date(d),
            None => DueDate::Repeat(m.day_of_week.unwrap()),
        };
        UserHomework {
            amount: m.amount,
            db_id: m.id,
            detail: m.detail,
            progress: m.progress,
            delta: m.delta_progress,
            due_date,
            weight: m.weight,
        }
    }

    /// A copy of this homework.
    pub fn duplicate(&self) -> (r: UserHomework)
        ensures
            r@ == self@,
    {
        UserHomework {
            due_date: self.due_date,
            amount: self.amount,
            progress: self.progress,
            detail: self.detail.clone(),
            db_id: self.db_id,
            delta: self.delta,
            weight: self.weight,
        }
    }
}

/// Part of a homework to be done on one day.
#[derive(Clone, Debug)]
pub struct DailyHomework {
    pub hw: UserHomework,
    pub amount: i32,
}

/// A [`DailyHomework`] by its homework's view and its amount.
pub struct DailyView {
    pub hw: HomeworkView,
    pub amount: int,
}

impl View for DailyHomework {
    type V = DailyView;

    open spec fn view(&self) -> DailyView {
        DailyView { hw: self.hw@, amount: self.amount as int }
    }
}

} // verus!
