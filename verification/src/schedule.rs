//! The daily plan: which homework to do on each day from today on.
//!
//! Every evaluation step follows the planner's `i16`/`i32` arithmetic and the
//! `chrono` date arithmetic: where that evaluation would overflow, index out
//! of bounds or leave `chrono`'s range, there is no plan (`None`).
use crate::dates::{
    calendar_month, calendar_year, date_text, first_weekday_in_month, first_weekday_of_month,
    format_date, month_of, now, valid_day, weekday_from_i32, weekday_number, weekday_of, year_of, MAX_DAY,
    MIN_DAY,
};
use crate::distribute::{
    distribute_succeeds, lemma_load_sum_le_total, plan_in_range, MAX_TOTAL, MAX_WEIGHT,
    level_window, max_share, partial_load, search, shares_ok, spread, scale_tail, tdiv, tmod, weight_sum_fits, window_fits, window_len, window_load, window_ok, day_step, distribute_from, fits_i32,
    distribute, distribute_keeps_total, distribute_keeps_weights, distribute_on_time, distributed, ints, lemma_load_sum_front,
    lemma_load_sum_nonneg, lemma_load_sum_split, lemma_weight_sum_first, load_sum, weight_sum, load_sum_fits, loads_have_time, loads_nonneg, on_time, sum_loads, total_load, weights_nonneg,
};
use crate::models::homework::{DailyHomework, DailyView, DueDate, HomeworkView, UserHomework};
use vstd::math::{max, min};
use vstd::prelude::*;

verus! {

/// `x` lies in the range of `i16`.
pub open spec fn fits_i16(x: int) -> bool {
    i16::MIN <= x <= i16::MAX
}

/// A homework placed on the day it has to be finished by: `due` counts the
/// days from tomorrow (so homework due tomorrow has `due == 0`).
pub struct PlannedView {
    pub hw: HomeworkView,
    pub due: int,
}

/// The number of days between two dates, whichever comes first.
pub open spec fn days_apart(a: int, b: int) -> int {
    if a >= b {
        a - b
    } else {
        b - a
    }
}

/// How much of a homework is still left.
pub open spec fn left_of(h: HomeworkView) -> int {
    h.amount - h.progress
}

/// The latest date among the dated homework, if there is any.
pub open spec fn latest_date(all: Seq<HomeworkView>) -> Option<int>
    decreases all.len(),
{
    if all.len() == 0 {
        None
    } else {
        let rest = latest_date(all.drop_last());
        match all.last().due_date {
            DueDate::Date(d) => match rest {
                None => Some(d as int),
                Some(m) => Some(max(m, d as int)),
            },
            DueDate::Repeat(_) => rest,
        }
    }
}

/// The last date the plan has to reach: the latest dated homework, or
/// tomorrow when there is none.
pub open spec fn horizon_date(all: Seq<HomeworkView>, today: int) -> int {
    match latest_date(all) {
        Some(d) => d,
        None => today + 1,
    }
}

/// Moves `date` on by whole weeks until it is not before `today`.
pub open spec fn catch_up(date: int, today: int) -> Option<int>
    decreases (if date >= today { 0 } else { today - date }),
{
    if date >= today {
        Some(date)
    } else if date + 7 > MAX_DAY {
        None
    } else {
        catch_up(date + 7, today)
    }
}

/// The text of a repeating homework's occurrence on `date`:
/// `detail (YYYY-MM-DD)`.
pub open spec fn occurrence_detail(detail: Seq<char>, date: int) -> Seq<char> {
    detail + " ("@ + date_text(date) + ")"@
}

/// The occurrence of repeating homework `m` on `date`, with `progress` done.
pub open spec fn occurrence(m: HomeworkView, date: int, progress: int, today: int) -> PlannedView {
    PlannedView {
        hw: HomeworkView {
            due_date: m.due_date,
            amount: m.amount,
            progress: progress as i16,
            detail: occurrence_detail(m.detail, date),
            db_id: m.db_id,
            delta: m.delta,
            weight: m.weight,
        },
        due: date - today - 1,
    }
}

/// The weekly occurrences of repeating homework `m` from `date` on, while
/// they come closer to the horizon `last` than the one before (`prev` being
/// the distance of the one before). Progress already made uses up whole
/// occurrences first; the first one it does not cover keeps the rest of it.
/// Also gives the furthest occurrence, in days from today (`-1` if none).
pub open spec fn occurrences(
    m: HomeworkView,
    date: int,
    last: int,
    progress: int,
    today: int,
    prev: int,
) -> Option<(Seq<PlannedView>, int)>
    decreases prev,
{
    let gap = days_apart(last, date);
    if !(prev > gap) {
        Some((seq![], -1))
    } else {
        let covered = progress >= m.amount;
        let next_progress = if covered {
            progress - m.amount
        } else {
            0
        };
        let here = if covered {
            seq![]
        } else {
            seq![occurrence(m, date, progress, today)]
        };
        if !fits_i16(next_progress) || date + 7 > MAX_DAY {
            None
        } else {
            match occurrences(m, date + 7, last, next_progress, today, gap) {
                None => None,
                Some((rest, furthest)) => Some((here + rest, max(date - today, furthest))),
            }
        }
    }
}

/// The planned items of one homework, and its furthest occurrence in days
/// from today (`-1` if it has none).
pub open spec fn expand_item(m: HomeworkView, today: int, last: int) -> Option<
    (Seq<PlannedView>, int),
> {
    match m.due_date {
        DueDate::Repeat(dow) => if !(0 <= dow < 7) {
            None
        } else {
            let first = first_weekday_in_month(
                calendar_year(today),
                calendar_month(today),
                dow as int,
            );
            match catch_up(first, today) {
                None => None,
                Some(start) => occurrences(m, start, last, m.progress as int, today, i64::MAX as int),
            }
        },
        DueDate::Date(d) => Some((seq![PlannedView { hw: m, due: d - today - 1 }], -1)),
    }
}

/// The planned items of all homework, in order, and the furthest repeating
/// occurrence in days from today (`-1` if there is none).
pub open spec fn expand_all(all: Seq<HomeworkView>, today: int, last: int) -> Option<
    (Seq<PlannedView>, int),
>
    decreases all.len(),
{
    if all.len() == 0 {
        Some((seq![], -1))
    } else {
        match expand_all(all.drop_last(), today, last) {
            None => None,
            Some((xs, fx)) => match expand_item(all.last(), today, last) {
                None => None,
                Some((ys, fy)) => Some((xs + ys, max(fx, fy))),
            },
        }
    }
}

/// Adds what is left of each item to the workload of its day.
pub open spec fn add_workload(w: Seq<int>, items: Seq<PlannedView>) -> Option<Seq<int>>
    decreases items.len(),
{
    if items.len() == 0 {
        Some(w)
    } else {
        match add_workload(w, items.drop_last()) {
            None => None,
            Some(w1) => {
                let it = items.last();
                let left = left_of(it.hw);
                if !fits_i16(left) || !(0 <= it.due < w1.len()) || !fits_i16(w1[it.due] + left) {
                    None
                } else {
                    Some(w1.update(it.due, w1[it.due] + left))
                }
            },
        }
    }
}

/// Pairs each day's workload with the weight of its weekday.
pub open spec fn day_slots(today: int, weights: Seq<i16>, wl: Seq<int>) -> Option<Seq<(int, int)>>
    decreases wl.len(),
{
    if wl.len() == 0 {
        Some(seq![])
    } else {
        match day_slots(today, weights, wl.drop_last()) {
            None => None,
            Some(xs) => {
                let day = wl.len() - 1;
                let date = today + day;
                if date > MAX_DAY || weekday_number(date) < 0 || weekday_number(date) >= weights.len() {
                    None
                } else {
                    Some(xs.push((weights[weekday_number(date)] as int, wl[day])))
                }
            },
        }
    }
}

/// Where an item with due day `due` goes in a list sorted by due day: after
/// every item due no later.
pub open spec fn insert_pos(s: Seq<PlannedView>, due: int) -> int
    decreases s.len(),
{
    if s.len() == 0 {
        0
    } else if s[0].due > due {
        0
    } else {
        1 + insert_pos(s.drop_first(), due)
    }
}

/// The items sorted by due day, items due on the same day in their order.
pub open spec fn sort_by_due(s: Seq<PlannedView>) -> Seq<PlannedView>
    decreases s.len(),
{
    if s.len() == 0 {
        seq![]
    } else {
        let t = sort_by_due(s.drop_last());
        t.insert(insert_pos(t, s.last().due), s.last())
    }
}

/// An item as it is handed out on `day`: from the second day on, its delta
/// is cleared.
pub open spec fn handed_out(p: PlannedView, day: int) -> PlannedView {
    if day != 0 {
        PlannedView { hw: HomeworkView { delta: 0, ..p.hw }, due: p.due }
    } else {
        p
    }
}

/// Fills the `load` of `day` from the front of the items: an item that does
/// not fit whole is split and stays in front with its progress advanced.
/// Gives the day's homework and the items left.
pub open spec fn fill_day(items: Seq<PlannedView>, load: int, day: int) -> Option<
    (Seq<DailyView>, Seq<PlannedView>),
>
    decreases items.len(),
{
    if load <= 0 {
        Some((seq![], items))
    } else if items.len() == 0 {
        None
    } else {
        let first = handed_out(items[0], day);
        let left = left_of(first.hw);
        if !fits_i16(left) {
            None
        } else if left > load {
            if !fits_i16(first.hw.progress + load) {
                None
            } else {
                let advanced = PlannedView {
                    hw: HomeworkView { progress: (first.hw.progress + load) as i16, ..first.hw },
                    due: first.due,
                };
                Some((seq![DailyView { hw: first.hw, amount: load }], items.update(0, advanced)))
            }
        } else if !fits_i16(load - left) {
            None
        } else {
            match fill_day(items.drop_first(), load - left, day) {
                None => None,
                Some((out, rest)) => Some((seq![DailyView { hw: first.hw, amount: left }] + out, rest)),
            }
        }
    }
}

/// The homework of days `day ..` of the distributed plan `dist`.
pub open spec fn fill_days(items: Seq<PlannedView>, dist: Seq<(int, int)>, day: int) -> Option<
    Seq<(int, Seq<DailyView>)>,
>
    decreases dist.len() - day,
{
    if day >= dist.len() || day < 0 {
        Some(seq![])
    } else {
        match fill_day(items, (dist[day].1 as i16) as int, day) {
            None => None,
            Some((out, rest)) => match fill_days(rest, dist, day + 1) {
                None => None,
                Some(more) => Some(seq![(day, out)] + more),
            },
        }
    }
}

/// The plan for `all` homework from `today`, with the weekday weights
/// `weights` (Monday first): for each day from today on, the day's index and
/// the homework to do on it.
pub open spec fn schedule_of(all: Seq<HomeworkView>, weights: Seq<i16>, today: int) -> Option<
    Seq<(int, Seq<DailyView>)>,
> {
    if today >= MAX_DAY {
        None
    } else {
        let last = horizon_date(all, today);
        match expand_all(all, today, last) {
            None => None,
            Some((items, furthest)) => {
                let n = max(days_apart(last, today), furthest);
                match add_workload(Seq::new(n as nat, |i: int| 0int), items) {
                    None => None,
                    Some(wl) => match day_slots(today, weights, wl) {
                        None => None,
                        Some(slots) => match distributed(slots) {
                            None => None,
                            Some(dist) => if !load_sum_fits(dist, 0, dist.len() as int) {
                                None
                            } else {
                                fill_days(sort_by_due(items), dist, 0)
                            },
                        },
                    },
                }
            },
        }
    }
}

// ---------------------------------------------------------------------------
// Views of the executable values
// ---------------------------------------------------------------------------

/// The views of a list of homework.
pub open spec fn views(s: Seq<UserHomework>) -> Seq<HomeworkView> {
    s.map_values(|h: UserHomework| h@)
}

/// A homework placed on the day it has to be finished by.
struct HwModel {
    hw: UserHomework,
    due: i32,
}

impl View for HwModel {
    type V = PlannedView;

    closed spec fn view(&self) -> PlannedView {
        PlannedView { hw: self.hw@, due: self.due as int }
    }
}

spec fn planned(s: Seq<HwModel>) -> Seq<PlannedView> {
    s.map_values(|h: HwModel| h@)
}

/// The views of a plan.
pub open spec fn plan_view(v: Seq<(i32, Vec<DailyHomework>)>) -> Seq<(int, Seq<DailyView>)> {
    v.map_values(|p: (i32, Vec<DailyHomework>)| (p.0 as int, p.1@.map_values(|d: DailyHomework| d@)))
}

/// The latest date among the dated homework.
fn latest_due(all: &Vec<UserHomework>) -> (r: Option<i32>)
    requires
        dates_valid(views(all@)),
    ensures
        r is None <==> latest_date(views(all@)) is None,
        r matches Some(d) ==> latest_date(views(all@)) == Some(d as int) && valid_day(d as int),
{
    let mut acc: Option<i32> = None;
    let mut i: usize = 0;
    while i < all.len()
        invariant
            i <= all.len(),
            acc is None <==> latest_date(views(all@).take(i as int)) is None,
            acc matches Some(d) ==> latest_date(views(all@).take(i as int)) == Some(d as int),
            acc matches Some(d) ==> valid_day(d as int),
            dates_valid(views(all@)),
        decreases all.len() - i,
    {
        assert(views(all@)[i as int] == all@[i as int]@);
        assert(views(all@).take(i + 1).drop_last() =~= views(all@).take(i as int));
        match all[i].due_date {
            DueDate::Date(d) => {
                acc = match acc {
                    None => Some(d),
                    Some(m) => if m >= d {
                        Some(m)
                    } else {
                        Some(d)
                    },
                };
            },
            DueDate::Repeat(_) => {},
        }
        i = i + 1;
    }
    assert(views(all@).take(all.len() as int) =~= views(all@));
    acc
}

/// Joins what was gathered so far with what the rest gives.
pub open spec fn joined(acc: Seq<PlannedView>, furthest: int, rest: Option<(Seq<PlannedView>, int)>) -> Option<
    (Seq<PlannedView>, int),
> {
    match rest {
        None => None,
        Some((r, f)) => Some((acc + r, max(furthest, f))),
    }
}

/// The occurrence of repeating homework `m` on `date`.
fn make_occurrence(m: &UserHomework, date: i32, progress: i16, today: i32) -> (r: HwModel)
    requires
        valid_day(date as int),
        valid_day(today as int),
        date >= today,
    ensures
        r@ == occurrence(m@, date as int, progress as int, today as int),
{
    let mut detail = m.detail.clone();
    detail.append(" (");
    let text = format_date(date);
    detail.append(text.as_str());
    detail.append(")");
    HwModel {
        hw: UserHomework {
            due_date: m.due_date,
            amount: m.amount,
            progress,
            detail,
            db_id: m.db_id,
            delta: m.delta,
            weight: m.weight,
        },
        due: date - today - 1,
    }
}

/// The weekly occurrences of a repeating homework from `start` on.
fn repeat_occurrences(m: &UserHomework, start: i32, last: i32, today: i32) -> (r: Option<
    (Vec<HwModel>, i64),
>)
    requires
        valid_day(start as int),
        valid_day(today as int),
        valid_day(last as int),
        start >= today,
    ensures
        r is None <==> occurrences(m@, start as int, last as int, m.progress as int, today as int, i64::MAX as int) is None,
        r matches Some((v, f)) ==> occurrences(m@, start as int, last as int, m.progress as int, today as int, i64::MAX as int) == Some((planned(v@), f as int)),
        r matches Some((v, f)) ==> -1 <= f <= MAX_DAY - MIN_DAY,
{
    let ghost total = occurrences(m@, start as int, last as int, m.progress as int, today as int, i64::MAX as int);
    let mut out: Vec<HwModel> = Vec::new();
    let mut furthest: i64 = -1;
    let mut date: i32 = start;
    let mut distance: i64 = i64::MAX;
    let mut progress: i16 = m.progress;
    loop
        invariant
            valid_day(date as int),
            valid_day(today as int),
            valid_day(last as int),
            date >= today,
            -1 <= furthest <= MAX_DAY - MIN_DAY,
            distance >= 0,
            total == occurrences(m@, start as int, last as int, m.progress as int, today as int, i64::MAX as int),
            total == joined(planned(out@), furthest as int, occurrences(m@, date as int, last as int, progress as int, today as int, distance as int)),
        decreases distance,
    {
        let gap: i64 = if last >= date { last as i64 - date as i64 } else { date as i64 - last as i64 };
        assert(gap == days_apart(last as int, date as int));
        if !(distance > gap) {
            assert(planned(out@) + seq![] =~= planned(out@));
            assert(total == Some((planned(out@), furthest as int)));
            return Some((out, furthest));
        }
        let ghost before = planned(out@);
        let ghost f0 = furthest;
        let ghost p0 = progress;
        let ghost d0 = distance;
        distance = gap;
        let ahead = date as i64 - today as i64;
        if furthest < ahead {
            furthest = ahead;
        }
        if progress >= m.amount {
            let np = progress as i32 - m.amount as i32;
            if !(i16::MIN as i32 <= np && np <= i16::MAX as i32) {
                assert(occurrences(m@, date as int, last as int, p0 as int, today as int, d0 as int) is None);
                return None;
            }
            progress = np as i16;
            assert(planned(out@) =~= before + seq![]);
        } else {
            let occ = make_occurrence(m, date, progress, today);
            out.push(occ);
            progress = 0;
            assert(planned(out@) =~= before + seq![occurrence(m@, date as int, p0 as int, today as int)]);
        }
        if date > MAX_DAY - 7 {
            assert(occurrences(m@, date as int, last as int, p0 as int, today as int, d0 as int) is None);
            return None;
        }
        date = date + 7;
        proof {
            let here = if p0 >= m.amount { seq![] } else { seq![occurrence(m@, (date - 7) as int, p0 as int, today as int)] };
            let rest = occurrences(m@, date as int, last as int, progress as int, today as int, gap as int);
            assert(occurrences(m@, (date - 7) as int, last as int, p0 as int, today as int, d0 as int) == match rest {
                None => None,
                Some((r, fr)) => Some((here + r, max((date - 7) - today, fr))),
            });
            match rest {
                None => {},
                Some((r, fr)) => {
                    assert(before + (here + r) =~= planned(out@) + r);
                },
            }
        }
    }
}

/// Every dated homework is due on a date `chrono` represents.
pub open spec fn dates_valid(all: Seq<HomeworkView>) -> bool {
    forall|i: int|
        0 <= i < all.len() ==> (#[trigger] all[i].due_date matches DueDate::Date(d) ==> valid_day(
            d as int,
        ))
}

/// The planned items of one homework.
fn expand_item_exec(m: &UserHomework, today: i32, last: i32) -> (r: Option<(Vec<HwModel>, i64)>)
    requires
        valid_day(today as int),
        valid_day(last as int),
        m.due_date matches DueDate::Date(d) ==> valid_day(d as int),
    ensures
        r is None <==> expand_item(m@, today as int, last as int) is None,
        r matches Some((v, f)) ==> expand_item(m@, today as int, last as int) == Some(
            (planned(v@), f as int),
        ),
        r matches Some((v, f)) ==> -1 <= f <= MAX_DAY - MIN_DAY,
{
    match m.due_date {
        DueDate::Repeat(dow) => {
            let w = match weekday_from_i32(dow) {
                None => return None,
                Some(w) => w,
            };
            let y = year_of(today);
            let mo = month_of(today);
            let first = first_weekday_of_month(y, mo, w);
            let ghost whole = expand_item(m@, today as int, last as int);
            assert(whole == match catch_up(first as int, today as int) {
                None => None,
                Some(st) => occurrences(m@, st, last as int, m.progress as int, today as int, i64::MAX as int),
            });
            let mut date = first;
            while date < today
                invariant
                    valid_day(date as int),
                    valid_day(today as int),
                    whole == expand_item(m@, today as int, last as int),
                    whole == match catch_up(date as int, today as int) {
                        None => None,
                        Some(st) => occurrences(m@, st, last as int, m.progress as int, today as int, i64::MAX as int),
                    },
                decreases today - date + 7,
            {
                if date > MAX_DAY - 7 {
                    return None;
                }
                date = date + 7;
            }
            repeat_occurrences(m, date, last, today)
        },
        DueDate::Date(d) => {
            let mut v: Vec<HwModel> = Vec::new();
            v.push(HwModel { hw: m.duplicate(), due: d - today - 1 });
            assert(planned(v@) =~= seq![PlannedView { hw: m@, due: d - today - 1 }]);
            Some((v, -1))
        },
    }
}

/// The planned items of all homework, in order.
fn expand_all_exec(all: &Vec<UserHomework>, today: i32, last: i32) -> (r: Option<
    (Vec<HwModel>, i64),
>)
    requires
        valid_day(today as int),
        valid_day(last as int),
        dates_valid(views(all@)),
    ensures
        r is None <==> expand_all(views(all@), today as int, last as int) is None,
        r matches Some((v, f)) ==> expand_all(views(all@), today as int, last as int) == Some(
            (planned(v@), f as int),
        ),
        r matches Some((v, f)) ==> -1 <= f <= MAX_DAY - MIN_DAY,
{
    let mut out: Vec<HwModel> = Vec::new();
    let mut furthest: i64 = -1;
    let mut i: usize = 0;
    while i < all.len()
        invariant
            i <= all.len(),
            valid_day(today as int),
            valid_day(last as int),
            dates_valid(views(all@)),
            -1 <= furthest <= MAX_DAY - MIN_DAY,
            expand_all(views(all@).take(i as int), today as int, last as int) == Some(
                (planned(out@), furthest as int),
            ),
        decreases all.len() - i,
    {
        let ghost prefix = views(all@).take(i + 1);
        assert(prefix.drop_last() =~= views(all@).take(i as int));
        assert(prefix.last() == all@[i as int]@);
        assert(views(all@)[i as int] == all@[i as int]@);
        match expand_item_exec(&all[i], today, last) {
            None => {
                assert(expand_all(prefix, today as int, last as int) is None);
                assert(views(all@).take(all.len() as int) =~= views(all@));
                let ghost k = i + 1;
                assert forall|j: int| k <= j <= all.len() implies expand_all(views(all@).take(j), today as int, last as int) is None by {
                    lemma_expand_all_none_extends(views(all@), k, j, today as int, last as int);
                }
                return None;
            },
            Some((ys, fy)) => {
                let ghost before = planned(out@);
                let ghost added = planned(ys@);
                let mut ys = ys;
                out.append(&mut ys);
                assert(planned(out@) =~= before + added);
                if furthest < fy {
                    furthest = fy;
                }
            },
        }
        i = i + 1;
    }
    assert(views(all@).take(all.len() as int) =~= views(all@));
    Some((out, furthest))
}

proof fn lemma_expand_all_none_extends(all: Seq<HomeworkView>, k: int, j: int, today: int, last: int)
    requires
        0 <= k <= j <= all.len(),
        expand_all(all.take(k), today, last) is None,
    ensures
        expand_all(all.take(j), today, last) is None,
    decreases j - k,
{
    if j > k {
        lemma_expand_all_none_extends(all, k, j - 1, today, last);
        assert(all.take(j).drop_last() =~= all.take(j - 1));
    }
}

/// A workload as integers.
pub open spec fn loads(v: Seq<i16>) -> Seq<int> {
    v.map_values(|x: i16| x as int)
}

proof fn lemma_add_workload_none_extends(w: Seq<int>, items: Seq<PlannedView>, k: int, j: int)
    requires
        0 <= k <= j <= items.len(),
        add_workload(w, items.take(k)) is None,
    ensures
        add_workload(w, items.take(j)) is None,
    decreases j - k,
{
    if j > k {
        lemma_add_workload_none_extends(w, items, k, j - 1);
        assert(items.take(j).drop_last() =~= items.take(j - 1));
    }
}

/// The workload of each of the `n` days from tomorrow on.
fn workload_exec(items: &Vec<HwModel>, n: usize) -> (r: Option<Vec<i16>>)
    ensures
        r is None <==> add_workload(Seq::new(n as nat, |i: int| 0int), planned(items@)) is None,
        r matches Some(w) ==> add_workload(Seq::new(n as nat, |i: int| 0int), planned(items@)) == Some(
            loads(w@),
        ),
{
    let ghost zeros = Seq::new(n as nat, |i: int| 0int);
    let mut w: Vec<i16> = Vec::new();
    let mut k: usize = 0;
    while k < n
        invariant
            k <= n,
            w@.len() == k,
            forall|j: int| 0 <= j < k ==> w@[j] == 0,
        decreases n - k,
    {
        w.push(0);
        k = k + 1;
    }
    assert(loads(w@) =~= zeros);
    assert(planned(items@).take(0) =~= seq![]);
    let mut i: usize = 0;
    while i < items.len()
        invariant
            i <= items.len(),
            zeros == Seq::new(n as nat, |i: int| 0int),
            add_workload(zeros, planned(items@).take(i as int)) == Some(loads(w@)),
        decreases items.len() - i,
    {
        let ghost prefix = planned(items@).take(i + 1);
        assert(prefix.drop_last() =~= planned(items@).take(i as int));
        assert(prefix.last() == items@[i as int]@);
        let left = items[i].hw.amount as i32 - items[i].hw.progress as i32;
        let due = items[i].due;
        let ok = i16::MIN as i32 <= left && left <= i16::MAX as i32 && 0 <= due && (due as usize) < w.len();
        if !ok {
            proof {
                lemma_add_workload_none_extends(zeros, planned(items@), i + 1, items@.len() as int);
                assert(planned(items@).take(items@.len() as int) =~= planned(items@));
            }
            return None;
        }
        let sum = w[due as usize] as i32 + left;
        if !(i16::MIN as i32 <= sum && sum <= i16::MAX as i32) {
            proof {
                lemma_add_workload_none_extends(zeros, planned(items@), i + 1, items@.len() as int);
                assert(planned(items@).take(items@.len() as int) =~= planned(items@));
            }
            return None;
        }
        let ghost before = loads(w@);
        w.set(due as usize, sum as i16);
        assert(loads(w@) =~= before.update(due as int, before[due as int] + left));
        i = i + 1;
    }
    assert(planned(items@).take(items@.len() as int) =~= planned(items@));
    Some(w)
}

proof fn lemma_day_slots_none_extends(today: int, weights: Seq<i16>, wl: Seq<int>, k: int, j: int)
    requires
        0 <= k <= j <= wl.len(),
        day_slots(today, weights, wl.take(k)) is None,
    ensures
        day_slots(today, weights, wl.take(j)) is None,
    decreases j - k,
{
    if j > k {
        lemma_day_slots_none_extends(today, weights, wl, k, j - 1);
        assert(wl.take(j).drop_last() =~= wl.take(j - 1));
    }
}

/// Each day's weight and workload.
fn day_slots_exec(today: i32, weights: &[i16], wl: &Vec<i16>) -> (r: Option<Vec<(i32, i32)>>)
    requires
        valid_day(today as int),
    ensures
        r is None <==> day_slots(today as int, weights@, loads(wl@)) is None,
        r matches Some(v) ==> day_slots(today as int, weights@, loads(wl@)) == Some(ints(v@)),
{
    let mut out: Vec<(i32, i32)> = Vec::new();
    let mut day: usize = 0;
    assert(loads(wl@).take(0) =~= seq![]);
    assert(ints(out@) =~= seq![]);
    while day < wl.len()
        invariant
            day <= wl.len(),
            valid_day(today as int),
            day_slots(today as int, weights@, loads(wl@).take(day as int)) == Some(ints(out@)),
        decreases wl.len() - day,
    {
        let ghost prefix = loads(wl@).take(day + 1);
        assert(prefix.drop_last() =~= loads(wl@).take(day as int));
        let date = today as i64 + day as i64;
        if date > MAX_DAY as i64 {
            proof {
                lemma_day_slots_none_extends(today as int, weights@, loads(wl@), day + 1, wl@.len() as int);
                assert(loads(wl@).take(wl@.len() as int) =~= loads(wl@));
            }
            return None;
        }
        let wd = weekday_of(date as i32);
        if wd as usize >= weights.len() {
            proof {
                lemma_day_slots_none_extends(today as int, weights@, loads(wl@), day + 1, wl@.len() as int);
                assert(loads(wl@).take(wl@.len() as int) =~= loads(wl@));
            }
            return None;
        }
        let ghost before = ints(out@);
        out.push((weights[wd as usize] as i32, wl[day] as i32));
        assert(ints(out@) =~= before.push((weights@[wd as int] as int, loads(wl@)[day as int])));
        day = day + 1;
    }
    assert(loads(wl@).take(wl@.len() as int) =~= loads(wl@));
    Some(out)
}

impl HwModel {
    fn duplicate(&self) -> (r: HwModel)
        ensures
            r@ == self@,
    {
        HwModel { hw: self.hw.duplicate(), due: self.due }
    }
}

/// The items sorted by due day, items due on the same day in their order.
fn sort_exec(items: &Vec<HwModel>) -> (r: Vec<HwModel>)
    ensures
        planned(r@) == sort_by_due(planned(items@)),
{
    let mut sorted: Vec<HwModel> = Vec::new();
    let mut i: usize = 0;
    assert(planned(items@).take(0) =~= seq![]);
    assert(planned(sorted@) =~= seq![]);
    while i < items.len()
        invariant
            i <= items.len(),
            planned(sorted@) == sort_by_due(planned(items@).take(i as int)),
        decreases items.len() - i,
    {
        let ghost prefix = planned(items@).take(i + 1);
        assert(prefix.drop_last() =~= planned(items@).take(i as int));
        assert(prefix.last() == items@[i as int]@);
        let x = items[i].duplicate();
        let ghost t = planned(sorted@);
        let mut k: usize = 0;
        assert(t.skip(0) =~= t);
        while k < sorted.len() && sorted[k].due <= x.due
            invariant
                k <= sorted.len(),
                t == planned(sorted@),
                insert_pos(t, x.due as int) == k + insert_pos(t.skip(k as int), x.due as int),
            decreases sorted.len() - k,
        {
            assert(t.skip(k as int)[0] == t[k as int]);
            assert(t.skip(k as int).drop_first() =~= t.skip(k + 1));
            k = k + 1;
        }
        if k < sorted.len() {
            assert(t.skip(k as int)[0] == t[k as int]);
        } else {
            assert(t.skip(k as int) =~= seq![]);
        }
        let ghost xv = x@;
        sorted.insert(k, x);
        assert(planned(sorted@) =~= t.insert(k as int, xv));
        i = i + 1;
    }
    assert(planned(items@).take(items@.len() as int) =~= planned(items@));
    sorted
}

/// The views of a day's homework.
pub open spec fn daily(v: Seq<DailyHomework>) -> Seq<DailyView> {
    v.map_values(|d: DailyHomework| d@)
}

spec fn joined_day(acc: Seq<DailyView>, rest: Option<(Seq<DailyView>, Seq<PlannedView>)>) -> Option<
    (Seq<DailyView>, Seq<PlannedView>),
> {
    match rest {
        None => None,
        Some((o, r)) => Some((acc + o, r)),
    }
}

/// Fills one day's load from the front of the pending items.
fn fill_day_exec(pending: &mut Vec<HwModel>, load: i16, day: usize) -> (r: Option<Vec<DailyHomework>>)
    ensures
        r is None <==> fill_day(planned(old(pending)@), load as int, day as int) is None,
        r matches Some(out) ==> fill_day(planned(old(pending)@), load as int, day as int) == Some(
            (daily(out@), planned(final(pending)@)),
        ),
{
    let ghost whole = fill_day(planned(pending@), load as int, day as int);
    let mut out: Vec<DailyHomework> = Vec::new();
    let mut remaining = load;
    assert(daily(out@) + seq![] =~= seq![]);
    while remaining > 0
        invariant
            whole == fill_day(planned(old(pending)@), load as int, day as int),
            whole == joined_day(daily(out@), fill_day(planned(pending@), remaining as int, day as int)),
        decreases pending.len() + (if remaining > 0 { 1int } else { 0int }),
    {
        if pending.len() == 0 {
            return None;
        }
        let ghost items = planned(pending@);
        let ghost acc = daily(out@);
        let mut first = pending.remove(0);
        assert(planned(pending@) =~= items.drop_first());
        if day != 0 {
            first.hw.delta = 0;
        }
        assert(first@ == handed_out(items[0], day as int));
        let left = first.hw.amount as i32 - first.hw.progress as i32;
        if !(i16::MIN as i32 <= left && left <= i16::MAX as i32) {
            return None;
        }
        if left > remaining as i32 {
            let np = first.hw.progress as i32 + remaining as i32;
            if !(i16::MIN as i32 <= np && np <= i16::MAX as i32) {
                return None;
            }
            out.push(DailyHomework { hw: first.hw.duplicate(), amount: remaining as i32 });
            first.hw.progress = np as i16;
            let ghost fv = first@;
            pending.insert(0, first);
            assert(planned(pending@) =~= items.update(0, fv));
            assert(daily(out@) =~= acc + seq![DailyView { hw: handed_out(items[0], day as int).hw, amount: remaining as int }]);
            remaining = 0;
            assert(fill_day(planned(pending@), remaining as int, day as int) == Some((Seq::<DailyView>::empty(), planned(pending@))));
            assert(daily(out@) + seq![] =~= daily(out@));
        } else {
            let nl = remaining as i32 - left;
            if !(i16::MIN as i32 <= nl && nl <= i16::MAX as i32) {
                return None;
            }
            let ghost hv = first.hw@;
            out.push(DailyHomework { hw: first.hw, amount: left });
            assert(daily(out@) =~= acc + seq![DailyView { hw: hv, amount: left as int }]);
            remaining = nl as i16;
            proof {
                match fill_day(planned(pending@), remaining as int, day as int) {
                    None => {},
                    Some((o, r)) => {
                        assert(acc + (seq![DailyView { hw: hv, amount: left as int }] + o) =~= daily(out@) + o);
                    },
                }
            }
        }
    }
    assert(daily(out@) + seq![] =~= daily(out@));
    Some(out)
}

spec fn joined_days(acc: Seq<(int, Seq<DailyView>)>, rest: Option<Seq<(int, Seq<DailyView>)>>) -> Option<
    Seq<(int, Seq<DailyView>)>,
> {
    match rest {
        None => None,
        Some(r) => Some(acc + r),
    }
}

/// Hands out the distributed load of every day.
fn fill_days_exec(items: Vec<HwModel>, dist: &Vec<(i32, i32)>) -> (r: Option<
    Vec<(i32, Vec<DailyHomework>)>,
>)
    requires
        dist.len() <= i32::MAX,
    ensures
        r is None <==> fill_days(planned(items@), ints(dist@), 0) is None,
        r matches Some(v) ==> fill_days(planned(items@), ints(dist@), 0) == Some(plan_view(v@)),
{
    let ghost whole = fill_days(planned(items@), ints(dist@), 0);
    let mut pending = items;
    let mut out: Vec<(i32, Vec<DailyHomework>)> = Vec::new();
    let mut day: usize = 0;
    assert(plan_view(out@) + whole.unwrap_or(seq![]) =~= whole.unwrap_or(seq![]));
    while day < dist.len()
        invariant
            day <= dist.len() <= i32::MAX,
            whole == fill_days(planned(items@), ints(dist@), 0),
            whole == joined_days(plan_view(out@), fill_days(planned(pending@), ints(dist@), day as int)),
        decreases dist.len() - day,
    {
        let ghost acc = plan_view(out@);
        let ghost before = planned(pending@);
        let load = dist[day].1 as i16;
        assert(ints(dist@)[day as int].1 == dist@[day as int].1 as int);
        assert(load as int == (ints(dist@)[day as int].1 as i16) as int);
        let today = match fill_day_exec(&mut pending, load, day) {
            None => return None,
            Some(v) => v,
        };
        let ghost dv = daily(today@);
        out.push((day as i32, today));
        assert(plan_view(out@) =~= acc + seq![(day as int, dv)]);
        proof {
            match fill_days(planned(pending@), ints(dist@), day + 1) {
                None => {},
                Some(more) => {
                    assert(acc + (seq![(day as int, dv)] + more) =~= plan_view(out@) + more);
                },
            }
        }
        day = day + 1;
    }
    assert(plan_view(out@) + seq![] =~= plan_view(out@));
    Some(out)
}

/// The weekday weights (Monday first) of a user's stored day weights: the
/// first seven, each cut to an `i16` as `as` cuts it; `None` when fewer
/// than seven are stored.
pub fn weekday_weights(day_weights: &Vec<i32>) -> (r: Option<Vec<i16>>)
    ensures
        r is None <==> day_weights@.len() < 7,
        r matches Some(v) ==> v@ == day_weights@.take(7).map_values(|x: i32| x as i16),
{
    if day_weights.len() < 7 {
        return None;
    }
    let mut out: Vec<i16> = Vec::new();
    let mut i: usize = 0;
    while i < 7
        invariant
            i <= 7,
            day_weights@.len() >= 7,
            out@ == day_weights@.take(i as int).map_values(|x: i32| x as i16),
        decreases 7 - i,
    {
        out.push(day_weights[i] as i16);
        assert(day_weights@.take(i + 1).map_values(|x: i32| x as i16) =~= day_weights@.take(i as int).map_values(
            |x: i32| x as i16,
        ).push(day_weights@[i as int] as i16));
        i = i + 1;
    }
    Some(out)
}

/// The plan for `all` homework from day `today` on, with the weekday weights
/// `weights` (Monday first): for each day from today on, its index and the
/// homework to do on it. `None` exactly where the planner's arithmetic
/// overflows, indexes out of bounds or leaves the calendar.
pub fn create_schedule_on(all: &Vec<UserHomework>, weights: &[i16], today: i32) -> (r: Option<
    Vec<(i32, Vec<DailyHomework>)>,
>)
    requires
        valid_day(today as int),
        dates_valid(views(all@)),
    ensures
        r is None <==> schedule_of(views(all@), weights@, today as int) is None,
        r matches Some(v) ==> schedule_of(views(all@), weights@, today as int) == Some(plan_view(v@)),
{
    if today >= MAX_DAY {
        return None;
    }
    let last = match latest_due(all) {
        Some(d) => d,
        None => today + 1,
    };
    assert(last as int == horizon_date(views(all@), today as int));
    let (items, furthest) = match expand_all_exec(all, today, last) {
        None => return None,
        Some(x) => x,
    };
    let base: i64 = if last >= today {
        last as i64 - today as i64
    } else {
        today as i64 - last as i64
    };
    let n: i64 = if base >= furthest {
        base
    } else {
        furthest
    };
    let wl = match workload_exec(&items, n as usize) {
        None => return None,
        Some(w) => w,
    };
    let mut slots = match day_slots_exec(today, weights, &wl) {
        None => return None,
        Some(v) => v,
    };
    let sorted = sort_exec(&items);
    let ghost slot_view = ints(slots@);
    proof {
        lemma_day_slots_len(today as int, weights@, loads(wl@));
    }
    if !distribute(&mut slots) {
        return None;
    }
    assert(distributed(slot_view) == Some(ints(slots@)));
    if sum_loads(&slots, 0, slots.len()).is_none() {
        return None;
    }
    fill_days_exec(sorted, &slots)
}

proof fn lemma_day_slots_len(today: int, weights: Seq<i16>, wl: Seq<int>)
    ensures
        day_slots(today, weights, wl) matches Some(v) ==> v.len() == wl.len(),
    decreases wl.len(),
{
    if wl.len() > 0 {
        lemma_day_slots_len(today, weights, wl.drop_last());
    }
}

/// The plan for `all` homework from the current local date on, with that
/// date: the date the clock reads and [`create_schedule_on`]'s plan for it.
pub fn create_schedule(all: &Vec<UserHomework>, weights: &[i16]) -> (r: (
    i32,
    Option<Vec<(i32, Vec<DailyHomework>)>>,
))
    requires
        dates_valid(views(all@)),
    ensures
        valid_day(r.0 as int),
        r.1 is None <==> schedule_of(views(all@), weights@, r.0 as int) is None,
        r.1 matches Some(v) ==> schedule_of(views(all@), weights@, r.0 as int) == Some(plan_view(v@)),
{
    let today = now();
    (today, create_schedule_on(all, weights, today))
}

// ---------------------------------------------------------------------------
// The plan is on time
// ---------------------------------------------------------------------------

/// The amount handed out on one day.
pub open spec fn day_total(out: Seq<DailyView>) -> int
    decreases out.len(),
{
    if out.len() == 0 {
        0
    } else {
        out[0].amount + day_total(out.drop_first())
    }
}

/// The amount handed out on the first `k` days of a plan.
pub open spec fn planned_by(plan: Seq<(int, Seq<DailyView>)>, k: int) -> int
    decreases k,
{
    if k <= 0 {
        0
    } else {
        planned_by(plan, k - 1) + day_total(plan[k - 1].1)
    }
}

/// What is left of the items due before day `k` (an item with `due == d`
/// has to be done by the end of day `d`).
pub open spec fn due_by(items: Seq<PlannedView>, k: int) -> int
    decreases items.len(),
{
    if items.len() == 0 {
        0
    } else {
        due_by(items.drop_last(), k) + (if 0 <= items.last().due < k {
            left_of(items.last().hw)
        } else {
            0
        })
    }
}

/// What is left of all the items.
pub open spec fn total_left(items: Seq<PlannedView>) -> int
    decreases items.len(),
{
    if items.len() == 0 {
        0
    } else {
        total_left(items.drop_last()) + left_of(items.last().hw)
    }
}

/// No item has more progress than it has amount.
pub open spec fn lefts_nonneg(items: Seq<PlannedView>) -> bool {
    forall|i: int| 0 <= i < items.len() ==> left_of(#[trigger] items[i].hw) >= 0
}

/// Sum of the first `k` numbers of `w`.
pub open spec fn seq_sum(w: Seq<int>, k: int) -> int
    decreases k,
{
    if k <= 0 {
        0
    } else {
        seq_sum(w, k - 1) + w[k - 1]
    }
}

proof fn lemma_fill_day_total(items: Seq<PlannedView>, load: int, day: int)
    ensures
        fill_day(items, load, day) matches Some((out, _rest)) ==> day_total(out) == (if load > 0 {
            load
        } else {
            0
        }),
    decreases items.len(),
{
    if load <= 0 {
        assert(day_total(Seq::<DailyView>::empty()) == 0);
    } else if items.len() == 0 {
    } else {
        let first = handed_out(items[0], day);
        let left = left_of(first.hw);
        if !fits_i16(left) {
        } else if left > load {
            if fits_i16(first.hw.progress + load) {
                let out = seq![DailyView { hw: first.hw, amount: load }];
                assert(out.drop_first() =~= Seq::<DailyView>::empty());
                assert(day_total(Seq::<DailyView>::empty()) == 0);
                assert(day_total(out) == load);
            }
        } else if fits_i16(load - left) {
            lemma_fill_day_total(items.drop_first(), load - left, day);
            match fill_day(items.drop_first(), load - left, day) {
                None => {},
                Some((o, _r)) => {
                    let out = seq![DailyView { hw: first.hw, amount: left }] + o;
                    assert(out.drop_first() =~= o);
                },
            }
        }
    }
}

proof fn lemma_fill_days_totals(items: Seq<PlannedView>, dist: Seq<(int, int)>, day: int)
    requires
        0 <= day <= dist.len(),
    ensures
        fill_days(items, dist, day) matches Some(plan) ==> {
            &&& plan.len() == dist.len() - day
            &&& forall|i: int|
                0 <= i < plan.len() ==> #[trigger] day_total(plan[i].1) == (if (dist[day + i].1 as i16) > 0 {
                    (dist[day + i].1 as i16) as int
                } else {
                    0
                })
        },
    decreases dist.len() - day,
{
    if day < dist.len() {
        let load = (dist[day].1 as i16) as int;
        lemma_fill_day_total(items, load, day);
        match fill_day(items, load, day) {
            None => {},
            Some((out, rest)) => {
                lemma_fill_days_totals(rest, dist, day + 1);
                match fill_days(rest, dist, day + 1) {
                    None => {},
                    Some(more) => {
                        let plan = seq![(day, out)] + more;
                        assert forall|i: int| 0 <= i < plan.len() implies #[trigger] day_total(plan[i].1) == (if (
                        dist[day + i].1 as i16) > 0 {
                            (dist[day + i].1 as i16) as int
                        } else {
                            0
                        }) by {
                            if i > 0 {
                                assert(plan[i] == more[i - 1]);
                                assert(day + 1 + (i - 1) == day + i);
                            }
                        }
                    },
                }
            },
        }
    }
}

proof fn lemma_seq_sum_update(w: Seq<int>, e: int, v: int, k: int)
    requires
        0 <= e < w.len(),
        0 <= k <= w.len(),
    ensures
        seq_sum(w.update(e, v), k) == seq_sum(w, k) + (if e < k {
            v - w[e]
        } else {
            0
        }),
    decreases k,
{
    if k > 0 {
        lemma_seq_sum_update(w, e, v, k - 1);
    }
}

proof fn lemma_add_workload_sums(w: Seq<int>, items: Seq<PlannedView>)
    ensures
        add_workload(w, items) matches Some(wl) ==> {
            &&& wl.len() == w.len()
            &&& forall|i: int| 0 <= i < items.len() ==> 0 <= #[trigger] items[i].due < w.len()
            &&& forall|k: int| 0 <= k <= w.len() ==> #[trigger] seq_sum(wl, k) == seq_sum(w, k) + due_by(items, k)
            &&& (lefts_nonneg(items) && (forall|d: int| 0 <= d < w.len() ==> #[trigger] w[d] >= 0) ==> forall|d: int|
                0 <= d < wl.len() ==> #[trigger] wl[d] >= 0)
        },
    decreases items.len(),
{
    if items.len() > 0 {
        let rest = items.drop_last();
        lemma_add_workload_sums(w, rest);
        match add_workload(w, rest) {
            None => {},
            Some(w1) => {
                let it = items.last();
                let left = left_of(it.hw);
                if fits_i16(left) && 0 <= it.due < w1.len() && fits_i16(w1[it.due] + left) {
                    let wl = w1.update(it.due, w1[it.due] + left);
                    assert forall|i: int| 0 <= i < items.len() implies 0 <= #[trigger] items[i].due < w.len() by {
                        if i < items.len() - 1 {
                            assert(items[i] == rest[i]);
                        }
                    }
                    assert forall|k: int| 0 <= k <= w.len() implies #[trigger] seq_sum(wl, k) == seq_sum(w, k) + due_by(
                        items,
                        k,
                    ) by {
                        lemma_seq_sum_update(w1, it.due, w1[it.due] + left, k);
                    }
                    if lefts_nonneg(items) && (forall|d: int| 0 <= d < w.len() ==> #[trigger] w[d] >= 0) {
                        assert(lefts_nonneg(rest)) by {
                            assert forall|i: int| 0 <= i < rest.len() implies left_of(#[trigger] rest[i].hw) >= 0 by {
                                assert(rest[i] == items[i]);
                            }
                        }
                        assert(left_of(items[items.len() - 1].hw) >= 0);
                    }
                }
            },
        }
    }
}

proof fn lemma_day_slots_loads(today: int, weights: Seq<i16>, wl: Seq<int>)
    ensures
        day_slots(today, weights, wl) matches Some(slots) ==> {
            &&& slots.len() == wl.len()
            &&& forall|d: int| 0 <= d < slots.len() ==> #[trigger] slots[d].1 == wl[d]
            &&& forall|d: int|
                0 <= d < slots.len() ==> exists|i: int| 0 <= i < weights.len() && #[trigger] slots[d].0 == weights[i] as int
            &&& forall|d: int| 0 <= d < slots.len() ==> #[trigger] slots[d].0 == weights[weekday_number(today + d)] as int
        },
    decreases wl.len(),
{
    if wl.len() > 0 {
        let front = wl.drop_last();
        lemma_day_slots_loads(today, weights, front);
        match day_slots(today, weights, front) {
            None => {},
            Some(xs) => {
                let day = wl.len() - 1;
                let date = today + day;
                if !(date > MAX_DAY || weekday_number(date) < 0 || weekday_number(date) >= weights.len()) {
                    let slots = xs.push((weights[weekday_number(date)] as int, wl[day]));
                    assert forall|d: int| 0 <= d < slots.len() implies #[trigger] slots[d].1 == wl[d] by {
                        if d < xs.len() {
                            assert(slots[d] == xs[d]);
                        }
                    }
                    assert forall|d: int| 0 <= d < slots.len() implies exists|i: int|
                        0 <= i < weights.len() && #[trigger] slots[d].0 == weights[i] as int by {
                        if d < xs.len() {
                            assert(slots[d] == xs[d]);
                        } else {
                            assert(slots[d].0 == weights[weekday_number(date)] as int);
                        }
                    }
                }
            },
        }
    }
}

proof fn lemma_load_sum_seq_sum(slots: Seq<(int, int)>, wl: Seq<int>, k: int)
    requires
        0 <= k <= slots.len(),
        slots.len() == wl.len(),
        forall|d: int| 0 <= d < slots.len() ==> #[trigger] slots[d].1 == wl[d],
    ensures
        load_sum(slots, 0, k) == seq_sum(wl, k),
    decreases k,
{
    if k > 0 {
        lemma_load_sum_seq_sum(slots, wl, k - 1);
    }
}

proof fn lemma_seq_sum_zeros(n: nat, k: int)
    requires
        0 <= k <= n,
    ensures
        seq_sum(Seq::new(n, |i: int| 0int), k) == 0,
    decreases k,
{
    if k > 0 {
        lemma_seq_sum_zeros(n, k - 1);
    }
}

proof fn lemma_due_by_all(items: Seq<PlannedView>, n: int)
    requires
        forall|i: int| 0 <= i < items.len() ==> 0 <= #[trigger] items[i].due < n,
    ensures
        due_by(items, n) == total_left(items),
    decreases items.len(),
{
    if items.len() > 0 {
        let rest = items.drop_last();
        assert forall|i: int| 0 <= i < rest.len() implies 0 <= #[trigger] rest[i].due < n by {
            assert(rest[i] == items[i]);
        }
        lemma_due_by_all(rest, n);
        assert(0 <= items[items.len() - 1].due < n);
    }
}

proof fn lemma_planned_by_loads(plan: Seq<(int, Seq<DailyView>)>, dist: Seq<(int, int)>, k: int)
    requires
        0 <= k <= plan.len(),
        plan.len() == dist.len(),
        forall|i: int| 0 <= i < plan.len() ==> #[trigger] day_total(plan[i].1) == dist[i].1,
    ensures
        planned_by(plan, k) == load_sum(dist, 0, k),
    decreases k,
{
    if k > 0 {
        lemma_planned_by_loads(plan, dist, k - 1);
        assert(day_total(plan[k - 1].1) == dist[k - 1].1);
    }
}

/// No dated homework has more progress than amount.
pub open spec fn dated_within_amount(all: Seq<HomeworkView>) -> bool {
    forall|i: int| 0 <= i < all.len() && (#[trigger] all[i].due_date is Date) ==> all[i].progress <= all[i].amount
}

proof fn lemma_occurrences_lefts(m: HomeworkView, date: int, last: int, progress: int, today: int, prev: int)
    requires
        fits_i16(progress),
    ensures
        occurrences(m, date, last, progress, today, prev) matches Some((xs, _f)) ==> lefts_nonneg(xs),
    decreases prev,
{
    let gap = days_apart(last, date);
    if prev > gap {
        let covered = progress >= m.amount;
        let next_progress = if covered {
            progress - m.amount
        } else {
            0
        };
        let here = if covered {
            seq![]
        } else {
            seq![occurrence(m, date, progress, today)]
        };
        if fits_i16(next_progress) && date + 7 <= MAX_DAY {
            lemma_occurrences_lefts(m, date + 7, last, next_progress, today, gap);
            match occurrences(m, date + 7, last, next_progress, today, gap) {
                None => {},
                Some((rest, _f)) => {
                    let xs = here + rest;
                    assert forall|i: int| 0 <= i < xs.len() implies left_of(#[trigger] xs[i].hw) >= 0 by {
                        if i < here.len() {
                            assert(xs[i] == occurrence(m, date, progress, today));
                        } else {
                            assert(xs[i] == rest[i - here.len()]);
                        }
                    }
                },
            }
        }
    }
}

proof fn lemma_expand_all_lefts(all: Seq<HomeworkView>, today: int, last: int)
    requires
        dated_within_amount(all),
    ensures
        expand_all(all, today, last) matches Some((items, _f)) ==> lefts_nonneg(items),
    decreases all.len(),
{
    if all.len() > 0 {
        let front = all.drop_last();
        assert(dated_within_amount(front)) by {
            assert forall|i: int| 0 <= i < front.len() && (#[trigger] front[i].due_date is Date) implies front[i].progress
                <= front[i].amount by {
                assert(front[i] == all[i]);
            }
        }
        lemma_expand_all_lefts(front, today, last);
        let m = all.last();
        match m.due_date {
            DueDate::Repeat(dow) => {
                if 0 <= dow < 7 {
                    let first = first_weekday_in_month(calendar_year(today), calendar_month(today), dow as int);
                    match catch_up(first, today) {
                        None => {},
                        Some(start) => {
                            lemma_occurrences_lefts(m, start, last, m.progress as int, today, i64::MAX as int);
                        },
                    }
                }
            },
            DueDate::Date(_d) => {
                assert(all[all.len() - 1].due_date is Date);
            },
        }
        match expand_all(front, today, last) {
            None => {},
            Some((xs, _fx)) => match expand_item(m, today, last) {
                None => {},
                Some((ys, _fy)) => {
                    let items = xs + ys;
                    assert forall|i: int| 0 <= i < items.len() implies left_of(#[trigger] items[i].hw) >= 0 by {
                        if i < xs.len() {
                            assert(items[i] == xs[i]);
                        } else {
                            assert(items[i] == ys[i - xs.len()]);
                        }
                    }
                },
            },
        }
    }
}

/// Following the plan finishes the homework on time. Where no weekday
/// weight is negative, today's weekday has a weight of at least one, no
/// dated homework has more progress than amount,
/// and what is left of all the planned items fits in an `i16`: for every
/// day `k` of the plan, the amount handed out on days `0 ..= k` covers what
/// is left of every item due by the end of day `k`, and the whole plan
/// hands out exactly what is left of the items.
pub proof fn plan_is_on_time(all: Seq<HomeworkView>, weights: Seq<i16>, today: int)
    requires
        forall|i: int| 0 <= i < weights.len() ==> #[trigger] weights[i] >= 0,
        weekday_number(today) < weights.len(),
        weights[weekday_number(today)] >= 1,
        dated_within_amount(all),
    ensures
        schedule_of(all, weights, today) matches Some(plan) ==> (expand_all(all, today, horizon_date(all, today))
            matches Some((items, _furthest)) && (total_left(items) <= i16::MAX ==> (
        (forall|k: int| 0 <= k < plan.len() ==> #[trigger] planned_by(plan, k + 1) >= due_by(items, k + 1))
            && planned_by(plan, plan.len() as int) == total_left(items)))),
{
    if today < MAX_DAY {
        let last = horizon_date(all, today);
        match expand_all(all, today, last) {
            None => {},
            Some((items, furthest)) => {
                lemma_expand_all_lefts(all, today, last);
                let n = max(days_apart(last, today), furthest);
                let zeros = Seq::new(n as nat, |i: int| 0int);
                lemma_add_workload_sums(zeros, items);
                match add_workload(zeros, items) {
                    None => {},
                    Some(wl) => {
                        lemma_day_slots_loads(today, weights, wl);
                        match day_slots(today, weights, wl) {
                            None => {},
                            Some(slots) => {
                                match distributed(slots) {
                                    None => {},
                                    Some(dist) => {
                                        if load_sum_fits(dist, 0, dist.len() as int) && lefts_nonneg(items)
                                            && total_left(items) <= i16::MAX {
                                            lemma_slots_weights(today, weights, slots);
                                            lemma_plan_on_time_parts(items, n, zeros, wl, slots, dist);
                                            lemma_fill_days_totals(sort_by_due(items), dist, 0);
                                            match fill_days(sort_by_due(items), dist, 0) {
                                                None => {},
                                                Some(plan) => {
                                                    assert forall|i: int| 0 <= i < plan.len() implies #[trigger] day_total(
                                                        plan[i].1,
                                                    ) == dist[i].1 by {
                                                        assert(0 <= dist[0 + i].1 <= i16::MAX);
                                                    }
                                                    assert forall|k: int| 0 <= k < plan.len() implies #[trigger] planned_by(
                                                        plan,
                                                        k + 1,
                                                    ) >= due_by(items, k + 1) by {
                                                        lemma_planned_by_loads(plan, dist, k + 1);
                                                    }
                                                    lemma_planned_by_loads(plan, dist, plan.len() as int);
                                                },
                                            }
                                        }
                                    },
                                }
                            },
                        }
                    },
                }
            },
        }
    }
}

proof fn lemma_slots_weights(today: int, weights: Seq<i16>, slots: Seq<(int, int)>)
    requires
        forall|i: int| 0 <= i < weights.len() ==> #[trigger] weights[i] >= 0,
        weights[weekday_number(today)] >= 1,
        forall|d: int|
            0 <= d < slots.len() ==> exists|i: int| 0 <= i < weights.len() && #[trigger] slots[d].0 == weights[i] as int,
        forall|d: int| 0 <= d < slots.len() ==> #[trigger] slots[d].0 == weights[weekday_number(today + d)] as int,
    ensures
        weights_nonneg(slots),
        slots.len() > 0 ==> slots[0].0 >= 1,
{
    assert forall|d: int| 0 <= d < slots.len() implies #[trigger] slots[d].0 >= 0 by {
        let i = choose|i: int| 0 <= i < weights.len() && #[trigger] slots[d].0 == weights[i] as int;
        assert(weights[i] >= 0);
    }
    if slots.len() > 0 {
        assert(slots[0].0 == weights[weekday_number(today + 0)] as int);
    }
}

proof fn lemma_plan_on_time_parts(
    items: Seq<PlannedView>,
    n: int,
    zeros: Seq<int>,
    wl: Seq<int>,
    slots: Seq<(int, int)>,
    dist: Seq<(int, int)>,
)
    requires
        n >= 0,
        zeros == Seq::new(n as nat, |i: int| 0int),
        add_workload(zeros, items) == Some(wl),
        slots.len() == wl.len(),
        forall|d: int| 0 <= d < slots.len() ==> #[trigger] slots[d].1 == wl[d],
        weights_nonneg(slots),
        slots.len() > 0 ==> slots[0].0 >= 1,
        distributed(slots) == Some(dist),
        lefts_nonneg(items),
        total_left(items) <= i16::MAX,
    ensures
        dist.len() == n,
        forall|d: int| 0 <= d < dist.len() ==> 0 <= #[trigger] dist[d].1 <= i16::MAX,
        forall|k: int| 0 <= k < dist.len() ==> #[trigger] load_sum(dist, 0, k + 1) >= due_by(items, k + 1),
        load_sum(dist, 0, n) == total_left(items),
{
    lemma_add_workload_sums(zeros, items);
    assert(wl.len() == n);
    assert(loads_have_time(slots)) by {
        assert forall|j: int| 0 <= j < slots.len() implies #[trigger] slots[j].1 == 0 || weight_sum(slots, 0, j + 1) > 0 by {
            lemma_weight_sum_first(slots, j + 1);
        }
    }
    assert(loads_nonneg(slots)) by {
        assert forall|d: int| 0 <= d < slots.len() implies #[trigger] slots[d].1 >= 0 by {
            assert(wl[d] >= 0);
        }
    }
    distribute_keeps_weights(slots);
    distribute_keeps_total(slots);
    distribute_on_time(slots);
    assert(dist.len() == n);
    assert forall|k: int| 0 <= k < dist.len() implies #[trigger] load_sum(dist, 0, k + 1) >= due_by(items, k + 1) by {
        assert(load_sum(dist, 0, k + 1) >= load_sum(slots, 0, k + 1));
        lemma_load_sum_seq_sum(slots, wl, k + 1);
        lemma_seq_sum_zeros(n as nat, k + 1);
        assert(seq_sum(wl, k + 1) == seq_sum(zeros, k + 1) + due_by(items, k + 1));
    }
    lemma_load_sum_seq_sum(slots, wl, n);
    lemma_seq_sum_zeros(n as nat, n);
    assert(seq_sum(wl, n) == seq_sum(zeros, n) + due_by(items, n));
    lemma_due_by_all(items, n);
    assert(load_sum(dist, 0, n) == total_left(items));
    assert forall|d: int| 0 <= d < dist.len() implies 0 <= #[trigger] dist[d].1 <= i16::MAX by {
        lemma_load_sum_split(dist, 0, d, n);
        lemma_load_sum_split(dist, d, d + 1, n);
        lemma_load_sum_nonneg(dist, 0, d);
        lemma_load_sum_nonneg(dist, d + 1, n);
        assert(load_sum(dist, d, d + 1) == dist[d].1) by {
            assert(load_sum(dist, d, d) == 0);
        }
    }
}

// ---------------------------------------------------------------------------
// Nothing is left pending past its due day
// ---------------------------------------------------------------------------

/// The items are in order of due day.
pub open spec fn sorted_by_due(s: Seq<PlannedView>) -> bool {
    forall|i: int, j: int| 0 <= i <= j < s.len() ==> #[trigger] s[i].due <= #[trigger] s[j].due
}

/// What is left of the items due before day `m`.
pub open spec fn left_before(s: Seq<PlannedView>, m: int) -> int
    decreases s.len(),
{
    if s.len() == 0 {
        0
    } else {
        (if s[0].due < m {
            left_of(s[0].hw)
        } else {
            0
        }) + left_before(s.drop_first(), m)
    }
}

proof fn lemma_left_before_nonneg(s: Seq<PlannedView>, m: int)
    requires
        lefts_nonneg(s),
    ensures
        left_before(s, m) >= 0,
    decreases s.len(),
{
    if s.len() > 0 {
        assert(left_of(s[0].hw) >= 0);
        assert(lefts_nonneg(s.drop_first())) by {
            assert forall|i: int| 0 <= i < s.drop_first().len() implies left_of(#[trigger] s.drop_first()[i].hw) >= 0 by {
                assert(s.drop_first()[i] == s[i + 1]);
            }
        }
        lemma_left_before_nonneg(s.drop_first(), m);
    }
}

proof fn lemma_left_before_late(s: Seq<PlannedView>, m: int)
    requires
        forall|i: int| 0 <= i < s.len() ==> #[trigger] s[i].due >= m,
    ensures
        left_before(s, m) == 0,
    decreases s.len(),
{
    if s.len() > 0 {
        assert(s[0].due >= m);
        assert forall|i: int| 0 <= i < s.drop_first().len() implies #[trigger] s.drop_first()[i].due >= m by {
            assert(s.drop_first()[i] == s[i + 1]);
        }
        lemma_left_before_late(s.drop_first(), m);
    }
}

proof fn lemma_sorted_tail(s: Seq<PlannedView>)
    requires
        s.len() > 0,
        sorted_by_due(s),
        lefts_nonneg(s),
    ensures
        sorted_by_due(s.drop_first()),
        lefts_nonneg(s.drop_first()),
{
    let t = s.drop_first();
    assert forall|i: int, j: int| 0 <= i <= j < t.len() implies #[trigger] t[i].due <= #[trigger] t[j].due by {
        assert(t[i] == s[i + 1]);
        assert(t[j] == s[j + 1]);
    }
    assert forall|i: int| 0 <= i < t.len() implies left_of(#[trigger] t[i].hw) >= 0 by {
        assert(t[i] == s[i + 1]);
    }
}

proof fn lemma_fill_day_pending(items: Seq<PlannedView>, load: int, day: int)
    requires
        sorted_by_due(items),
        lefts_nonneg(items),
        load >= 0,
    ensures
        fill_day(items, load, day) matches Some((_out, rest)) ==> {
            &&& sorted_by_due(rest)
            &&& lefts_nonneg(rest)
            &&& forall|m: int| #[trigger] left_before(rest, m) == max(left_before(items, m) - load, 0)
        },
    decreases items.len(),
{
    if load <= 0 {
        assert forall|m: int| #[trigger] left_before(items, m) == max(left_before(items, m) - load, 0) by {
            lemma_left_before_nonneg(items, m);
        }
    } else if items.len() > 0 {
        let first = handed_out(items[0], day);
        let left = left_of(first.hw);
        assert(left == left_of(items[0].hw));
        assert(first.due == items[0].due);
        lemma_sorted_tail(items);
        let tail = items.drop_first();
        if !fits_i16(left) {
        } else if left > load {
            if fits_i16(first.hw.progress + load) {
                let advanced = PlannedView {
                    hw: HomeworkView { progress: (first.hw.progress + load) as i16, ..first.hw },
                    due: first.due,
                };
                let rest = items.update(0, advanced);
                assert(rest.drop_first() =~= tail);
                assert(left_of(advanced.hw) == left - load);
                assert forall|i: int, j: int| 0 <= i <= j < rest.len() implies #[trigger] rest[i].due <= #[trigger] rest[j].due by {
                    assert(rest[i].due == items[i].due);
                    assert(rest[j].due == items[j].due);
                }
                assert forall|i: int| 0 <= i < rest.len() implies left_of(#[trigger] rest[i].hw) >= 0 by {
                    if i > 0 {
                        assert(rest[i] == items[i]);
                    }
                }
                assert forall|m: int| #[trigger] left_before(rest, m) == max(left_before(items, m) - load, 0) by {
                    lemma_left_before_nonneg(tail, m);
                    if items[0].due >= m {
                        assert forall|i: int| 0 <= i < tail.len() implies #[trigger] tail[i].due >= m by {
                            assert(tail[i] == items[i + 1]);
                            assert(items[0].due <= items[i + 1].due);
                        }
                        lemma_left_before_late(tail, m);
                    }
                }
            }
        } else if fits_i16(load - left) {
            lemma_fill_day_pending(tail, load - left, day);
            match fill_day(tail, load - left, day) {
                None => {},
                Some((_o, rest)) => {
                    assert forall|m: int| #[trigger] left_before(rest, m) == max(left_before(items, m) - load, 0) by {
                        assert(left_before(rest, m) == max(left_before(tail, m) - (load - left), 0));
                        lemma_left_before_nonneg(tail, m);
                        if items[0].due >= m {
                            assert forall|i: int| 0 <= i < tail.len() implies #[trigger] tail[i].due >= m by {
                                assert(tail[i] == items[i + 1]);
                                assert(items[0].due <= items[i + 1].due);
                            }
                            lemma_left_before_late(tail, m);
                        }
                    }
                },
            }
        }
    }
}

proof fn lemma_insert_pos_bounds(t: Seq<PlannedView>, due: int)
    requires
        sorted_by_due(t),
    ensures
        0 <= insert_pos(t, due) <= t.len(),
        forall|i: int| 0 <= i < insert_pos(t, due) ==> #[trigger] t[i].due <= due,
        forall|i: int| insert_pos(t, due) <= i < t.len() ==> #[trigger] t[i].due > due,
    decreases t.len(),
{
    if t.len() > 0 {
        if t[0].due > due {
            assert forall|i: int| 0 <= i < t.len() implies #[trigger] t[i].due > due by {
                assert(t[0].due <= t[i].due);
            }
        } else {
            let u = t.drop_first();
            assert(sorted_by_due(u)) by {
                assert forall|i: int, j: int| 0 <= i <= j < u.len() implies #[trigger] u[i].due <= #[trigger] u[j].due by {
                    assert(u[i] == t[i + 1]);
                    assert(u[j] == t[j + 1]);
                }
            }
            lemma_insert_pos_bounds(u, due);
            assert forall|i: int| 0 <= i < insert_pos(t, due) implies #[trigger] t[i].due <= due by {
                if i > 0 {
                    assert(t[i] == u[i - 1]);
                }
            }
            assert forall|i: int| insert_pos(t, due) <= i < t.len() implies #[trigger] t[i].due > due by {
                assert(t[i] == u[i - 1]);
            }
        }
    }
}

proof fn lemma_left_before_insert(t: Seq<PlannedView>, p: int, x: PlannedView, m: int)
    requires
        0 <= p <= t.len(),
    ensures
        left_before(t.insert(p, x), m) == left_before(t, m) + (if x.due < m {
            left_of(x.hw)
        } else {
            0
        }),
    decreases t.len(),
{
    let u = t.insert(p, x);
    if p == 0 {
        assert(u.drop_first() =~= t);
    } else {
        assert(u[0] == t[0]);
        assert(u.drop_first() =~= t.drop_first().insert(p - 1, x));
        lemma_left_before_insert(t.drop_first(), p - 1, x, m);
    }
}

proof fn lemma_sort_by_due(s: Seq<PlannedView>)
    requires
        lefts_nonneg(s),
        forall|i: int| 0 <= i < s.len() ==> #[trigger] s[i].due >= 0,
    ensures
        sort_by_due(s).len() == s.len(),
        sorted_by_due(sort_by_due(s)),
        lefts_nonneg(sort_by_due(s)),
        forall|m: int| #[trigger] left_before(sort_by_due(s), m) == due_by(s, m),
    decreases s.len(),
{
    if s.len() == 0 {
        assert forall|m: int| #[trigger] left_before(sort_by_due(s), m) == due_by(s, m) by {}
    } else {
        let front = s.drop_last();
        assert(lefts_nonneg(front)) by {
            assert forall|i: int| 0 <= i < front.len() implies left_of(#[trigger] front[i].hw) >= 0 by {
                assert(front[i] == s[i]);
            }
        }
        assert forall|i: int| 0 <= i < front.len() implies #[trigger] front[i].due >= 0 by {
            assert(front[i] == s[i]);
        }
        lemma_sort_by_due(front);
        let t = sort_by_due(front);
        let x = s.last();
        assert(x == s[s.len() - 1]);
        assert(left_of(x.hw) >= 0);
        lemma_insert_pos_bounds(t, x.due);
        let p = insert_pos(t, x.due);
        let u = t.insert(p, x);
        assert(sort_by_due(s) == u);
        assert forall|i: int, j: int| 0 <= i <= j < u.len() implies #[trigger] u[i].due <= #[trigger] u[j].due by {
            if i < p {
                assert(u[i] == t[i]);
            } else if i == p {
                assert(u[i] == x);
            } else {
                assert(u[i] == t[i - 1]);
            }
            if j < p {
                assert(u[j] == t[j]);
            } else if j == p {
                assert(u[j] == x);
            } else {
                assert(u[j] == t[j - 1]);
            }
        }
        assert forall|i: int| 0 <= i < u.len() implies left_of(#[trigger] u[i].hw) >= 0 by {
            if i < p {
                assert(u[i] == t[i]);
            } else if i > p {
                assert(u[i] == t[i - 1]);
            }
        }
        assert forall|m: int| #[trigger] left_before(sort_by_due(s), m) == due_by(s, m) by {
            lemma_left_before_insert(t, p, x, m);
            assert(left_before(t, m) == due_by(front, m));
        }
    }
}

/// The items still to hand out once days `day ..= k` of the distributed
/// plan `dist` have been filled from `items`.
pub open spec fn pending_after(items: Seq<PlannedView>, dist: Seq<(int, int)>, day: int, k: int) -> Option<
    Seq<PlannedView>,
>
    decreases k + 1 - day,
{
    if day > k || day < 0 || day >= dist.len() {
        Some(items)
    } else {
        match fill_day(items, (dist[day].1 as i16) as int, day) {
            None => None,
            Some((_out, rest)) => pending_after(rest, dist, day + 1, k),
        }
    }
}

proof fn lemma_pending_after_some(items: Seq<PlannedView>, dist: Seq<(int, int)>, day: int, k: int)
    requires
        0 <= day,
        fill_days(items, dist, day) is Some,
    ensures
        pending_after(items, dist, day, k) is Some,
    decreases k + 1 - day,
{
    if day <= k && day < dist.len() {
        match fill_day(items, (dist[day].1 as i16) as int, day) {
            None => {},
            Some((_out, rest)) => {
                lemma_pending_after_some(rest, dist, day + 1, k);
            },
        }
    }
}

proof fn lemma_pending_after_left(items: Seq<PlannedView>, dist: Seq<(int, int)>, day: int, k: int)
    requires
        0 <= day,
        k < dist.len(),
        sorted_by_due(items),
        lefts_nonneg(items),
        forall|d: int| 0 <= d < dist.len() ==> 0 <= #[trigger] dist[d].1 <= i16::MAX,
    ensures
        pending_after(items, dist, day, k) matches Some(p) ==> {
            &&& sorted_by_due(p)
            &&& lefts_nonneg(p)
            &&& forall|m: int| #[trigger] left_before(p, m) == max(left_before(items, m) - load_sum(dist, day, k + 1), 0)
        },
    decreases k + 1 - day,
{
    if day > k {
        assert forall|m: int| #[trigger] left_before(items, m) == max(left_before(items, m) - load_sum(dist, day, k + 1), 0) by {
            lemma_left_before_nonneg(items, m);
        }
    } else {
        let load = dist[day].1;
        assert((load as i16) as int == load);
        lemma_fill_day_pending(items, load, day);
        match fill_day(items, load, day) {
            None => {},
            Some((_out, rest)) => {
                lemma_pending_after_left(rest, dist, day + 1, k);
                match pending_after(rest, dist, day + 1, k) {
                    None => {},
                    Some(p) => {
                        lemma_load_sum_front(dist, day, k + 1);
                        lemma_load_sum_nonneg(dist, day + 1, k + 1);
                        assert forall|m: int| #[trigger] left_before(p, m) == max(
                            left_before(items, m) - load_sum(dist, day, k + 1),
                            0,
                        ) by {
                            assert(left_before(rest, m) == max(left_before(items, m) - load, 0));
                            assert(left_before(p, m) == max(left_before(rest, m) - load_sum(dist, day + 1, k + 1), 0));
                        }
                    },
                }
            },
        }
    }
}

/// The planned items of `all` and the distributed plan the homework is
/// handed out from, as [`schedule_of`] computes them.
pub open spec fn plan_inputs(all: Seq<HomeworkView>, weights: Seq<i16>, today: int) -> Option<
    (Seq<PlannedView>, Seq<(int, int)>),
> {
    if today >= MAX_DAY {
        None
    } else {
        let last = horizon_date(all, today);
        match expand_all(all, today, last) {
            None => None,
            Some((items, furthest)) => {
                let n = max(days_apart(last, today), furthest);
                match add_workload(Seq::new(n as nat, |i: int| 0int), items) {
                    None => None,
                    Some(wl) => match day_slots(today, weights, wl) {
                        None => None,
                        Some(slots) => match distributed(slots) {
                            None => None,
                            Some(dist) => Some((items, dist)),
                        },
                    },
                }
            },
        }
    }
}

/// Nothing is left past its due day. Where no weekday weight is negative,
/// today's weekday has a weight of at least one, no dated homework has more progress than amount, and what is left
/// of all the planned items fits in an `i16`: once the homework of days
/// `0 ..= k` of the plan has been handed out, every item (in the order the
/// plan takes them) that is due by the end of day `k` has nothing left.
pub proof fn plan_leaves_nothing_late(all: Seq<HomeworkView>, weights: Seq<i16>, today: int)
    requires
        forall|i: int| 0 <= i < weights.len() ==> #[trigger] weights[i] >= 0,
        weekday_number(today) < weights.len(),
        weights[weekday_number(today)] >= 1,
        dated_within_amount(all),
    ensures
        schedule_of(all, weights, today) matches Some(plan) ==> (plan_inputs(all, weights, today) matches Some(
            (items, dist),
        ) && (total_left(items) <= i16::MAX ==> forall|k: int|
            0 <= k < plan.len() ==> (#[trigger] pending_after(sort_by_due(items), dist, 0, k) matches Some(p) && forall|i: int|
                0 <= i < p.len() && p[i].due <= k ==> left_of(#[trigger] p[i].hw) == 0))),
{
    if today < MAX_DAY {
        let last = horizon_date(all, today);
        match expand_all(all, today, last) {
            None => {},
            Some((items, furthest)) => {
                lemma_expand_all_lefts(all, today, last);
                let n = max(days_apart(last, today), furthest);
                let zeros = Seq::new(n as nat, |i: int| 0int);
                lemma_add_workload_sums(zeros, items);
                match add_workload(zeros, items) {
                    None => {},
                    Some(wl) => {
                        lemma_day_slots_loads(today, weights, wl);
                        match day_slots(today, weights, wl) {
                            None => {},
                            Some(slots) => {
                                match distributed(slots) {
                                    None => {},
                                    Some(dist) => {
                                        if load_sum_fits(dist, 0, dist.len() as int) && total_left(items) <= i16::MAX {
                                            lemma_slots_weights(today, weights, slots);
                                            lemma_plan_on_time_parts(items, n, zeros, wl, slots, dist);
                                            let sorted = sort_by_due(items);
                                            lemma_sort_by_due(items);
                                            lemma_fill_days_totals(sorted, dist, 0);
                                            match fill_days(sorted, dist, 0) {
                                                None => {},
                                                Some(plan) => {
                                                    assert forall|k: int| 0 <= k < plan.len() implies (
                                                    #[trigger] pending_after(sorted, dist, 0, k) matches Some(p)
                                                        && forall|i: int|
                                                        0 <= i < p.len() && p[i].due <= k ==> left_of(
                                                            #[trigger] p[i].hw,
                                                        ) == 0) by {
                                                        lemma_pending_after_some(sorted, dist, 0, k);
                                                        lemma_pending_after_left(sorted, dist, 0, k);
                                                        let p = pending_after(sorted, dist, 0, k)->0;
                                                        assert(left_before(p, k + 1) == max(
                                                            left_before(sorted, k + 1) - load_sum(dist, 0, k + 1),
                                                            0,
                                                        ));
                                                        assert(left_before(sorted, k + 1) == due_by(items, k + 1));
                                                        assert(load_sum(dist, 0, k + 1) >= due_by(items, k + 1));
                                                        assert(left_before(p, k + 1) == 0);
                                                        assert forall|i: int|
                                                            0 <= i < p.len() && p[i].due <= k implies left_of(
                                                            #[trigger] p[i].hw,
                                                        ) == 0 by {
                                                            lemma_left_before_item(p, k + 1, i);
                                                        }
                                                    }
                                                },
                                            }
                                        }
                                    },
                                }
                            },
                        }
                    },
                }
            },
        }
    }
}

proof fn lemma_left_before_item(s: Seq<PlannedView>, m: int, i: int)
    requires
        lefts_nonneg(s),
        0 <= i < s.len(),
        s[i].due < m,
    ensures
        left_before(s, m) >= left_of(s[i].hw),
    decreases s.len(),
{
    lemma_tail_lefts_nonneg(s);
    lemma_left_before_nonneg(s.drop_first(), m);
    if i > 0 {
        assert(s.drop_first()[i - 1] == s[i]);
        lemma_left_before_item(s.drop_first(), m, i - 1);
    }
    assert(left_of(s[0].hw) >= 0);
}

proof fn lemma_tail_lefts_nonneg(s: Seq<PlannedView>)
    requires
        s.len() > 0,
        lefts_nonneg(s),
    ensures
        lefts_nonneg(s.drop_first()),
{
    let t = s.drop_first();
    assert forall|i: int| 0 <= i < t.len() implies left_of(#[trigger] t[i].hw) >= 0 by {
        assert(t[i] == s[i + 1]);
    }
}

// ---------------------------------------------------------------------------
// The shape of the plan
// ---------------------------------------------------------------------------

/// Every homework is dated.
pub open spec fn all_dated(all: Seq<HomeworkView>) -> bool {
    forall|i: int| 0 <= i < all.len() ==> #[trigger] all[i].due_date is Date
}

proof fn lemma_fill_day_delta(items: Seq<PlannedView>, load: int, day: int)
    requires
        day != 0,
    ensures
        fill_day(items, load, day) matches Some((out, _rest)) ==> forall|j: int|
            0 <= j < out.len() ==> (#[trigger] out[j]).hw.delta == 0,
    decreases items.len(),
{
    if load > 0 && items.len() > 0 {
        let first = handed_out(items[0], day);
        let left = left_of(first.hw);
        if fits_i16(left) && left <= load && fits_i16(load - left) {
            lemma_fill_day_delta(items.drop_first(), load - left, day);
            match fill_day(items.drop_first(), load - left, day) {
                None => {},
                Some((o, _r)) => {
                    let out = seq![DailyView { hw: first.hw, amount: left }] + o;
                    assert forall|j: int| 0 <= j < out.len() implies (#[trigger] out[j]).hw.delta == 0 by {
                        if j > 0 {
                            assert(out[j] == o[j - 1]);
                        }
                    }
                },
            }
        }
    }
}

proof fn lemma_fill_days_shape(items: Seq<PlannedView>, dist: Seq<(int, int)>, day: int)
    requires
        0 <= day <= dist.len(),
    ensures
        fill_days(items, dist, day) matches Some(plan) ==> {
            &&& plan.len() == dist.len() - day
            &&& forall|i: int| 0 <= i < plan.len() ==> (#[trigger] plan[i]).0 == day + i
            &&& forall|i: int, j: int|
                0 <= i < plan.len() && day + i != 0 && 0 <= j < plan[i].1.len() ==> (#[trigger] plan[i].1[j]).hw.delta == 0
        },
    decreases dist.len() - day,
{
    if day < dist.len() {
        let load = (dist[day].1 as i16) as int;
        match fill_day(items, load, day) {
            None => {},
            Some((out, rest)) => {
                if day != 0 {
                    lemma_fill_day_delta(items, load, day);
                }
                lemma_fill_days_shape(rest, dist, day + 1);
                match fill_days(rest, dist, day + 1) {
                    None => {},
                    Some(more) => {
                        let plan = seq![(day, out)] + more;
                        assert forall|i: int| 0 <= i < plan.len() implies (#[trigger] plan[i]).0 == day + i by {
                            if i > 0 {
                                assert(plan[i] == more[i - 1]);
                            }
                        }
                        assert forall|i: int, j: int|
                            0 <= i < plan.len() && day + i != 0 && 0 <= j < plan[i].1.len() implies (
                            #[trigger] plan[i].1[j]).hw.delta == 0 by {
                            if i > 0 {
                                assert(plan[i] == more[i - 1]);
                            } else {
                                assert(plan[i].1 == out);
                            }
                        }
                    },
                }
            },
        }
    }
}

proof fn lemma_expand_all_dated(all: Seq<HomeworkView>, today: int, last: int)
    requires
        all_dated(all),
    ensures
        expand_all(all, today, last) matches Some((items, furthest)) ==> {
            &&& furthest == -1
            &&& items.len() == all.len()
            &&& forall|i: int| 0 <= i < items.len() ==> (#[trigger] items[i]).hw == all[i]
        },
    decreases all.len(),
{
    if all.len() > 0 {
        let front = all.drop_last();
        assert(all_dated(front)) by {
            assert forall|i: int| 0 <= i < front.len() implies #[trigger] front[i].due_date is Date by {
                assert(front[i] == all[i]);
            }
        }
        lemma_expand_all_dated(front, today, last);
        assert(all[all.len() - 1].due_date is Date);
        match expand_all(front, today, last) {
            None => {},
            Some((xs, _fx)) => match expand_item(all.last(), today, last) {
                None => {},
                Some((ys, _fy)) => {
                    let items = xs + ys;
                    assert forall|i: int| 0 <= i < items.len() implies (#[trigger] items[i]).hw == all[i] by {
                        if i < xs.len() {
                            assert(items[i] == xs[i]);
                            assert(front[i] == all[i]);
                        } else {
                            assert(items[i] == ys[0]);
                        }
                    }
                },
            },
        }
    }
}

/// The plan has one entry per day, numbered from `0` (today), and shows a
/// homework's delta only on the first day. It runs to the horizon or to the
/// furthest repeating occurrence, whichever is later; when every homework
/// is dated it runs from today to the day before the latest due date.
pub proof fn plan_shape(all: Seq<HomeworkView>, weights: Seq<i16>, today: int)
    ensures
        schedule_of(all, weights, today) matches Some(plan) ==> {
            &&& forall|i: int| 0 <= i < plan.len() ==> (#[trigger] plan[i]).0 == i
            &&& forall|i: int, j: int|
                1 <= i < plan.len() && 0 <= j < plan[i].1.len() ==> (#[trigger] plan[i].1[j]).hw.delta == 0
            &&& expand_all(all, today, horizon_date(all, today)) matches Some((_items, furthest)) && plan.len() == max(
                days_apart(horizon_date(all, today), today),
                furthest,
            )
            &&& all_dated(all) ==> plan.len() == days_apart(horizon_date(all, today), today)
        },
{
    if today < MAX_DAY {
        let last = horizon_date(all, today);
        lemma_expand_all_dated_if(all, today, last);
        match expand_all(all, today, last) {
            None => {},
            Some((items, furthest)) => {
                let n = max(days_apart(last, today), furthest);
                let zeros = Seq::new(n as nat, |i: int| 0int);
                lemma_add_workload_sums(zeros, items);
                match add_workload(zeros, items) {
                    None => {},
                    Some(wl) => {
                        lemma_day_slots_loads(today, weights, wl);
                        match day_slots(today, weights, wl) {
                            None => {},
                            Some(slots) => {
                                distribute_keeps_weights(slots);
                                match distributed(slots) {
                                    None => {},
                                    Some(dist) => {
                                        if load_sum_fits(dist, 0, dist.len() as int) {
                                            lemma_fill_days_shape(sort_by_due(items), dist, 0);
                                        }
                                    },
                                }
                            },
                        }
                    },
                }
            },
        }
    }
}

proof fn lemma_expand_all_dated_if(all: Seq<HomeworkView>, today: int, last: int)
    ensures
        all_dated(all) ==> (expand_all(all, today, last) matches Some((_items, furthest)) ==> furthest == -1),
{
    if all_dated(all) {
        lemma_expand_all_dated(all, today, last);
    }
}

/// Without homework the plan is one empty day: today, with nothing to do,
/// on every day the calendar goes past and whose weekday has a weight.
pub proof fn empty_plan(weights: Seq<i16>, today: int)
    requires
        MIN_DAY <= today < MAX_DAY,
        weekday_number(today) < weights.len(),
    ensures
        schedule_of(Seq::<HomeworkView>::empty(), weights, today) == Some(seq![(0int, Seq::<DailyView>::empty())]),
{
    let all = Seq::<HomeworkView>::empty();
    assert(latest_date(all) is None);
    let last = horizon_date(all, today);
    assert(last == today + 1);
    assert(expand_all(all, today, last) == Some((Seq::<PlannedView>::empty(), -1int)));
    let n = max(days_apart(last, today), -1);
    assert(n == 1);
    let zeros = Seq::new(1nat, |i: int| 0int);
    assert(add_workload(zeros, Seq::<PlannedView>::empty()) == Some(zeros));
    let w = weights[weekday_number(today)] as int;
    assert(day_slots(today, weights, zeros.drop_last()) == Some(Seq::<(int, int)>::empty())) by {
        assert(zeros.drop_last().len() == 0);
    }
    assert(weekday_number(today + 0) == weekday_number(today));
    let slots = seq![(w, 0int)];
    assert(day_slots(today, weights, zeros) == Some(slots)) by {
        assert(Seq::<(int, int)>::empty().push((w, zeros[0])) =~= slots);
    }
    let s0 = slots.update(0, (w, 0int));
    assert(s0 =~= slots);
    assert(search(slots, 0, 0, 0, 0) == Some(slots)) by {
        if w >= 1 {
            lemma_tdiv_zero(w);
            assert(partial_load(w, 0, 0) == 0) by (nonlinear_arith)
                requires
                    tdiv(0int, w) == 0,
                    tmod(0int, w) == 0,
            ;
            assert(load_sum(slots, 1, 1) == 0);
            assert(weight_sum(slots, 0, 1) == w) by {
                assert(weight_sum(slots, 0, 0) == 0);
            }
            assert(max_share(slots, 1, 1) == 0);
            assert(window_load(slots, 0, 0, 0, 0) == 0);
            assert(window_len(slots, 0, 0, 0) == w);
            assert(load_sum_fits(slots, 1, 1)) by {
                assert forall|k: int| 1 <= k <= 1 implies fits_i32(#[trigger] load_sum(slots, 1, k)) by {}
            }
            assert(weight_sum_fits(slots, 0, 1)) by {
                assert forall|k: int| 0 <= k <= 1 implies fits_i32(#[trigger] weight_sum(slots, 0, k)) by {
                    if k == 1 {
                        assert(weight_sum(slots, 0, 0) == 0);
                    }
                }
            }
            assert(shares_ok(slots, 1, 1));
            assert(w * 0 == 0) by (nonlinear_arith);
            assert(window_ok(slots, 0, 0, 0, 0));
            assert(window_fits(slots, 0, 0, 0, 0));
            assert(0 * (w - 0) == 0) by (nonlinear_arith);
            let s1 = slots.update(0, (w, 0int));
            assert(s1 =~= slots);
            assert(scale_tail(s1, 1, 1, 0) == Some(s1));
            assert(min(w, 0) == 0);
            assert(spread(s1, 0, 1, 0) == Some(slots)) by {
                assert(s1.update(0, (s1[0].0, s1[0].1 + 0)) =~= slots);
            }
            assert(level_window(slots, 0, 0, 0, 0) == Some(slots));
        } else {
            assert(search(slots, 0, 0, 1, 0) == Some(slots));
        }
    }
    assert(day_step(slots, 0) == Some(slots));
    assert(distribute_from(slots, 1) == Some(slots));
    assert(distributed(slots) == Some(slots));
    assert(load_sum_fits(slots, 0, 1)) by {
        assert forall|k: int| 0 <= k <= 1 implies fits_i32(#[trigger] load_sum(slots, 0, k)) by {
            if k == 1 {
                assert(load_sum(slots, 0, 0) == 0);
            }
        }
    }
    assert(sort_by_due(Seq::<PlannedView>::empty()) == Seq::<PlannedView>::empty());
    assert(((slots[0].1 as i16) as int) == 0);
    assert(fill_day(Seq::<PlannedView>::empty(), 0, 0) == Some((Seq::<DailyView>::empty(), Seq::<PlannedView>::empty())));
    assert(fill_days(Seq::<PlannedView>::empty(), slots, 1) == Some(Seq::<(int, Seq<DailyView>)>::empty()));
    assert(fill_days(Seq::<PlannedView>::empty(), slots, 0) == Some(seq![(0int, Seq::<DailyView>::empty())])) by {
        assert(seq![(0int, Seq::<DailyView>::empty())] + Seq::<(int, Seq<DailyView>)>::empty() =~= seq![
            (0int, Seq::<DailyView>::empty()),
        ]);
    }
}

proof fn lemma_tdiv_zero(w: int)
    requires
        w >= 1,
    ensures
        tdiv(0, w) == 0,
        tmod(0, w) == 0,
{
    assert(0int / w == 0) by (nonlinear_arith)
        requires
            w >= 1,
    ;
    assert(w * 0 == 0) by (nonlinear_arith);
}

// ---------------------------------------------------------------------------
// Each homework's remaining work is planned exactly once
// ---------------------------------------------------------------------------

/// What is left of the items of homework `id`.
pub open spec fn left_for(s: Seq<PlannedView>, id: i32) -> int
    decreases s.len(),
{
    if s.len() == 0 {
        0
    } else {
        (if s[0].hw.db_id == id {
            left_of(s[0].hw)
        } else {
            0
        }) + left_for(s.drop_first(), id)
    }
}

/// The amount of homework `id` in one day's list.
pub open spec fn handed_for(out: Seq<DailyView>, id: i32) -> int
    decreases out.len(),
{
    if out.len() == 0 {
        0
    } else {
        (if out[0].hw.db_id == id {
            out[0].amount
        } else {
            0
        }) + handed_for(out.drop_first(), id)
    }
}

/// The amount of homework `id` a plan hands out over all its days.
pub open spec fn planned_for(plan: Seq<(int, Seq<DailyView>)>, id: i32) -> int
    decreases plan.len(),
{
    if plan.len() == 0 {
        0
    } else {
        handed_for(plan[0].1, id) + planned_for(plan.drop_first(), id)
    }
}

/// No two homework share an id.
pub open spec fn ids_distinct(all: Seq<HomeworkView>) -> bool {
    forall|i: int, j: int| 0 <= i < j < all.len() ==> (#[trigger] all[i]).db_id != (#[trigger] all[j]).db_id
}

proof fn lemma_fill_day_accounts(items: Seq<PlannedView>, load: int, day: int)
    ensures
        fill_day(items, load, day) matches Some((out, rest)) ==> forall|id: i32|
            #[trigger] left_for(items, id) == handed_for(out, id) + left_for(rest, id),
    decreases items.len(),
{
    if load <= 0 {
        assert forall|id: i32| #[trigger] left_for(items, id) == handed_for(Seq::<DailyView>::empty(), id) + left_for(
            items,
            id,
        ) by {}
    } else if items.len() > 0 {
        let first = handed_out(items[0], day);
        let left = left_of(first.hw);
        let tail = items.drop_first();
        if !fits_i16(left) {
        } else if left > load {
            if fits_i16(first.hw.progress + load) {
                let advanced = PlannedView {
                    hw: HomeworkView { progress: (first.hw.progress + load) as i16, ..first.hw },
                    due: first.due,
                };
                let rest = items.update(0, advanced);
                let out = seq![DailyView { hw: first.hw, amount: load }];
                assert(rest.drop_first() =~= tail);
                assert(out.drop_first() =~= Seq::<DailyView>::empty());
                assert forall|id: i32| #[trigger] left_for(items, id) == handed_for(out, id) + left_for(rest, id) by {
                    assert(handed_for(Seq::<DailyView>::empty(), id) == 0);
                }
            }
        } else if fits_i16(load - left) {
            lemma_fill_day_accounts(tail, load - left, day);
            match fill_day(tail, load - left, day) {
                None => {},
                Some((o, rest)) => {
                    let out = seq![DailyView { hw: first.hw, amount: left }] + o;
                    assert(out.drop_first() =~= o);
                    assert forall|id: i32| #[trigger] left_for(items, id) == handed_for(out, id) + left_for(rest, id) by {
                        assert(left_for(tail, id) == handed_for(o, id) + left_for(rest, id));
                    }
                },
            }
        }
    }
}

proof fn lemma_fill_days_accounts(items: Seq<PlannedView>, dist: Seq<(int, int)>, day: int)
    requires
        0 <= day <= dist.len(),
    ensures
        fill_days(items, dist, day) matches Some(plan) ==> (pending_after(items, dist, day, dist.len() - 1) matches Some(
            p,
        ) && forall|id: i32| #[trigger] left_for(items, id) == planned_for(plan, id) + left_for(p, id)),
    decreases dist.len() - day,
{
    if day >= dist.len() {
        assert forall|id: i32| #[trigger] left_for(items, id) == planned_for(Seq::<(int, Seq<DailyView>)>::empty(), id)
            + left_for(items, id) by {}
    } else {
        let load = (dist[day].1 as i16) as int;
        lemma_fill_day_accounts(items, load, day);
        match fill_day(items, load, day) {
            None => {},
            Some((out, rest)) => {
                lemma_fill_days_accounts(rest, dist, day + 1);
                match fill_days(rest, dist, day + 1) {
                    None => {},
                    Some(more) => {
                        let plan = seq![(day, out)] + more;
                        assert(plan.drop_first() =~= more);
                        let p = pending_after(rest, dist, day + 1, dist.len() - 1)->0;
                        assert forall|id: i32| #[trigger] left_for(items, id) == planned_for(plan, id) + left_for(p, id) by {
                            assert(left_for(items, id) == handed_for(out, id) + left_for(rest, id));
                            assert(left_for(rest, id) == planned_for(more, id) + left_for(p, id));
                        }
                    },
                }
            },
        }
    }
}

proof fn lemma_fill_day_dues(items: Seq<PlannedView>, load: int, day: int, m: int)
    requires
        forall|i: int| 0 <= i < items.len() ==> #[trigger] items[i].due < m,
    ensures
        fill_day(items, load, day) matches Some((_out, rest)) ==> forall|i: int|
            0 <= i < rest.len() ==> #[trigger] rest[i].due < m,
    decreases items.len(),
{
    if load > 0 && items.len() > 0 {
        let tail = items.drop_first();
        assert forall|i: int| 0 <= i < tail.len() implies #[trigger] tail[i].due < m by {
            assert(tail[i] == items[i + 1]);
        }
        let first = handed_out(items[0], day);
        let left = left_of(first.hw);
        if fits_i16(left) && left > load && fits_i16(first.hw.progress + load) {
            let advanced = PlannedView {
                hw: HomeworkView { progress: (first.hw.progress + load) as i16, ..first.hw },
                due: first.due,
            };
            let rest = items.update(0, advanced);
            assert forall|i: int| 0 <= i < rest.len() implies #[trigger] rest[i].due < m by {
                assert(rest[i].due == items[i].due);
            }
        } else {
            lemma_fill_day_dues(tail, load - left, day, m);
        }
    }
}

proof fn lemma_pending_after_dues(items: Seq<PlannedView>, dist: Seq<(int, int)>, day: int, k: int, m: int)
    requires
        forall|i: int| 0 <= i < items.len() ==> #[trigger] items[i].due < m,
    ensures
        pending_after(items, dist, day, k) matches Some(p) ==> forall|i: int| 0 <= i < p.len() ==> #[trigger] p[i].due < m,
    decreases k + 1 - day,
{
    if !(day > k || day < 0 || day >= dist.len()) {
        let load = (dist[day].1 as i16) as int;
        lemma_fill_day_dues(items, load, day, m);
        match fill_day(items, load, day) {
            None => {},
            Some((_out, rest)) => {
                lemma_pending_after_dues(rest, dist, day + 1, k, m);
            },
        }
    }
}

proof fn lemma_left_for_bound(s: Seq<PlannedView>, m: int, id: i32)
    requires
        lefts_nonneg(s),
        forall|i: int| 0 <= i < s.len() ==> #[trigger] s[i].due < m,
    ensures
        0 <= left_for(s, id) <= left_before(s, m),
    decreases s.len(),
{
    if s.len() > 0 {
        let t = s.drop_first();
        lemma_tail_lefts_nonneg(s);
        assert forall|i: int| 0 <= i < t.len() implies #[trigger] t[i].due < m by {
            assert(t[i] == s[i + 1]);
        }
        lemma_left_for_bound(t, m, id);
        assert(left_of(s[0].hw) >= 0);
        assert(s[0].due < m);
    }
}

proof fn lemma_left_for_insert(t: Seq<PlannedView>, p: int, x: PlannedView, id: i32)
    requires
        0 <= p <= t.len(),
    ensures
        left_for(t.insert(p, x), id) == left_for(t, id) + (if x.hw.db_id == id {
            left_of(x.hw)
        } else {
            0
        }),
    decreases t.len(),
{
    let u = t.insert(p, x);
    if p == 0 {
        assert(u.drop_first() =~= t);
    } else {
        assert(u[0] == t[0]);
        assert(u.drop_first() =~= t.drop_first().insert(p - 1, x));
        lemma_left_for_insert(t.drop_first(), p - 1, x, id);
    }
}

proof fn lemma_left_for_last(s: Seq<PlannedView>, id: i32)
    requires
        s.len() > 0,
    ensures
        left_for(s, id) == left_for(s.drop_last(), id) + (if s.last().hw.db_id == id {
            left_of(s.last().hw)
        } else {
            0
        }),
    decreases s.len(),
{
    if s.len() > 1 {
        lemma_left_for_last(s.drop_first(), id);
        assert(s.drop_first().drop_last() =~= s.drop_last().drop_first());
        assert(s.drop_first().last() == s.last());
    } else {
        assert(s.drop_first() =~= Seq::<PlannedView>::empty());
        assert(s.drop_last() =~= Seq::<PlannedView>::empty());
    }
}

proof fn lemma_sort_left_for(s: Seq<PlannedView>, id: i32)
    ensures
        left_for(sort_by_due(s), id) == left_for(s, id),
    decreases s.len(),
{
    if s.len() > 0 {
        let t = sort_by_due(s.drop_last());
        lemma_sort_left_for(s.drop_last(), id);
        lemma_sort_by_due_len(s.drop_last());
        let x = s.last();
        let p = insert_pos(t, x.due);
        lemma_insert_pos_range(t, x.due);
        lemma_left_for_insert(t, p, x, id);
        lemma_left_for_last(s, id);
    }
}

proof fn lemma_sort_by_due_len(s: Seq<PlannedView>)
    ensures
        sort_by_due(s).len() == s.len(),
    decreases s.len(),
{
    if s.len() > 0 {
        lemma_sort_by_due_len(s.drop_last());
        lemma_insert_pos_range(sort_by_due(s.drop_last()), s.last().due);
    }
}

proof fn lemma_insert_pos_range(t: Seq<PlannedView>, due: int)
    ensures
        0 <= insert_pos(t, due) <= t.len(),
    decreases t.len(),
{
    if t.len() > 0 && t[0].due <= due {
        lemma_insert_pos_range(t.drop_first(), due);
    }
}

proof fn lemma_left_for_distinct(all: Seq<HomeworkView>, items: Seq<PlannedView>, k: int)
    requires
        ids_distinct(all),
        items.len() == all.len(),
        forall|i: int| 0 <= i < items.len() ==> (#[trigger] items[i]).hw == all[i],
        0 <= k < all.len(),
    ensures
        left_for(items, all[k].db_id) == all[k].amount - all[k].progress,
    decreases items.len(),
{
    let id = all[k].db_id;
    let rest = all.drop_first();
    let tail = items.drop_first();
    assert(ids_distinct(rest)) by {
        assert forall|i: int, j: int| 0 <= i < j < rest.len() implies (#[trigger] rest[i]).db_id != (
        #[trigger] rest[j]).db_id by {
            assert(rest[i] == all[i + 1]);
            assert(rest[j] == all[j + 1]);
        }
    }
    assert forall|i: int| 0 <= i < tail.len() implies (#[trigger] tail[i]).hw == rest[i] by {
        assert(tail[i] == items[i + 1]);
        assert(rest[i] == all[i + 1]);
    }
    if k == 0 {
        lemma_left_for_absent(rest, tail, id);
        assert(items[0].hw == all[0]);
    } else {
        assert(all[0].db_id != all[k].db_id);
        assert(items[0].hw == all[0]);
        assert(rest[k - 1] == all[k]);
        lemma_left_for_distinct(rest, tail, k - 1);
    }
}

proof fn lemma_left_for_absent(all: Seq<HomeworkView>, items: Seq<PlannedView>, id: i32)
    requires
        items.len() == all.len(),
        forall|i: int| 0 <= i < items.len() ==> (#[trigger] items[i]).hw == all[i],
        forall|i: int| 0 <= i < all.len() ==> (#[trigger] all[i]).db_id != id,
    ensures
        left_for(items, id) == 0,
    decreases items.len(),
{
    if items.len() > 0 {
        let rest = all.drop_first();
        let tail = items.drop_first();
        assert forall|i: int| 0 <= i < tail.len() implies (#[trigger] tail[i]).hw == rest[i] by {
            assert(tail[i] == items[i + 1]);
            assert(rest[i] == all[i + 1]);
        }
        assert forall|i: int| 0 <= i < rest.len() implies (#[trigger] rest[i]).db_id != id by {
            assert(rest[i] == all[i + 1]);
        }
        assert(items[0].hw == all[0]);
        lemma_left_for_absent(rest, tail, id);
    }
}

/// Each homework's remaining work is planned exactly once. Where no weekday
/// weight is negative, today's weekday has a weight of at least one, no
/// dated homework has more progress than amount, and what is left of all
/// the planned items fits in an `i16`: for every homework id, the amounts of
/// that homework over all days of the plan add up to what is left of its
/// planned items; when every homework is dated and no two share an id, that
/// is its amount less its progress.
pub proof fn plan_covers_each_homework(all: Seq<HomeworkView>, weights: Seq<i16>, today: int)
    requires
        forall|i: int| 0 <= i < weights.len() ==> #[trigger] weights[i] >= 0,
        weekday_number(today) < weights.len(),
        weights[weekday_number(today)] >= 1,
        dated_within_amount(all),
    ensures
        schedule_of(all, weights, today) matches Some(plan) ==> (plan_inputs(all, weights, today) matches Some(
            (items, _dist),
        ) && (total_left(items) <= i16::MAX ==> {
            &&& forall|id: i32| #[trigger] planned_for(plan, id) == left_for(items, id)
            &&& all_dated(all) && ids_distinct(all) ==> forall|k: int|
                0 <= k < all.len() ==> #[trigger] planned_for(plan, all[k].db_id) == all[k].amount - all[k].progress
        })),
{
    if today < MAX_DAY {
        let last = horizon_date(all, today);
        match expand_all(all, today, last) {
            None => {},
            Some((items, furthest)) => {
                lemma_expand_all_lefts(all, today, last);
                lemma_expand_all_dated_if(all, today, last);
                if all_dated(all) {
                    lemma_expand_all_dated(all, today, last);
                }
                let n = max(days_apart(last, today), furthest);
                let zeros = Seq::new(n as nat, |i: int| 0int);
                lemma_add_workload_sums(zeros, items);
                match add_workload(zeros, items) {
                    None => {},
                    Some(wl) => {
                        lemma_day_slots_loads(today, weights, wl);
                        match day_slots(today, weights, wl) {
                            None => {},
                            Some(slots) => {
                                match distributed(slots) {
                                    None => {},
                                    Some(dist) => {
                                        if load_sum_fits(dist, 0, dist.len() as int) && total_left(items) <= i16::MAX {
                                            lemma_slots_weights(today, weights, slots);
                                            lemma_plan_on_time_parts(items, n, zeros, wl, slots, dist);
                                            let sorted = sort_by_due(items);
                                            lemma_sort_by_due(items);
                                            lemma_fill_days_accounts(sorted, dist, 0);
                                            match fill_days(sorted, dist, 0) {
                                                None => {},
                                                Some(plan) => {
                                                    let k = dist.len() - 1;
                                                    let p = pending_after(sorted, dist, 0, k)->0;
                                                    lemma_sort_dues(items, n);
                                                    lemma_pending_after_dues(sorted, dist, 0, k, n);
                                                    if n > 0 {
                                                        lemma_pending_after_left(sorted, dist, 0, k);
                                                        assert(left_before(sorted, k + 1) == due_by(items, k + 1));
                                                        lemma_due_by_all(items, n);
                                                        assert(left_before(p, n) == 0);
                                                    } else {
                                                        if items.len() > 0 {
                                                            assert(0 <= items[0].due < n);
                                                        }
                                                        lemma_sort_by_due_len(items);
                                                        assert(p.len() == 0);
                                                    }
                                                    assert forall|id: i32| #[trigger] planned_for(plan, id) == left_for(
                                                        items,
                                                        id,
                                                    ) by {
                                                        lemma_sort_left_for(items, id);
                                                        if n > 0 {
                                                            lemma_left_for_bound(p, n, id);
                                                        }
                                                    }
                                                    if all_dated(all) && ids_distinct(all) {
                                                        assert forall|j: int| 0 <= j < all.len() implies #[trigger] planned_for(
                                                            plan,
                                                            all[j].db_id,
                                                        ) == all[j].amount - all[j].progress by {
                                                            lemma_left_for_distinct(all, items, j);
                                                        }
                                                    }
                                                },
                                            }
                                        }
                                    },
                                }
                            },
                        }
                    },
                }
            },
        }
    }
}

proof fn lemma_sort_dues(s: Seq<PlannedView>, m: int)
    requires
        forall|i: int| 0 <= i < s.len() ==> #[trigger] s[i].due < m,
    ensures
        forall|i: int| 0 <= i < sort_by_due(s).len() ==> #[trigger] sort_by_due(s)[i].due < m,
    decreases s.len(),
{
    if s.len() > 0 {
        let front = s.drop_last();
        assert forall|i: int| 0 <= i < front.len() implies #[trigger] front[i].due < m by {
            assert(front[i] == s[i]);
        }
        lemma_sort_dues(front, m);
        let t = sort_by_due(front);
        let x = s.last();
        assert(x == s[s.len() - 1]);
        let p = insert_pos(t, x.due);
        lemma_insert_pos_range(t, x.due);
        let u = t.insert(p, x);
        assert forall|i: int| 0 <= i < u.len() implies #[trigger] u[i].due < m by {
            if i < p {
                assert(u[i] == t[i]);
            } else if i > p {
                assert(u[i] == t[i - 1]);
            }
        }
    }
}

// ---------------------------------------------------------------------------
// When there is a plan
// ---------------------------------------------------------------------------

/// What is left of all the homework: the sum of each amount less its
/// progress.
pub open spec fn total_remaining(all: Seq<HomeworkView>) -> int
    decreases all.len(),
{
    if all.len() == 0 {
        0
    } else {
        total_remaining(all.drop_last()) + (all.last().amount - all.last().progress)
    }
}

/// The due date of a dated homework (`0` for repeating homework).
pub open spec fn due_day(h: HomeworkView) -> int {
    match h.due_date {
        DueDate::Date(d) => d as int,
        DueDate::Repeat(_) => 0,
    }
}

/// The longest stretch of days a plan is shown to exist for: all the
/// weekday weights of that many days together still fit `i32`.
pub const MAX_PLAN_DAYS: i32 = 65536;

proof fn lemma_latest_date_bounds(all: Seq<HomeworkView>, today: int, b: int)
    requires
        all_dated(all),
        forall|i: int| 0 <= i < all.len() ==> today < #[trigger] due_day(all[i]) <= b,
    ensures
        all.len() == 0 ==> latest_date(all) is None,
        all.len() > 0 ==> (latest_date(all) matches Some(m) && today < m <= b && forall|i: int|
            0 <= i < all.len() ==> #[trigger] due_day(all[i]) <= m),
    decreases all.len(),
{
    if all.len() > 0 {
        let front = all.drop_last();
        assert(all_dated(front)) by {
            assert forall|i: int| 0 <= i < front.len() implies #[trigger] front[i].due_date is Date by {
                assert(front[i] == all[i]);
            }
        }
        assert forall|i: int| 0 <= i < front.len() implies today < #[trigger] due_day(front[i]) <= b by {
            assert(front[i] == all[i]);
        }
        lemma_latest_date_bounds(front, today, b);
        let k = all.len() - 1;
        assert(all[k].due_date is Date);
        assert(today < due_day(all[k]) <= b);
        let m = latest_date(all)->0;
        assert forall|i: int| 0 <= i < all.len() implies #[trigger] due_day(all[i]) <= m by {
            if i < k {
                assert(front[i] == all[i]);
            }
        }
    }
}

proof fn lemma_expand_all_dated_some(all: Seq<HomeworkView>, today: int, last: int)
    requires
        all_dated(all),
    ensures
        expand_all(all, today, last) matches Some((items, furthest)) && furthest == -1 && items.len() == all.len()
            && forall|i: int|
            0 <= i < items.len() ==> (#[trigger] items[i]).hw == all[i] && items[i].due == due_day(all[i]) - today - 1,
    decreases all.len(),
{
    if all.len() > 0 {
        let front = all.drop_last();
        assert(all_dated(front)) by {
            assert forall|i: int| 0 <= i < front.len() implies #[trigger] front[i].due_date is Date by {
                assert(front[i] == all[i]);
            }
        }
        lemma_expand_all_dated_some(front, today, last);
        let k = all.len() - 1;
        assert(all[k].due_date is Date);
        let (xs, _fx) = expand_all(front, today, last)->0;
        let (ys, _fy) = expand_item(all.last(), today, last)->0;
        let items = xs + ys;
        assert forall|i: int| 0 <= i < items.len() implies (#[trigger] items[i]).hw == all[i] && items[i].due == due_day(
            all[i],
        ) - today - 1 by {
            if i < xs.len() {
                assert(items[i] == xs[i]);
                assert(front[i] == all[i]);
            } else {
                assert(items[i] == ys[0]);
            }
        }
    }
}

proof fn lemma_total_left_items(all: Seq<HomeworkView>, items: Seq<PlannedView>)
    requires
        items.len() == all.len(),
        forall|i: int| 0 <= i < items.len() ==> (#[trigger] items[i]).hw == all[i],
    ensures
        total_left(items) == total_remaining(all),
    decreases items.len(),
{
    if items.len() > 0 {
        let fi = items.drop_last();
        let fa = all.drop_last();
        assert forall|i: int| 0 <= i < fi.len() implies (#[trigger] fi[i]).hw == fa[i] by {
            assert(fi[i] == items[i]);
            assert(fa[i] == all[i]);
        }
        lemma_total_left_items(fa, fi);
        assert(items[items.len() - 1].hw == all[all.len() - 1]);
    }
}

proof fn lemma_total_left_nonneg(items: Seq<PlannedView>)
    requires
        lefts_nonneg(items),
    ensures
        total_left(items) >= 0,
    decreases items.len(),
{
    if items.len() > 0 {
        let f = items.drop_last();
        assert(lefts_nonneg(f)) by {
            assert forall|i: int| 0 <= i < f.len() implies left_of(#[trigger] f[i].hw) >= 0 by {
                assert(f[i] == items[i]);
            }
        }
        lemma_total_left_nonneg(f);
        assert(left_of(items[items.len() - 1].hw) >= 0);
    }
}

proof fn lemma_seq_elem_le(w: Seq<int>, k: int, d: int)
    requires
        0 <= d < k <= w.len(),
        forall|i: int| 0 <= i < w.len() ==> #[trigger] w[i] >= 0,
    ensures
        0 <= w[d] <= seq_sum(w, k),
        seq_sum(w, k) >= 0,
    decreases k,
{
    if k - 1 > d {
        lemma_seq_elem_le(w, k - 1, d);
    } else {
        lemma_seq_sum_nonneg(w, k - 1);
    }
}

proof fn lemma_seq_sum_nonneg(w: Seq<int>, k: int)
    requires
        0 <= k <= w.len(),
        forall|i: int| 0 <= i < w.len() ==> #[trigger] w[i] >= 0,
    ensures
        seq_sum(w, k) >= 0,
    decreases k,
{
    if k > 0 {
        lemma_seq_sum_nonneg(w, k - 1);
    }
}

proof fn lemma_add_workload_some(n: nat, items: Seq<PlannedView>)
    requires
        lefts_nonneg(items),
        forall|i: int| 0 <= i < items.len() ==> 0 <= #[trigger] items[i].due < n,
        total_left(items) <= i16::MAX,
    ensures
        add_workload(Seq::new(n, |i: int| 0int), items) is Some,
    decreases items.len(),
{
    let zeros = Seq::new(n, |i: int| 0int);
    if items.len() > 0 {
        let front = items.drop_last();
        assert(lefts_nonneg(front)) by {
            assert forall|i: int| 0 <= i < front.len() implies left_of(#[trigger] front[i].hw) >= 0 by {
                assert(front[i] == items[i]);
            }
        }
        assert forall|i: int| 0 <= i < front.len() implies 0 <= #[trigger] front[i].due < n by {
            assert(front[i] == items[i]);
        }
        let k = items.len() - 1;
        assert(left_of(items[k].hw) >= 0);
        assert(0 <= items[k].due < n);
        lemma_total_left_nonneg(front);
        lemma_add_workload_some(n, front);
        lemma_add_workload_sums(zeros, front);
        let w1 = add_workload(zeros, front)->0;
        lemma_seq_sum_zeros(n, n as int);
        lemma_due_by_all(front, n as int);
        let e = items[k].due;
        lemma_seq_elem_le(w1, n as int, e);
    }
}

proof fn lemma_day_slots_some(today: int, weights: Seq<i16>, wl: Seq<int>)
    requires
        weights.len() >= 7,
        today + wl.len() - 1 <= MAX_DAY,
    ensures
        day_slots(today, weights, wl) is Some,
    decreases wl.len(),
{
    if wl.len() > 0 {
        lemma_day_slots_some(today, weights, wl.drop_last());
    }
}

proof fn lemma_fill_day_some(items: Seq<PlannedView>, load: int, day: int, m: int)
    requires
        lefts_nonneg(items),
        forall|i: int| 0 <= i < items.len() ==> #[trigger] items[i].due < m,
        0 <= load <= left_before(items, m),
        left_before(items, m) <= i16::MAX,
    ensures
        fill_day(items, load, day) is Some,
    decreases items.len(),
{
    if load > 0 {
        if items.len() == 0 {
            assert(left_before(items, m) == 0);
        } else {
            let tail = items.drop_first();
            lemma_tail_lefts_nonneg(items);
            lemma_left_before_nonneg(tail, m);
            assert(items[0].due < m);
            assert(left_of(items[0].hw) >= 0);
            let first = handed_out(items[0], day);
            let left = left_of(first.hw);
            if left <= load {
                assert forall|i: int| 0 <= i < tail.len() implies #[trigger] tail[i].due < m by {
                    assert(tail[i] == items[i + 1]);
                }
                lemma_fill_day_some(tail, load - left, day, m);
            }
        }
    }
}

proof fn lemma_fill_days_some(items: Seq<PlannedView>, dist: Seq<(int, int)>, day: int, m: int)
    requires
        0 <= day <= dist.len(),
        sorted_by_due(items),
        lefts_nonneg(items),
        forall|i: int| 0 <= i < items.len() ==> #[trigger] items[i].due < m,
        forall|d: int| 0 <= d < dist.len() ==> 0 <= #[trigger] dist[d].1 <= i16::MAX,
        load_sum(dist, day, dist.len() as int) <= left_before(items, m),
        left_before(items, m) <= i16::MAX,
    ensures
        fill_days(items, dist, day) is Some,
    decreases dist.len() - day,
{
    if day < dist.len() {
        let load = dist[day].1;
        assert((load as i16) as int == load);
        lemma_load_sum_front(dist, day, dist.len() as int);
        lemma_load_sum_nonneg_bounded(dist, day + 1, dist.len() as int);
        lemma_fill_day_some(items, load, day, m);
        lemma_fill_day_pending(items, load, day);
        lemma_fill_day_dues(items, load, day, m);
        let pair = fill_day(items, load, day)->0;
        let rest = pair.1;
        assert(left_before(rest, m) == left_before(items, m) - load);
        lemma_fill_days_some(rest, dist, day + 1, m);
    }
}

proof fn lemma_load_sum_nonneg_bounded(dist: Seq<(int, int)>, lo: int, hi: int)
    requires
        forall|d: int| 0 <= d < dist.len() ==> 0 <= #[trigger] dist[d].1 <= i16::MAX,
        0 <= lo,
        hi <= dist.len(),
    ensures
        load_sum(dist, lo, hi) >= 0,
    decreases hi - lo,
{
    if hi > lo {
        lemma_load_sum_nonneg_bounded(dist, lo, hi - 1);
    }
}

/// There is a plan for dated homework due after today, within
/// `MAX_PLAN_DAYS` days and by the last day the calendar holds, with no
/// progress below zero or above the amount and at most `i16::MAX` left
/// in all, with seven weekday weights none of which is negative and
/// today's at least one.
pub proof fn plan_exists(all: Seq<HomeworkView>, weights: Seq<i16>, today: int)
    requires
        MIN_DAY <= today < MAX_DAY,
        weights.len() >= 7,
        forall|i: int| 0 <= i < weights.len() ==> #[trigger] weights[i] >= 0,
        weights[weekday_number(today)] >= 1,
        all_dated(all),
        forall|i: int|
            0 <= i < all.len() ==> today < #[trigger] due_day(all[i]) <= today + MAX_PLAN_DAYS && due_day(all[i])
                <= MAX_DAY,
        forall|i: int| 0 <= i < all.len() ==> 0 <= (#[trigger] all[i]).progress <= all[i].amount,
        total_remaining(all) <= i16::MAX,
    ensures
        schedule_of(all, weights, today) is Some,
{
    let b = if today + MAX_PLAN_DAYS <= MAX_DAY {
        today + MAX_PLAN_DAYS
    } else {
        MAX_DAY as int
    };
    assert forall|i: int| 0 <= i < all.len() implies today < #[trigger] due_day(all[i]) <= b by {}
    lemma_latest_date_bounds(all, today, b);
    let last = horizon_date(all, today);
    assert(today < last <= b || (all.len() == 0 && last == today + 1));
    lemma_expand_all_dated_some(all, today, last);
    let (items, furthest) = expand_all(all, today, last)->0;
    let n = max(days_apart(last, today), furthest);
    assert(n == last - today);
    assert(1 <= n <= MAX_PLAN_DAYS);
    assert(lefts_nonneg(items)) by {
        assert forall|i: int| 0 <= i < items.len() implies left_of(#[trigger] items[i].hw) >= 0 by {
            assert(items[i].hw == all[i]);
            assert(0 <= all[i].progress <= all[i].amount);
        }
    }
    assert forall|i: int| 0 <= i < items.len() implies 0 <= #[trigger] items[i].due < n by {
        assert(items[i].due == due_day(all[i]) - today - 1);
        if all.len() > 0 {
            assert(due_day(all[i]) <= last);
        }
    }
    lemma_total_left_items(all, items);
    let zeros = Seq::new(n as nat, |i: int| 0int);
    lemma_add_workload_some(n as nat, items);
    lemma_add_workload_sums(zeros, items);
    let wl = add_workload(zeros, items)->0;
    lemma_day_slots_some(today, weights, wl);
    lemma_day_slots_loads(today, weights, wl);
    lemma_day_slots_len(today, weights, wl);
    let slots = day_slots(today, weights, wl)->0;
    lemma_slots_weights(today, weights, slots);
    lemma_total_left_nonneg(items);
    lemma_load_sum_seq_sum(slots, wl, n);
    lemma_seq_sum_zeros(n as nat, n);
    lemma_due_by_all(items, n);
    assert(total_load(slots) == total_left(items));
    assert(plan_in_range(slots)) by {
        assert forall|i: int| 0 <= i < slots.len() implies #[trigger] slots[i].0 <= MAX_WEIGHT by {
            let j = choose|j: int| 0 <= j < weights.len() && #[trigger] slots[i].0 == weights[j] as int;
        }
        assert(crate::distribute::loads_nonneg(slots)) by {
            assert forall|d: int| 0 <= d < slots.len() implies #[trigger] slots[d].1 >= 0 by {
                assert(wl[d] >= 0);
            }
        }
        assert(slots.len() * MAX_WEIGHT <= i32::MAX) by (nonlinear_arith)
            requires
                slots.len() <= MAX_PLAN_DAYS,
        ;
    }
    assert(loads_have_time(slots)) by {
        assert forall|j: int| 0 <= j < slots.len() implies #[trigger] slots[j].1 == 0 || weight_sum(slots, 0, j + 1) > 0 by {
            lemma_weight_sum_first(slots, j + 1);
        }
    }
    distribute_succeeds(slots);
    let dist = distributed(slots)->0;
    lemma_plan_on_time_parts(items, n, zeros, wl, slots, dist);
    assert(load_sum_fits(dist, 0, dist.len() as int)) by {
        distribute_keeps_total(slots);
        assert forall|k: int| 0 <= k <= dist.len() implies fits_i32(#[trigger] load_sum(dist, 0, k)) by {
            lemma_load_sum_le_total(dist, 0, k);
        }
    }
    let sorted = sort_by_due(items);
    lemma_sort_by_due(items);
    lemma_sort_dues(items, n);
    lemma_fill_days_some(sorted, dist, 0, n);
}

// ---------------------------------------------------------------------------
// Progress on repeating homework covers whole occurrences
// ---------------------------------------------------------------------------

/// How many weekly dates, from `date` on, come closer to `last` than the
/// one before (`prev` being the distance of the one before).
pub open spec fn weekly_dates(date: int, last: int, prev: int) -> nat
    decreases prev,
{
    let gap = days_apart(last, date);
    if !(prev > gap) {
        0
    } else {
        1 + weekly_dates(date + 7, last, gap)
    }
}

proof fn lemma_total_left_concat(a: Seq<PlannedView>, b: Seq<PlannedView>)
    ensures
        total_left(a + b) == total_left(a) + total_left(b),
    decreases b.len(),
{
    if b.len() == 0 {
        assert(a + b =~= a);
    } else {
        lemma_total_left_concat(a, b.drop_last());
        assert((a + b).drop_last() =~= a + b.drop_last());
        assert((a + b).last() == b.last());
    }
}

/// Progress on a repeating homework covers whole occurrences, oldest first:
/// of `n` weekly occurrences of a homework of positive amount `a`, with
/// progress `p` (not negative), what is left to plan is `n * a - p`, or
/// nothing once the progress covers them all.
pub proof fn repeat_progress_law(m: HomeworkView, date: int, last: int, progress: int, today: int, prev: int)
    requires
        m.amount >= 1,
        0 <= progress <= i16::MAX,
    ensures
        occurrences(m, date, last, progress, today, prev) matches Some((xs, _furthest)) ==> total_left(xs) == max(
            0,
            weekly_dates(date, last, prev) * m.amount - progress,
        ),
    decreases prev,
{
    let gap = days_apart(last, date);
    let a = m.amount as int;
    if !(prev > gap) {
        assert(total_left(Seq::<PlannedView>::empty()) == 0);
        assert(weekly_dates(date, last, prev) == 0);
        assert(0 * a == 0);
    } else {
        let n = weekly_dates(date, last, prev) as int;
        let n1 = weekly_dates(date + 7, last, gap) as int;
        assert(n == n1 + 1);
        let covered = progress >= m.amount;
        let next_progress = if covered {
            progress - m.amount
        } else {
            0
        };
        let here = if covered {
            seq![]
        } else {
            seq![occurrence(m, date, progress, today)]
        };
        if fits_i16(next_progress) && date + 7 <= MAX_DAY {
            repeat_progress_law(m, date + 7, last, next_progress, today, gap);
            match occurrences(m, date + 7, last, next_progress, today, gap) {
                None => {},
                Some((rest, _f)) => {
                    lemma_total_left_concat(here, rest);
                    assert(n * a == n1 * a + a) by (nonlinear_arith)
                        requires
                            n == n1 + 1,
                    ;
                    assert(n1 * a >= 0) by (nonlinear_arith)
                        requires
                            n1 >= 0,
                            a >= 1,
                    ;
                    if !covered {
                        let o = occurrence(m, date, progress, today);
                        assert(here.drop_last() =~= Seq::<PlannedView>::empty());
                        assert(here.last() == o);
                        assert(total_left(Seq::<PlannedView>::empty()) == 0);
                        assert(total_left(here) == left_of(o.hw));
                        assert(left_of(o.hw) == a - progress);
                        assert(total_left(rest) == n1 * a);
                        assert(total_left(here + rest) == n * a - progress);
                    } else {
                        assert(total_left(here) == 0);
                        assert(total_left(here + rest) == max(0, n1 * a - (progress - a)));
                    }
                },
            }
        }
    }
}

} // verus!
