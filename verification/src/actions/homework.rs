//! Homework: adding it, recording progress, and the rows that go with it.
use crate::auth::AuthUser;
use crate::models::homework::{AddHomeworkModel, NewHomeworkModel, ProgressHomeworkModel, UserHomework};
use crate::models::hw_progress::{ChangeProgressModel, HWProgressModel};
use crate::models::homework::DbHomeworkModel;
use crate::models::user::User;
use vstd::prelude::*;
use vstd::std_specs::convert::FromSpecImpl;

verus! {

/// Why a homework action failed.
#[derive(Debug)]
pub enum HomeworkApiError {
    /// The homework has neither a due date nor a weekday.
    UnspecifiedTime,
    DieselError(diesel::result::Error),
}

impl From<diesel::result::Error> for HomeworkApiError {
    fn from(e: diesel::result::Error) -> (r: Self) {
        HomeworkApiError::DieselError(e)
    }
}

impl FromSpecImpl<diesel::result::Error> for HomeworkApiError {
    open spec fn obeys_from_spec() -> bool {
        true
    }

    open spec fn from_spec(e: diesel::result::Error) -> HomeworkApiError {
        HomeworkApiError::DieselError(e)
    }
}

/// The weight a new progress row starts with.
pub const DEFAULT_WEIGHT: i32 = 1;

/// `x` lies in the range of `i16`.
pub open spec fn fits_i16(x: int) -> bool {
    i16::MIN <= x <= i16::MAX
}

/// Folding the delta into the progress does not overflow.
pub open spec fn can_roll(m: HWProgressModel) -> bool {
    fits_i16(m.progress + m.delta)
}

/// The progress row with its pending delta counted in and a fresh delta
/// started on `today`.
pub open spec fn rolled(m: HWProgressModel, today: i32) -> HWProgressModel {
    HWProgressModel { progress: (m.progress + m.delta) as i16, delta: 0, delta_date: today, ..m }
}

/// Counts the pending delta into the progress and starts a new delta on
/// `today`.
pub fn roll_delta(m: HWProgressModel, today: i32) -> (r: HWProgressModel)
    requires
        can_roll(m),
    ensures
        r == rolled(m, today),
{
    HWProgressModel { progress: m.progress + m.delta, delta: 0, delta_date: today, ..m }
}

/// Recording the change does not overflow.
pub open spec fn progress_change_ok(m: HWProgressModel, change: ChangeProgressModel, today: i32) -> bool {
    if change.use_delta {
        if m.delta_date != today {
            can_roll(m) && fits_i16(change.amount as int)
        } else {
            fits_i16(m.delta + change.amount)
        }
    } else {
        fits_i16(m.progress + change.amount)
    }
}

/// The progress row after the change: with `use_delta` the amount goes to
/// today's delta (a delta of an earlier day being counted in first);
/// otherwise it goes straight to the progress.
pub open spec fn progress_changed(m: HWProgressModel, change: ChangeProgressModel, today: i32) -> HWProgressModel {
    if change.use_delta {
        let base = if m.delta_date != today {
            rolled(m, today)
        } else {
            m
        };
        HWProgressModel { delta: (base.delta + change.amount) as i16, ..base }
    } else {
        HWProgressModel { progress: (m.progress + change.amount) as i16, ..m }
    }
}

/// Applies a progress change to the user's progress row on `today`.
pub fn change_progress(model: HWProgressModel, change_model: &ChangeProgressModel, today: i32) -> (r:
    HWProgressModel)
    requires
        progress_change_ok(model, *change_model, today),
    ensures
        r == progress_changed(model, *change_model, today),
        r.homework_id == model.homework_id && r.user_id == model.user_id && r.weight == model.weight
            && r.last_repeat_reset == model.last_repeat_reset,
        !change_model.use_delta ==> r.progress == model.progress + change_model.amount && r.delta == model.delta
            && r.delta_date == model.delta_date,
        change_model.use_delta && model.delta_date == today ==> r.progress == model.progress && r.delta
            == model.delta + change_model.amount && r.delta_date == today,
        change_model.use_delta && model.delta_date != today ==> r.progress == model.progress + model.delta
            && r.delta == change_model.amount && r.delta_date == today,
{
    let mut model = model;
    if change_model.use_delta {
        if model.delta_date != today {
            model = roll_delta(model, today);
        }
        model.delta = model.delta + change_model.amount;
    } else {
        model.progress = model.progress + change_model.amount;
    }
    model
}

/// A progress change adds its amount to the progress made, counting the
/// pending delta, whichever way it is recorded.
pub proof fn progress_change_adds_amount(m: HWProgressModel, change: ChangeProgressModel, today: i32)
    requires
        progress_change_ok(m, change, today),
    ensures
        progress_changed(m, change, today).progress + progress_changed(m, change, today).delta == m.progress + m.delta
            + change.amount,
{
}

/// How a progress change acts on the row. The homework, the user, the
/// weight and the repeat reset never change. Without `use_delta` the amount
/// is added to the progress, and the delta and its date stay as they were.
/// With `use_delta` the amount is added to today's delta; a delta of another
/// day is first added to the progress, and the new delta starts today.
pub proof fn progress_change_law(m: HWProgressModel, change: ChangeProgressModel, today: i32)
    requires
        !change.use_delta ==> fits_i16(m.progress + change.amount),
        change.use_delta && m.delta_date == today ==> fits_i16(m.delta + change.amount),
        change.use_delta && m.delta_date != today ==> fits_i16(m.progress + m.delta),
    ensures
        ({
            let r = progress_changed(m, change, today);
            &&& r.homework_id == m.homework_id && r.user_id == m.user_id && r.weight == m.weight
            &&& r.last_repeat_reset == m.last_repeat_reset
            &&& !change.use_delta ==> r.progress == m.progress + change.amount && r.delta == m.delta && r.delta_date
                == m.delta_date
            &&& change.use_delta && m.delta_date == today ==> r.progress == m.progress && r.delta == m.delta
                + change.amount && r.delta_date == today
            &&& change.use_delta && m.delta_date != today ==> r.progress == m.progress + m.delta && r.delta
                == change.amount && r.delta_date == today
        }),
{
}

/// [`change_progress`] where every count stays within `i16`; `None` where
/// one would leave it.
pub fn checked_change_progress(model: HWProgressModel, change_model: &ChangeProgressModel, today: i32) -> (r:
    Option<HWProgressModel>)
    ensures
        r is None <==> !progress_change_ok(model, *change_model, today),
        r matches Some(m) ==> m == progress_changed(model, *change_model, today),
{
    let amount = change_model.amount as i32;
    let fits = if change_model.use_delta {
        if model.delta_date != today {
            let p = model.progress as i32 + model.delta as i32;
            -32768 <= p && p <= 32767
        } else {
            let d = model.delta as i32 + amount;
            -32768 <= d && d <= 32767
        }
    } else {
        let p = model.progress as i32 + amount;
        -32768 <= p && p <= 32767
    };
    if fits {
        Some(change_progress(model, change_model, today))
    } else {
        None
    }
}

/// The homework row the form describes: dated when the form has a date,
/// otherwise repeating on the form's weekday; the user's own homework when
/// `for_self` is set, otherwise the class's.
pub fn add_homework(model: &AddHomeworkModel, user: &AuthUser) -> (r: Result<
    NewHomeworkModel,
    HomeworkApiError,
>)
    ensures
        model.due_date is None && model.weekday is None <==> r matches Err(
            HomeworkApiError::UnspecifiedTime,
        ),
        r is Ok || r matches Err(HomeworkApiError::UnspecifiedTime),
        r matches Ok(h) ==> {
            &&& h.due_date == model.due_date
            &&& h.day_of_week == (if model.due_date is Some {
                None
            } else {
                model.weekday
            })
            &&& h.detail@ == model.detail@
            &&& h.amount == model.amount
            &&& h.user_id == (if model.for_self {
                Some(user.id)
            } else {
                None
            })
            &&& h.class_id == (if model.for_self {
                None
            } else {
                user.class_id
            })
        },
{
    let due_date = model.due_date;
    let day_of_week = if due_date.is_some() {
        None
    } else if let Some(dow) = model.weekday {
        Some(dow)
    } else {
        return Err(HomeworkApiError::UnspecifiedTime);
    };
    let (user_id, class_id) = if model.for_self {
        (Some(user.id), None)
    } else {
        (None, user.class_id)
    };
    Ok(
        NewHomeworkModel {
            due_date,
            day_of_week,
            user_id,
            class_id,
            amount: model.amount,
            detail: model.detail.clone(),
        },
    )
}

/// A fresh progress row of `user_id` on homework `homework_id`, started on
/// `today`.
pub open spec fn fresh_progress(homework_id: i32, user_id: i32, today: i32) -> HWProgressModel {
    HWProgressModel {
        homework_id,
        user_id,
        progress: 0,
        delta: 0,
        delta_date: today,
        weight: DEFAULT_WEIGHT,
        last_repeat_reset: None,
    }
}

/// Fresh progress rows on homework `homework_id` for each of `user_ids`, in
/// order.
pub fn new_progress_rows(homework_id: i32, user_ids: &Vec<i32>, today: i32) -> (r: Vec<HWProgressModel>)
    ensures
        r@.len() == user_ids@.len(),
        forall|i: int| 0 <= i < r@.len() ==> #[trigger] r@[i] == fresh_progress(homework_id, user_ids@[i], today),
{
    let mut out: Vec<HWProgressModel> = Vec::new();
    let mut i: usize = 0;
    while i < user_ids.len()
        invariant
            i <= user_ids.len(),
            out@.len() == i,
            forall|j: int| 0 <= j < i ==> #[trigger] out@[j] == fresh_progress(homework_id, user_ids@[j], today),
        decreases user_ids.len() - i,
    {
        out.push(HWProgressModel {
            homework_id,
            user_id: user_ids[i],
            progress: 0,
            delta: 0,
            delta_date: today,
            weight: DEFAULT_WEIGHT,
            last_repeat_reset: None,
        });
        i = i + 1;
    }
    out
}

/// The ids, in order, of the users of `users` (each an id and a class) in
/// class `class`; none when `class` is `None`.
pub open spec fn member_ids(users: Seq<(i32, Option<i32>)>, class: Option<i32>) -> Seq<i32>
    decreases users.len(),
{
    if users.len() == 0 {
        seq![]
    } else {
        let rest = member_ids(users.drop_last(), class);
        if class is Some && users.last().1 == class {
            rest.push(users.last().0)
        } else {
            rest
        }
    }
}

/// The progress rows a newly added homework `homework_id` gets, all started
/// on `today`: for homework the user adds for themselves, one fresh row of
/// the user; for the class's homework, one fresh row for each user of
/// `users` (each an id and a class) in the user's class, in order.
pub fn homework_progress_rows(
    model: &AddHomeworkModel,
    user: &AuthUser,
    homework_id: i32,
    users: &Vec<(i32, Option<i32>)>,
    today: i32,
) -> (r: Vec<HWProgressModel>)
    ensures
        model.for_self ==> r@ == seq![fresh_progress(homework_id, user.id, today)],
        !model.for_self ==> r@ == member_ids(users@, user.class_id).map_values(
            |id: i32| fresh_progress(homework_id, id, today),
        ),
{
    if model.for_self {
        let mut ids: Vec<i32> = Vec::new();
        ids.push(user.id);
        let rows = new_progress_rows(homework_id, &ids, today);
        assert(rows@ =~= seq![fresh_progress(homework_id, user.id, today)]);
        return rows;
    }
    let mut ids: Vec<i32> = Vec::new();
    let mut i: usize = 0;
    while i < users.len()
        invariant
            i <= users.len(),
            ids@ == member_ids(users@.take(i as int), user.class_id),
        decreases users.len() - i,
    {
        assert(users@.take(i + 1).drop_last() =~= users@.take(i as int));
        let (id, class) = users[i];
        if user.class_id.is_some() && class == user.class_id {
            ids.push(id);
        }
        i = i + 1;
    }
    assert(users@.take(users@.len() as int) =~= users@);
    let rows = new_progress_rows(homework_id, &ids, today);
    assert(rows@ =~= ids@.map_values(|id: i32| fresh_progress(homework_id, id, today)));
    rows
}

/// `progress` holds a row of `user_id` on homework `homework_id`.
pub open spec fn has_progress(progress: Seq<HWProgressModel>, user_id: i32, homework_id: i32) -> bool {
    exists|j: int| 0 <= j < progress.len() && #[trigger] progress[j].user_id == user_id && progress[j].homework_id == homework_id
}

/// The ids of the homework in `hws` that have no progress row of `user_id`,
/// in order.
pub open spec fn missing_ids(hws: Seq<DbHomeworkModel>, progress: Seq<HWProgressModel>, user_id: i32) -> Seq<i32>
    decreases hws.len(),
{
    if hws.len() == 0 {
        seq![]
    } else {
        let rest = missing_ids(hws.drop_last(), progress, user_id);
        if has_progress(progress, user_id, hws.last().id) {
            rest
        } else {
            rest.push(hws.last().id)
        }
    }
}

fn has_row(progress: &Vec<HWProgressModel>, user_id: i32, homework_id: i32) -> (r: bool)
    ensures
        r == has_progress(progress@, user_id, homework_id),
{
    let mut j: usize = 0;
    while j < progress.len()
        invariant
            j <= progress.len(),
            forall|k: int| 0 <= k < j ==> !(#[trigger] progress@[k].user_id == user_id && progress@[k].homework_id == homework_id),
        decreases progress.len() - j,
    {
        if progress[j].user_id == user_id && progress[j].homework_id == homework_id {
            return true;
        }
        j = j + 1;
    }
    false
}

/// The progress rows to add so that `user` has one on each of `user_hw`:
/// a fresh row, started on `today`, for every homework (in order) that has
/// no row of the user in `user_progress`.
pub fn build_progress_table(
    user: &User,
    user_hw: &Vec<DbHomeworkModel>,
    user_progress: &Vec<HWProgressModel>,
    today: i32,
) -> (r: Vec<HWProgressModel>)
    ensures
        r@.len() == missing_ids(user_hw@, user_progress@, user.id).len(),
        forall|i: int| 0 <= i < r@.len() ==> #[trigger] r@[i] == fresh_progress(
            missing_ids(user_hw@, user_progress@, user.id)[i],
            user.id,
            today,
        ),
        forall|i: int, j: int|
            0 <= i < r@.len() && 0 <= j < user_progress@.len() ==> !(#[trigger] user_progress@[j].user_id == user.id
                && user_progress@[j].homework_id == (#[trigger] r@[i]).homework_id),
        forall|i: int|
            0 <= i < r@.len() ==> exists|k: int| 0 <= k < user_hw@.len() && #[trigger] user_hw@[k].id == (
            #[trigger] r@[i]).homework_id,
{
    proof {
        missing_rows_law(user_hw@, user_progress@, user.id);
    }
    let mut ids: Vec<i32> = Vec::new();
    let mut i: usize = 0;
    while i < user_hw.len()
        invariant
            i <= user_hw.len(),
            ids@ == missing_ids(user_hw@.take(i as int), user_progress@, user.id),
        decreases user_hw.len() - i,
    {
        assert(user_hw@.take(i + 1).drop_last() =~= user_hw@.take(i as int));
        if !has_row(user_progress, user.id, user_hw[i].id) {
            ids.push(user_hw[i].id);
        }
        i = i + 1;
    }
    assert(user_hw@.take(user_hw@.len() as int) =~= user_hw@);
    new_progress_rows_for(&ids, user.id, today)
}

/// A row is added only for one of the homework, and only where the user
/// has no progress row on it, whoever the homework belongs to.
pub proof fn missing_rows_law(hws: Seq<DbHomeworkModel>, progress: Seq<HWProgressModel>, user_id: i32)
    ensures
        forall|k: int|
            0 <= k < missing_ids(hws, progress, user_id).len() ==> exists|i: int|
                0 <= i < hws.len() && #[trigger] hws[i].id == #[trigger] missing_ids(hws, progress, user_id)[k],
        forall|k: int, j: int|
            0 <= k < missing_ids(hws, progress, user_id).len() && 0 <= j < progress.len() ==> !(
            #[trigger] progress[j].user_id == user_id && progress[j].homework_id == #[trigger] missing_ids(
                hws,
                progress,
                user_id,
            )[k]),
    decreases hws.len(),
{
    if hws.len() > 0 {
        let front = hws.drop_last();
        missing_rows_law(front, progress, user_id);
        let rest = missing_ids(front, progress, user_id);
        let ms = missing_ids(hws, progress, user_id);
        assert forall|k: int| 0 <= k < ms.len() implies exists|i: int|
            0 <= i < hws.len() && #[trigger] hws[i].id == #[trigger] ms[k] by {
            if k < rest.len() {
                assert(ms[k] == rest[k]);
                let i = choose|i: int| 0 <= i < front.len() && #[trigger] front[i].id == #[trigger] rest[k];
                assert(hws[i] == front[i]);
            } else {
                assert(ms[k] == hws[hws.len() - 1].id);
            }
        }
        assert forall|k: int, j: int| 0 <= k < ms.len() && 0 <= j < progress.len() implies !(
        #[trigger] progress[j].user_id == user_id && progress[j].homework_id == #[trigger] ms[k]) by {
            if k < rest.len() {
                assert(ms[k] == rest[k]);
            } else {
                assert(ms[k] == hws.last().id);
                assert(!has_progress(progress, user_id, hws.last().id));
            }
        }
    }
}

/// The rows [`build_progress_table`] adds, as a sequence.
pub open spec fn added_rows(ids: Seq<i32>, user_id: i32, today: i32) -> Seq<HWProgressModel> {
    Seq::new(ids.len(), |i: int| fresh_progress(ids[i], user_id, today))
}

proof fn lemma_missing_or_present(hws: Seq<DbHomeworkModel>, progress: Seq<HWProgressModel>, user_id: i32, j: int)
    requires
        0 <= j < hws.len(),
    ensures
        has_progress(progress, user_id, hws[j].id) || missing_ids(hws, progress, user_id).contains(hws[j].id),
    decreases hws.len(),
{
    let rest = missing_ids(hws.drop_last(), progress, user_id);
    if j < hws.len() - 1 {
        assert(hws.drop_last()[j] == hws[j]);
        lemma_missing_or_present(hws.drop_last(), progress, user_id, j);
        if rest.contains(hws[j].id) {
            let k = choose|k: int| 0 <= k < rest.len() && rest[k] == hws[j].id;
            if !has_progress(progress, user_id, hws.last().id) {
                assert(rest.push(hws.last().id)[k] == hws[j].id);
            }
        }
    } else if !has_progress(progress, user_id, hws.last().id) {
        assert(rest.push(hws.last().id)[rest.len() as int] == hws[j].id);
    }
}

/// Once the rows [`build_progress_table`] gives are added, the user has a
/// progress row on every one of the homework.
pub proof fn progress_table_complete(
    user_hw: Seq<DbHomeworkModel>,
    user_progress: Seq<HWProgressModel>,
    user_id: i32,
    today: i32,
)
    ensures
        forall|j: int|
            0 <= j < user_hw.len() ==> has_progress(
                user_progress + added_rows(missing_ids(user_hw, user_progress, user_id), user_id, today),
                user_id,
                #[trigger] user_hw[j].id,
            ),
{
    let ids = missing_ids(user_hw, user_progress, user_id);
    let all = user_progress + added_rows(ids, user_id, today);
    assert forall|j: int| 0 <= j < user_hw.len() implies has_progress(all, user_id, #[trigger] user_hw[j].id) by {
        lemma_missing_or_present(user_hw, user_progress, user_id, j);
        if has_progress(user_progress, user_id, user_hw[j].id) {
            let k = choose|k: int|
                0 <= k < user_progress.len() && #[trigger] user_progress[k].user_id == user_id && user_progress[k].homework_id
                    == user_hw[j].id;
            assert(all[k] == user_progress[k]);
            assert(all[k].user_id == user_id && all[k].homework_id == user_hw[j].id);
        } else {
            let k = choose|k: int| 0 <= k < ids.len() && ids[k] == user_hw[j].id;
            let at = user_progress.len() + k;
            assert(all[at] == fresh_progress(ids[k], user_id, today));
            assert(all[at].user_id == user_id && all[at].homework_id == user_hw[j].id);
        }
    }
}

fn new_progress_rows_for(ids: &Vec<i32>, user_id: i32, today: i32) -> (r: Vec<HWProgressModel>)
    ensures
        r@.len() == ids@.len(),
        forall|i: int| 0 <= i < r@.len() ==> #[trigger] r@[i] == fresh_progress(ids@[i], user_id, today),
{
    let mut out: Vec<HWProgressModel> = Vec::new();
    let mut i: usize = 0;
    while i < ids.len()
        invariant
            i <= ids.len(),
            out@.len() == i,
            forall|j: int| 0 <= j < i ==> #[trigger] out@[j] == fresh_progress(ids@[j], user_id, today),
        decreases ids.len() - i,
    {
        out.push(HWProgressModel {
            homework_id: ids[i],
            user_id,
            progress: 0,
            delta: 0,
            delta_date: today,
            weight: DEFAULT_WEIGHT,
            last_repeat_reset: None,
        });
        i = i + 1;
    }
    out
}

/// The ids, in order, of the rows whose delta was started before `today`
/// and is due to be counted into the progress.
pub open spec fn stale_ids(rows: Seq<ProgressHomeworkModel>, today: i32) -> Seq<i32>
    decreases rows.len(),
{
    if rows.len() == 0 {
        seq![]
    } else {
        let rest = stale_ids(rows.drop_last(), today);
        if rows.last().delta_date != today {
            rest.push(rows.last().id)
        } else {
            rest
        }
    }
}

/// The stale rows are exactly the rows whose delta was started on a day
/// other than `today`, dated or repeating alike, in order.
pub proof fn stale_rows_law(rows: Seq<ProgressHomeworkModel>, today: i32)
    ensures
        stale_ids(rows, today) == rows.filter(|x: ProgressHomeworkModel| x.delta_date != today).map_values(
            |x: ProgressHomeworkModel| x.id,
        ),
    decreases rows.len(),
{
    reveal(Seq::filter);
    let pred = |x: ProgressHomeworkModel| x.delta_date != today;
    if rows.len() > 0 {
        stale_rows_law(rows.drop_last(), today);
        let f = rows.drop_last().filter(pred);
        if pred(rows.last()) {
            assert(f.push(rows.last()).map_values(|x: ProgressHomeworkModel| x.id) =~= f.map_values(
                |x: ProgressHomeworkModel| x.id,
            ).push(rows.last().id));
        }
    } else {
        assert(rows.filter(pred).map_values(|x: ProgressHomeworkModel| x.id) =~= Seq::<i32>::empty());
    }
}

/// The ids of the rows whose delta is to be counted into the progress.
pub fn stale_progress(rows: &Vec<ProgressHomeworkModel>, today: i32) -> (r: Vec<i32>)
    ensures
        r@ == stale_ids(rows@, today),
        r@ == rows@.filter(|x: ProgressHomeworkModel| x.delta_date != today).map_values(
            |x: ProgressHomeworkModel| x.id,
        ),
{
    proof {
        stale_rows_law(rows@, today);
    }
    let mut ids: Vec<i32> = Vec::new();
    let mut i: usize = 0;
    while i < rows.len()
        invariant
            i <= rows.len(),
            ids@ == stale_ids(rows@.take(i as int), today),
        decreases rows.len() - i,
    {
        assert(rows@.take(i + 1).drop_last() =~= rows@.take(i as int));
        if rows[i].delta_date != today {
            ids.push(rows[i].id);
        }
        i = i + 1;
    }
    assert(rows@.take(rows@.len() as int) =~= rows@);
    ids
}

/// Every row is dated or has a weekday.
pub open spec fn rows_timed(rows: Seq<ProgressHomeworkModel>) -> bool {
    forall|i: int| 0 <= i < rows.len() ==> (#[trigger] rows[i].due_date is Some || rows[i].day_of_week is Some)
}

/// The user's homework of the joined rows, in order.
pub fn get_homework_for_user(rows: Vec<ProgressHomeworkModel>) -> (r: Vec<UserHomework>)
    requires
        rows_timed(rows@),
    ensures
        r@.len() == rows@.len(),
        forall|i: int| 0 <= i < r@.len() ==> {
            &&& #[trigger] r@[i].db_id == rows@[i].id
            &&& r@[i].amount == rows@[i].amount
            &&& r@[i].detail == rows@[i].detail
            &&& r@[i].progress == rows@[i].progress
            &&& r@[i].delta == rows@[i].delta_progress
            &&& r@[i].weight == rows@[i].weight
            &&& r@[i].due_date == match rows@[i].due_date {
                Some(d) => crate::models::homework::DueDate::Date(d),
                None => crate::models::homework::DueDate::Repeat(rows@[i].day_of_week.unwrap()),
            }
        },
{
    let ghost orig = rows@;
    let mut rows = rows;
    let mut out: Vec<UserHomework> = Vec::new();
    while rows.len() > 0
        invariant
            out@.len() + rows@.len() == orig.len(),
            rows@ == orig.skip(out@.len() as int),
            rows_timed(orig),
            forall|i: int| 0 <= i < out@.len() ==> {
                &&& #[trigger] out@[i].db_id == orig[i].id
                &&& out@[i].amount == orig[i].amount
                &&& out@[i].detail == orig[i].detail
                &&& out@[i].progress == orig[i].progress
                &&& out@[i].delta == orig[i].delta_progress
                &&& out@[i].weight == orig[i].weight
                &&& out@[i].due_date == match orig[i].due_date {
                    Some(d) => crate::models::homework::DueDate::Date(d),
                    None => crate::models::homework::DueDate::Repeat(orig[i].day_of_week.unwrap()),
                }
            },
        decreases rows.len(),
    {
        let m = rows.remove(0);
        assert(m == orig[out@.len() as int]);
        assert(rows@ =~= orig.skip(out@.len() as int + 1));
        out.push(UserHomework::from(m));
    }
    out
}

} // verus!
