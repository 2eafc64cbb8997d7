//! How missed sleep is carried from day to day.
//!
//! Debts stand here by their age and kind. How many seconds each amounts to is kept elsewhere,
//! under the slot of the debt: what is added to an amount is a matter of fractions, what happens
//! on which day to which debt is not.
//!
//! Days are counted in the common era: day 1 is the first of January of year 1, a Monday.
use vstd::prelude::*;
use vstd::string::*;



verus! {

broadcast use vstd::seq_lib::group_seq_properties;

pub const START_DATE_SETTING_KEY: &'static str = "sleep_debt_start_date_v1";

pub const TARGET_MIGRATION_KEY: &'static str = "migration_sleep_target_v1";

pub const CATEGORY_NAME: &'static str = "休息";

pub const PROJECT_NAME: &'static str = "睡眠";

pub const PROJECT_ID: &'static str = "system-rest-sleep";

pub const PROJECT_SOURCE: &'static str = "sleep-system";

pub const NAP_TASK_ID: &'static str = "system-rest-sleep-nap";

pub const NAP_TASK_SOURCE: &'static str = "sleep-system:nap";

pub const NAP_TASK_TITLE: &'static str = "午睡";

pub const SLEEP_TASK_ID: &'static str = "system-rest-sleep-night";

pub const SLEEP_TASK_SOURCE: &'static str = "sleep-system:sleep";

pub const SLEEP_TASK_TITLE: &'static str = "睡觉";

/// Eight hours.
pub const DAILY_TARGET_SECONDS: u64 = 28_800;

/// Three hours.
pub const MONDAY_DEBT_SECONDS: u64 = 10_800;

/// How many days are shown.
pub const HEATMAP_HISTORY_DAYS: usize = 371;

/// How long a debt stays in the first layer.
pub const FIRST_LAYER_DAYS: i64 = 7;

/// A debt of the last days.
#[derive(Clone, Copy, Debug, PartialEq, Eq, Structural)]
pub struct FirstLayerDebt {
    pub origin: i32,
    pub compounds_daily: bool,
    pub slot: usize,
}

/// A debt that was not repaid in time.
#[derive(Clone, Copy, Debug, PartialEq, Eq, Structural)]
pub struct SecondLayerDebt {
    pub entered: i32,
    pub slot: usize,
}

/// All debts of a sleeper.
#[derive(Debug, PartialEq, Eq)]
pub struct SleepDebts {
    pub first: Vec<FirstLayerDebt>,
    pub second: Vec<SecondLayerDebt>,
}

/// Which amounts change when a day begins.
#[derive(Debug, PartialEq, Eq)]
pub struct Morning {
    /// The slots whose amount grows by half.
    pub grown: Vec<usize>,
    /// The slots whose amount doubles.
    pub doubled: Vec<usize>,
    /// Whether the slot at hand was taken for a debt of `MONDAY_DEBT_SECONDS`.
    pub monday: bool,
}

pub open spec fn monday(day: int) -> bool {
    (day - 1) % 7 == 0
}

/// Whether the day is a Monday.
pub fn is_monday(day: i32) -> (result: bool)
    ensures
        result == monday(day as int),
{
    let shifted: i64 = day as i64 - 1;
    let rest: i64 = if shifted >= 0 {
        shifted % 7
    } else {
        (-shifted) % 7
    };
    rest == 0
}

/// The debt has been in the first layer for its time.
pub open spec fn overdue(debt: FirstLayerDebt, day: int) -> bool {
    day - debt.origin >= FIRST_LAYER_DAYS
}

/// The debt has been in the second layer for a number of full weeks.
pub open spec fn week_over(debt: SecondLayerDebt, day: int) -> bool {
    day - debt.entered > 0 && (day - debt.entered) % 7 == 0
}

pub open spec fn demoted(debt: FirstLayerDebt, day: i32) -> SecondLayerDebt {
    SecondLayerDebt { entered: day, slot: debt.slot }
}

pub open spec fn first_slots(debts: Seq<FirstLayerDebt>) -> Seq<usize> {
    debts.map_values(|debt: FirstLayerDebt| debt.slot)
}

pub open spec fn second_slots(debts: Seq<SecondLayerDebt>) -> Seq<usize> {
    debts.map_values(|debt: SecondLayerDebt| debt.slot)
}

/// The debts of the first layer that grow every day.
pub open spec fn growing(first: Seq<FirstLayerDebt>) -> Seq<FirstLayerDebt> {
    first.filter(|debt: FirstLayerDebt| debt.compounds_daily)
}

/// The debts that stay in the first layer.
pub open spec fn staying(first: Seq<FirstLayerDebt>, day: int) -> Seq<FirstLayerDebt> {
    first.filter(|debt: FirstLayerDebt| !overdue(debt, day))
}

/// The debts that leave the first layer.
pub open spec fn leaving(first: Seq<FirstLayerDebt>, day: int) -> Seq<FirstLayerDebt> {
    first.filter(|debt: FirstLayerDebt| overdue(debt, day))
}

/// The second layer with what left the first one.
pub open spec fn extended(
    first: Seq<FirstLayerDebt>,
    second: Seq<SecondLayerDebt>,
    day: i32,
) -> Seq<SecondLayerDebt> {
    second + leaving(first, day as int).map_values(|debt: FirstLayerDebt| demoted(debt, day))
}

/// The debts of the second layer whose amount doubles.
pub open spec fn doubling(second: Seq<SecondLayerDebt>, day: int) -> Seq<SecondLayerDebt> {
    second.filter(|debt: SecondLayerDebt| week_over(debt, day))
}

/// The first layer with the debt that comes with a Monday.
pub open spec fn with_monday(first: Seq<FirstLayerDebt>, day: i32, slot: usize) -> Seq<
    FirstLayerDebt,
> {
    if monday(day as int) {
        first.push(FirstLayerDebt { origin: day, compounds_daily: false, slot })
    } else {
        first
    }
}

fn growing_slots(first: &Vec<FirstLayerDebt>) -> (result: Vec<usize>)
    ensures
        result@ == first_slots(growing(first@)),
{
    let ghost keep = |debt: FirstLayerDebt| debt.compounds_daily;
    let mut result: Vec<usize> = Vec::new();
    let mut i: usize = 0;
    assert(first@.take(0).filter(keep) =~= Seq::empty()) by {
        reveal(Seq::filter);
    }
    assert(result@ =~= first_slots(first@.take(0).filter(keep)));
    while i < first.len()
        invariant
            i <= first.len(),
            keep == (|debt: FirstLayerDebt| debt.compounds_daily),
            result@ == first_slots(first@.take(i as int).filter(keep)),
        decreases first.len() - i,
    {
        let debt = first[i];
        let ghost done = first@.take(i as int).filter(keep);
        assert(first@.take(i + 1) =~= first@.take(i as int).push(debt));
        proof {
            first@.take(i as int).lemma_filter_push(debt, keep);
        }
        if debt.compounds_daily {
            result.push(debt.slot);
            assert(result@ =~= first_slots(done.push(debt)));
        }
        i += 1;
    }
    assert(first@.take(first.len() as int) =~= first@);
    result
}

fn doubling_slots(second: &Vec<SecondLayerDebt>, day: i32) -> (result: Vec<usize>)
    ensures
        result@ == second_slots(doubling(second@, day as int)),
{
    let ghost keep = |debt: SecondLayerDebt| week_over(debt, day as int);
    let mut result: Vec<usize> = Vec::new();
    let mut i: usize = 0;
    assert(second@.take(0).filter(keep) =~= Seq::empty()) by {
        reveal(Seq::filter);
    }
    assert(result@ =~= second_slots(second@.take(0).filter(keep)));
    while i < second.len()
        invariant
            i <= second.len(),
            keep == (|debt: SecondLayerDebt| week_over(debt, day as int)),
            result@ == second_slots(second@.take(i as int).filter(keep)),
        decreases second.len() - i,
    {
        let debt = second[i];
        let ghost done = second@.take(i as int).filter(keep);
        assert(second@.take(i + 1) =~= second@.take(i as int).push(debt));
        proof {
            second@.take(i as int).lemma_filter_push(debt, keep);
        }
        let age: i64 = day as i64 - debt.entered as i64;
        if age > 0 && age % 7 == 0 {
            result.push(debt.slot);
            assert(result@ =~= second_slots(done.push(debt)));
        }
        i += 1;
    }
    assert(second@.take(second.len() as int) =~= second@);
    result
}

/// Begins a day. `slot` is free, for the debt that comes with a Monday.
pub fn begin_day(debts: &mut SleepDebts, day: i32, started_on: i32, slot: usize) -> (result:
    Morning)
    ensures
        final(debts).first@ == with_monday(staying(old(debts).first@, day as int), day, slot),
        final(debts).second@ == extended(old(debts).first@, old(debts).second@, day),
        result.grown@ == if day > started_on {
            first_slots(growing(old(debts).first@))
        } else {
            Seq::empty()
        },
        result.doubled@ == second_slots(doubling(final(debts).second@, day as int)),
        result.monday == monday(day as int),
{
    let grown: Vec<usize> = if day > started_on {
        growing_slots(&debts.first)
    } else {
        Vec::new()
    };
    let ghost first = debts.first@;
    let ghost second = debts.second@;
    let ghost out = |debt: FirstLayerDebt| overdue(debt, day as int);
    let ghost keep = |debt: FirstLayerDebt| !overdue(debt, day as int);
    let ghost down = |debt: FirstLayerDebt| demoted(debt, day);
    let mut retained: Vec<FirstLayerDebt> = Vec::new();
    let mut i: usize = 0;
    assert(first.take(0).filter(keep) =~= Seq::empty() && first.take(0).filter(out)
        =~= Seq::empty()) by {
        reveal(Seq::filter);
    }
    assert(debts.second@ =~= second + first.take(0).filter(out).map_values(down));
    while i < debts.first.len()
        invariant
            i <= debts.first.len(),
            debts.first@ == first,
            out == (|debt: FirstLayerDebt| overdue(debt, day as int)),
            keep == (|debt: FirstLayerDebt| !overdue(debt, day as int)),
            down == (|debt: FirstLayerDebt| demoted(debt, day)),
            retained@ == first.take(i as int).filter(keep),
            debts.second@ == second + first.take(i as int).filter(out).map_values(down),
        decreases debts.first.len() - i,
    {
        let debt = debts.first[i];
        let ghost gone = first.take(i as int).filter(out);
        assert(first.take(i + 1) =~= first.take(i as int).push(debt));
        proof {
            first.take(i as int).lemma_filter_push(debt, keep);
            first.take(i as int).lemma_filter_push(debt, out);
        }
        if day as i64 - debt.origin as i64 >= FIRST_LAYER_DAYS {
            debts.second.push(SecondLayerDebt { entered: day, slot: debt.slot });
            assert(debts.second@ =~= second + gone.push(debt).map_values(down));
        } else {
            retained.push(debt);
        }
        i += 1;
    }
    assert(first.take(first.len() as int) =~= first);
    let doubled = doubling_slots(&debts.second, day);
    let monday = is_monday(day);
    if monday {
        retained.push(FirstLayerDebt { origin: day, compounds_daily: false, slot });
    }
    debts.first = retained;
    Morning { grown, doubled, monday }
}

/// How a night compares with the target.
#[derive(Clone, Copy, Debug, PartialEq, Eq, Structural)]
pub enum Night {
    Short { seconds: u64 },
    Even,
    Long { seconds: u64 },
}

/// What a night leaves over or short of the target.
pub open spec fn night(slept: u64) -> Night {
    if slept < DAILY_TARGET_SECONDS {
        Night::Short { seconds: (DAILY_TARGET_SECONDS - slept) as u64 }
    } else if slept > DAILY_TARGET_SECONDS {
        Night::Long { seconds: (slept - DAILY_TARGET_SECONDS) as u64 }
    } else {
        Night::Even
    }
}

/// Counts a night. `slot` is free, for the debt of a short one.
pub fn count_night(debts: &mut SleepDebts, day: i32, slept: u64, slot: usize) -> (result: Night)
    ensures
        result == night(slept),
        final(debts).second@ == old(debts).second@,
        final(debts).first@ == if night(slept) is Short {
            old(debts).first@.push(FirstLayerDebt { origin: day, compounds_daily: true, slot })
        } else {
            old(debts).first@
        },
{
    if slept < DAILY_TARGET_SECONDS {
        debts.first.push(FirstLayerDebt { origin: day, compounds_daily: true, slot });
        Night::Short { seconds: DAILY_TARGET_SECONDS - slept }
    } else if slept > DAILY_TARGET_SECONDS {
        Night::Long { seconds: slept - DAILY_TARGET_SECONDS }
    } else {
        Night::Even
    }
}

/// The first debt is repaid before the second: it is older, or of the same day and growing.
pub open spec fn first_due(left: FirstLayerDebt, right: FirstLayerDebt) -> bool {
    left.origin < right.origin || (left.origin == right.origin && left.compounds_daily
        && !right.compounds_daily)
}

/// The debts in the order in which they are repaid; equal ones keep their order.
pub open spec fn in_due_order(debts: Seq<FirstLayerDebt>) -> Seq<FirstLayerDebt>
    decreases debts.len(),
{
    if debts.len() == 0 {
        debts
    } else {
        insert_due(in_due_order(debts.drop_last()), debts.last())
    }
}

/// The debt in front of those that are repaid after it.
pub open spec fn insert_due(debts: Seq<FirstLayerDebt>, debt: FirstLayerDebt) -> Seq<
    FirstLayerDebt,
>
    decreases debts.len(),
{
    if debts.len() == 0 || !first_due(debt, debts.last()) {
        debts.push(debt)
    } else {
        insert_due(debts.drop_last(), debt).push(debts.last())
    }
}

/// The debts in the order in which they are repaid; equal ones keep their order.
pub open spec fn in_entry_order(debts: Seq<SecondLayerDebt>) -> Seq<SecondLayerDebt>
    decreases debts.len(),
{
    if debts.len() == 0 {
        debts
    } else {
        insert_entered(in_entry_order(debts.drop_last()), debts.last())
    }
}

/// The debt in front of those that were entered after it.
pub open spec fn insert_entered(debts: Seq<SecondLayerDebt>, debt: SecondLayerDebt) -> Seq<
    SecondLayerDebt,
>
    decreases debts.len(),
{
    if debts.len() == 0 || !(debt.entered < debts.last().entered) {
        debts.push(debt)
    } else {
        insert_entered(debts.drop_last(), debt).push(debts.last())
    }
}

/// Puts the debts of the first layer in the order in which they are repaid.
pub fn order_first_layer(debts: &mut SleepDebts)
    ensures
        final(debts).first@ == in_due_order(old(debts).first@),
        final(debts).second@ == old(debts).second@,
{
    let ghost all = debts.first@;
    let mut sorted: Vec<FirstLayerDebt> = Vec::new();
    let mut i: usize = 0;
    assert(sorted@ =~= in_due_order(all.take(0)));
    while i < debts.first.len()
        invariant
            i <= debts.first.len(),
            debts.first@ == all,
            debts.second@ == old(debts).second@,
            sorted@ == in_due_order(all.take(i as int)),
        decreases debts.first.len() - i,
    {
        let debt = debts.first[i];
        let ghost before = sorted@;
        assert(all.take(i + 1).drop_last() =~= all.take(i as int));
        let mut at: usize = sorted.len();
        assert(before.take(at as int) =~= before);
        assert(before.skip(at as int) =~= Seq::empty());
        assert(insert_due(before, debt) =~= insert_due(before.take(at as int), debt)
            + before.skip(at as int));
        while at > 0 && (debt.origin < sorted[at - 1].origin || (debt.origin == sorted[at
            - 1].origin && debt.compounds_daily && !sorted[at - 1].compounds_daily))
            invariant
                at <= sorted.len(),
                sorted@ == before,
                insert_due(before, debt) == insert_due(before.take(at as int), debt) + before.skip(
                    at as int,
                ),
            decreases at,
        {
            let ghost now = before.take(at as int);
            assert(now.last() == before[at - 1]);
            assert(now.drop_last() =~= before.take(at - 1));
            assert(insert_due(now.drop_last(), debt).push(now.last()) + before.skip(at as int)
                =~= insert_due(now.drop_last(), debt) + before.skip(at - 1));
            at -= 1;
        }
        if at > 0 {
            assert(before.take(at as int).last() == before[at - 1]);
        }
        sorted.insert(at, debt);
        assert(before.take(at as int).push(debt) + before.skip(at as int) =~= sorted@);
        i += 1;
    }
    assert(all.take(all.len() as int) =~= all);
    debts.first = sorted;
}

/// Puts the debts of the second layer in the order in which they are repaid.
pub fn order_second_layer(debts: &mut SleepDebts)
    ensures
        final(debts).first@ == old(debts).first@,
        final(debts).second@ == in_entry_order(old(debts).second@),
{
    let ghost all = debts.second@;
    let mut sorted: Vec<SecondLayerDebt> = Vec::new();
    let mut i: usize = 0;
    assert(sorted@ =~= in_entry_order(all.take(0)));
    while i < debts.second.len()
        invariant
            i <= debts.second.len(),
            debts.second@ == all,
            debts.first@ == old(debts).first@,
            sorted@ == in_entry_order(all.take(i as int)),
        decreases debts.second.len() - i,
    {
        let debt = debts.second[i];
        let ghost before = sorted@;
        assert(all.take(i + 1).drop_last() =~= all.take(i as int));
        let mut at: usize = sorted.len();
        assert(before.take(at as int) =~= before);
        assert(before.skip(at as int) =~= Seq::empty());
        assert(insert_entered(before, debt) =~= insert_entered(before.take(at as int), debt)
            + before.skip(at as int));
        while at > 0 && debt.entered < sorted[at - 1].entered
            invariant
                at <= sorted.len(),
                sorted@ == before,
                insert_entered(before, debt) == insert_entered(before.take(at as int), debt)
                    + before.skip(at as int),
            decreases at,
        {
            let ghost now = before.take(at as int);
            assert(now.last() == before[at - 1]);
            assert(now.drop_last() =~= before.take(at - 1));
            assert(insert_entered(now.drop_last(), debt).push(now.last()) + before.skip(at as int)
                =~= insert_entered(now.drop_last(), debt) + before.skip(at - 1));
            at -= 1;
        }
        if at > 0 {
            assert(before.take(at as int).last() == before[at - 1]);
        }
        sorted.insert(at, debt);
        assert(before.take(at as int).push(debt) + before.skip(at as int) =~= sorted@);
        i += 1;
    }
    assert(all.take(all.len() as int) =~= all);
    debts.second = sorted;
}

fn holds(slots: &Vec<usize>, slot: usize) -> (result: bool)
    ensures
        result == slots@.contains(slot),
{
    let mut i: usize = 0;
    while i < slots.len()
        invariant
            i <= slots.len(),
            forall|k: int| 0 <= k < i ==> slots@[k] != slot,
        decreases slots.len() - i,
    {
        if slots[i] == slot {
            return true;
        }
        i += 1;
    }
    false
}

/// The debts whose amount is not spent.
pub open spec fn unpaid_first(debts: Seq<FirstLayerDebt>, spent: Seq<usize>) -> Seq<
    FirstLayerDebt,
> {
    debts.filter(|debt: FirstLayerDebt| !spent.contains(debt.slot))
}

/// The debts whose amount is not spent.
pub open spec fn unpaid_second(debts: Seq<SecondLayerDebt>, spent: Seq<usize>) -> Seq<
    SecondLayerDebt,
> {
    debts.filter(|debt: SecondLayerDebt| !spent.contains(debt.slot))
}

/// Drops the debts whose amount is spent.
pub fn drop_spent(debts: &mut SleepDebts, spent: &Vec<usize>)
    ensures
        final(debts).first@ == unpaid_first(old(debts).first@, spent@),
        final(debts).second@ == unpaid_second(old(debts).second@, spent@),
{
    let ghost first = debts.first@;
    let ghost second = debts.second@;
    let ghost keep_first = |debt: FirstLayerDebt| !spent@.contains(debt.slot);
    let ghost keep_second = |debt: SecondLayerDebt| !spent@.contains(debt.slot);
    let mut kept_first: Vec<FirstLayerDebt> = Vec::new();
    let mut kept_second: Vec<SecondLayerDebt> = Vec::new();
    let mut i: usize = 0;
    assert(first.take(0).filter(keep_first) =~= Seq::empty() && second.take(0).filter(keep_second)
        =~= Seq::empty()) by {
        reveal(Seq::filter);
    }
    while i < debts.first.len()
        invariant
            i <= debts.first.len(),
            debts.first@ == first,
            debts.second@ == second,
            keep_first == (|debt: FirstLayerDebt| !spent@.contains(debt.slot)),
            kept_first@ == first.take(i as int).filter(keep_first),
        decreases debts.first.len() - i,
    {
        let debt = debts.first[i];
        assert(first.take(i + 1) =~= first.take(i as int).push(debt));
        proof {
            first.take(i as int).lemma_filter_push(debt, keep_first);
        }
        if !holds(spent, debt.slot) {
            kept_first.push(debt);
        }
        i += 1;
    }
    let mut j: usize = 0;
    while j < debts.second.len()
        invariant
            j <= debts.second.len(),
            debts.second@ == second,
            keep_second == (|debt: SecondLayerDebt| !spent@.contains(debt.slot)),
            kept_second@ == second.take(j as int).filter(keep_second),
        decreases debts.second.len() - j,
    {
        let debt = debts.second[j];
        assert(second.take(j + 1) =~= second.take(j as int).push(debt));
        proof {
            second.take(j as int).lemma_filter_push(debt, keep_second);
        }
        if !holds(spent, debt.slot) {
            kept_second.push(debt);
        }
        j += 1;
    }
    assert(first.take(first.len() as int) =~= first);
    assert(second.take(second.len() as int) =~= second);
    debts.first = kept_first;
    debts.second = kept_second;
}

/// A step of the account of a day.
#[derive(Clone, Copy, Debug, PartialEq, Eq, Structural)]
pub enum SleepStep {
    /// Begin the day: debts grow, move and double.
    Begin,
    /// Count the night.
    Count,
    /// Repay the first layer with what the night left over.
    RepayFirst,
    /// Repay the second layer with what is left after that.
    RepaySecond,
    /// Drop the debts that are spent.
    Settle,
    /// Note how the day ended.
    Note,
    /// No day is left.
    Finish,
}

/// The step that follows. What a night leaves over goes to the first layer, and to the second one
/// only when nothing is owed in the first and something is left.
pub open spec fn following_step(
    step: SleepStep,
    night: Night,
    first_layer_empty: bool,
    surplus_left: bool,
    more_days: bool,
) -> SleepStep {
    match step {
        SleepStep::Begin => SleepStep::Count,
        SleepStep::Count => if night is Long {
            SleepStep::RepayFirst
        } else {
            SleepStep::Settle
        },
        SleepStep::RepayFirst => if first_layer_empty && surplus_left {
            SleepStep::RepaySecond
        } else {
            SleepStep::Settle
        },
        SleepStep::RepaySecond => SleepStep::Settle,
        SleepStep::Settle => SleepStep::Note,
        SleepStep::Note => if more_days {
            SleepStep::Begin
        } else {
            SleepStep::Finish
        },
        SleepStep::Finish => SleepStep::Finish,
    }
}

/// Says which step follows.
pub fn next_sleep_step(
    step: SleepStep,
    night: Night,
    first_layer_empty: bool,
    surplus_left: bool,
    more_days: bool,
) -> (result: SleepStep)
    ensures
        result == following_step(step, night, first_layer_empty, surplus_left, more_days),
{
    match step {
        SleepStep::Begin => SleepStep::Count,
        SleepStep::Count => match night {
            Night::Long { seconds: _ } => SleepStep::RepayFirst,
            _ => SleepStep::Settle,
        },
        SleepStep::RepayFirst => if first_layer_empty && surplus_left {
            SleepStep::RepaySecond
        } else {
            SleepStep::Settle
        },
        SleepStep::RepaySecond => SleepStep::Settle,
        SleepStep::Settle => SleepStep::Note,
        SleepStep::Note => if more_days {
            SleepStep::Begin
        } else {
            SleepStep::Finish
        },
        SleepStep::Finish => SleepStep::Finish,
    }
}

/// Of how many days, counted from the first, the record is dropped.
pub fn forgotten_days(days: usize) -> (result: usize)
    ensures
        result == if days > HEATMAP_HISTORY_DAYS {
            days - HEATMAP_HISTORY_DAYS
        } else {
            0
        },
{
    if days > HEATMAP_HISTORY_DAYS {
        days - HEATMAP_HISTORY_DAYS
    } else {
        0
    }
}

/// A debt leaves the first layer on the seventh day behind its own, and stays until then.
pub proof fn debts_stay_for_a_week(
    first: Seq<FirstLayerDebt>,
    second: Seq<SecondLayerDebt>,
    debt: FirstLayerDebt,
    day: i32,
)
    requires
        first.contains(debt),
    ensures
        day - debt.origin < 7 ==> staying(first, day as int).contains(debt),
        day - debt.origin >= 7 ==> extended(first, second, day).contains(demoted(debt, day)),
{
    let keep = |d: FirstLayerDebt| !overdue(d, day as int);
    let out = |d: FirstLayerDebt| overdue(d, day as int);
    let i = choose|i: int| 0 <= i < first.len() && first[i] == debt;
    if day - debt.origin < 7 {
        first.lemma_filter_contains(keep, i);
    } else {
        first.lemma_filter_contains(out, i);
        let gone = first.filter(out);
        let k = gone.index_of(debt);
        assert(gone.contains(debt));
        let down = gone.map_values(|d: FirstLayerDebt| demoted(d, day));
        assert(down[k] == demoted(debt, day));
        assert((second + down)[second.len() + k] == demoted(debt, day));
    }
}

/// A debt that has just entered the second layer does not double on that day: only full weeks
/// double it.
pub proof fn entered_debts_wait_a_week(second: Seq<SecondLayerDebt>, day: int)
    ensures
        forall|k: int|
            0 <= k < doubling(second, day).len() ==> (day - (#[trigger] doubling(
                second,
                day,
            )[k]).entered) >= 7,
{
    let keep = |debt: SecondLayerDebt| week_over(debt, day);
    assert forall|k: int| 0 <= k < doubling(second, day).len() implies (day - (
    #[trigger] doubling(second, day)[k]).entered) >= 7 by {
        let debt = doubling(second, day)[k];
        assert(doubling(second, day).contains(debt));
        second.lemma_filter_contains_rev(keep, debt);
        assert(week_over(debt, day));
    }
}

proof fn lemma_insert_due(debts: Seq<FirstLayerDebt>, debt: FirstLayerDebt)
    requires
        forall|i: int, j: int|
            0 <= i < j < debts.len() ==> !first_due(#[trigger] debts[j], #[trigger] debts[i]),
    ensures
        forall|i: int, j: int|
            0 <= i < j < insert_due(debts, debt).len() ==> !first_due(
                #[trigger] insert_due(debts, debt)[j],
                #[trigger] insert_due(debts, debt)[i],
            ),
        insert_due(debts, debt).to_multiset() == debts.to_multiset().insert(debt),
        insert_due(debts, debt).len() == debts.len() + 1,
        forall|i: int|
            0 <= i < insert_due(debts, debt).len() ==> (#[trigger] insert_due(debts, debt)[i])
                == debt || debts.contains(insert_due(debts, debt)[i]),
    decreases debts.len(),
{
    broadcast use vstd::seq_lib::group_to_multiset_ensures;

    let result = insert_due(debts, debt);
    if debts.len() == 0 || !first_due(debt, debts.last()) {
        assert forall|i: int, j: int| 0 <= i < j < result.len() implies !first_due(
            #[trigger] result[j],
            #[trigger] result[i],
        ) by {
            if j == debts.len() {
                if first_due(debt, debts[i]) && i < debts.len() - 1 {
                    assert(!first_due(debts.last(), debts[i]));
                }
            }
        }
    } else {
        let rest = debts.drop_last();
        let inner = insert_due(rest, debt);
        lemma_insert_due(rest, debt);
        assert(result == inner.push(debts.last()));
        assert(debts =~= rest.push(debts.last()));
        assert(debts.to_multiset() =~= rest.to_multiset().insert(debts.last()));
        assert(result.to_multiset() =~= debts.to_multiset().insert(debt));
        assert forall|i: int| 0 <= i < result.len() implies (#[trigger] result[i]) == debt
            || debts.contains(result[i]) by {
            if i < inner.len() {
                assert(result[i] == inner[i]);
                if inner[i] != debt {
                    let k = choose|k: int| 0 <= k < rest.len() && rest[k] == inner[i];
                    assert(debts[k] == inner[i]);
                }
            } else {
                assert(result[i] == debts[debts.len() - 1]);
            }
        }
        assert forall|i: int, j: int| 0 <= i < j < result.len() implies !first_due(
            #[trigger] result[j],
            #[trigger] result[i],
        ) by {
            if j < inner.len() {
                assert(!first_due(inner[j], inner[i]));
            } else {
                assert(result[j] == debts.last());
                assert(result[i] == inner[i]);
                if inner[i] != debt {
                    let k = choose|k: int| 0 <= k < rest.len() && rest[k] == inner[i];
                    assert(debts[k] == inner[i]);
                    assert(!first_due(debts[debts.len() - 1], debts[k]));
                }
            }
        }
    }
}

/// The order of repayment keeps all debts, and none is repaid before one that is due earlier:
/// the oldest come first, and on one day those that grow.
pub proof fn oldest_debts_are_repaid_first(debts: Seq<FirstLayerDebt>)
    ensures
        in_due_order(debts).to_multiset() == debts.to_multiset(),
        forall|i: int, j: int|
            0 <= i < j < in_due_order(debts).len() ==> !first_due(
                #[trigger] in_due_order(debts)[j],
                #[trigger] in_due_order(debts)[i],
            ),
    decreases debts.len(),
{
    broadcast use vstd::seq_lib::group_to_multiset_ensures;

    if debts.len() > 0 {
        oldest_debts_are_repaid_first(debts.drop_last());
        lemma_insert_due(in_due_order(debts.drop_last()), debts.last());
        assert(debts =~= debts.drop_last().push(debts.last()));
        assert(debts.to_multiset() =~= debts.drop_last().to_multiset().insert(debts.last()));
    }
}

/// The second layer is repaid only when the first one is empty, and only after a long night.
pub proof fn first_layer_is_repaid_before_the_second(
    step: SleepStep,
    night: Night,
    first_layer_empty: bool,
    surplus_left: bool,
    more_days: bool,
)
    ensures
        ({
            let next = following_step(step, night, first_layer_empty, surplus_left, more_days);
            &&& next is RepaySecond ==> step is RepayFirst && first_layer_empty && surplus_left
            &&& next is RepayFirst ==> step is Count && night is Long
        }),
{
}

} // verus!
