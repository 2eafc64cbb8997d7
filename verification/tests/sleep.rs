use screenuse::sleep::{
    begin_day, count_night, drop_spent, forgotten_days, is_monday, next_sleep_step,
    order_first_layer, order_second_layer, FirstLayerDebt, Night, SecondLayerDebt, SleepDebts,
    SleepStep, MONDAY_DEBT_SECONDS,
};
use std::collections::HashMap;

use chrono::{Datelike, NaiveDate};

fn day(value: &str) -> i32 {
    NaiveDate::parse_from_str(value, "%Y-%m-%d")
        .expect("valid date")
        .num_days_from_ce()
}

fn sleep_days(values: &[(&str, f64)]) -> HashMap<i32, u64> {
    values
        .iter()
        .map(|(date, hours)| (day(date), (hours * 3_600.0) as u64))
        .collect()
}

struct Summary {
    first_layer_seconds: u64,
    second_layer_seconds: u64,
}

fn rounded(values: impl Iterator<Item = f64>) -> u64 {
    values.sum::<f64>().max(0.0).round() as u64
}

fn spent(amounts: &Vec<f64>) -> Vec<usize> {
    (0..amounts.len()).filter(|slot| amounts[*slot] < 0.5).collect()
}

fn repay(slots: &Vec<usize>, amounts: &mut Vec<f64>, available: &mut f64) {
    for slot in slots {
        if *available <= 0.0 {
            break;
        }
        let repaid = amounts[*slot].min(*available);
        amounts[*slot] -= repaid;
        *available -= repaid;
    }
}

fn calculate(started_on: i32, as_of: i32, slept: &HashMap<i32, u64>) -> Summary {
    let mut debts = SleepDebts { first: vec![], second: vec![] };
    let mut amounts: Vec<f64> = vec![];
    let mut today = started_on;
    let mut night = Night::Even;
    let mut surplus = 0.0;
    let mut step = if started_on <= as_of { SleepStep::Begin } else { SleepStep::Finish };
    while step != SleepStep::Finish {
        match step {
            SleepStep::Begin => {
                let morning = begin_day(&mut debts, today, started_on, amounts.len());
                for slot in &morning.grown {
                    amounts[*slot] *= 1.5;
                }
                for slot in &morning.doubled {
                    amounts[*slot] *= 2.0;
                }
                if morning.monday {
                    amounts.push(MONDAY_DEBT_SECONDS as f64);
                }
            }
            SleepStep::Count => {
                let seconds = slept.get(&today).copied().unwrap_or_default();
                night = count_night(&mut debts, today, seconds, amounts.len());
                if let Night::Short { seconds } = night {
                    amounts.push(seconds as f64);
                }
            }
            SleepStep::RepayFirst => {
                if let Night::Long { seconds } = night {
                    surplus = seconds as f64;
                }
                order_first_layer(&mut debts);
                let slots = debts.first.iter().map(|debt| debt.slot).collect();
                repay(&slots, &mut amounts, &mut surplus);
                let empty = spent(&amounts);
                drop_spent(&mut debts, &empty);
            }
            SleepStep::RepaySecond => {
                let mut effective = surplus * (1.0 / 3.0);
                order_second_layer(&mut debts);
                let slots = debts.second.iter().map(|debt| debt.slot).collect();
                repay(&slots, &mut amounts, &mut effective);
            }
            SleepStep::Settle => {
                let empty = spent(&amounts);
                drop_spent(&mut debts, &empty);
            }
            SleepStep::Note => today += 1,
            SleepStep::Finish => {}
        }
        step = next_sleep_step(step, night, debts.first.is_empty(), surplus > 0.0, today <= as_of);
    }
    Summary {
        first_layer_seconds: rounded(debts.first.iter().map(|debt| amounts[debt.slot])),
        second_layer_seconds: rounded(debts.second.iter().map(|debt| amounts[debt.slot])),
    }
}

#[test]
fn daily_deficit_grows_by_half_each_day() {
    let sleep = sleep_days(&[
        ("2026-07-21", 7.0),
        ("2026-07-22", 8.0),
        ("2026-07-23", 8.0),
        ("2026-07-24", 8.0),
    ]);
    let result = calculate(day("2026-07-21"), day("2026-07-24"), &sleep);
    assert_eq!(result.first_layer_seconds, (3.375 * 3_600.0) as u64);
    assert_eq!(result.second_layer_seconds, 0);
}

#[test]
fn monday_debt_does_not_compound_daily() {
    let sleep = sleep_days(&[
        ("2026-07-20", 8.0),
        ("2026-07-21", 8.0),
        ("2026-07-22", 8.0),
        ("2026-07-23", 8.0),
    ]);
    let result = calculate(day("2026-07-20"), day("2026-07-23"), &sleep);
    assert_eq!(result.first_layer_seconds, 3 * 3_600);
}

#[test]
fn same_day_surplus_repays_compounding_shortfall_before_fixed_monday_debt() {
    let monday = day("2026-07-20");
    let mut debts = SleepDebts {
        first: vec![
            FirstLayerDebt { origin: monday, compounds_daily: false, slot: 0 },
            FirstLayerDebt { origin: monday, compounds_daily: true, slot: 1 },
        ],
        second: vec![],
    };
    let mut amounts = vec![3.0 * 3_600.0, 4.0 * 3_600.0];
    let mut surplus = 2.0 * 3_600.0;

    order_first_layer(&mut debts);
    let slots = debts.first.iter().map(|debt| debt.slot).collect();
    repay(&slots, &mut amounts, &mut surplus);
    let empty = spent(&amounts);
    drop_spent(&mut debts, &empty);

    assert_eq!(surplus, 0.0);
    assert_eq!(debts.first.len(), 2);
    assert_eq!(amounts[debts.first[0].slot], 2.0 * 3_600.0);
    assert!(debts.first[0].compounds_daily);
    assert_eq!(amounts[debts.first[1].slot], 3.0 * 3_600.0);
    assert!(!debts.first[1].compounds_daily);
}

#[test]
fn fixed_monday_debt_stays_flat_while_remaining_shortfall_compounds() {
    let sleep = sleep_days(&[
        ("2026-07-20", 4.0),
        ("2026-07-21", 10.0),
        ("2026-07-22", 8.0),
    ]);
    let result = calculate(day("2026-07-20"), day("2026-07-22"), &sleep);
    assert_eq!(result.first_layer_seconds, 9 * 3_600);
    assert_eq!(result.second_layer_seconds, 0);
}

#[test]
fn surplus_repays_first_layer_before_second_layer() {
    let sleep = sleep_days(&[("2026-07-21", 7.0), ("2026-07-22", 10.0)]);
    let result = calculate(day("2026-07-21"), day("2026-07-22"), &sleep);
    assert_eq!(result.first_layer_seconds, 0);
    assert_eq!(result.second_layer_seconds, 0);
}

#[test]
fn old_first_layer_debt_moves_to_second_layer_after_seven_days() {
    let mut values = vec![("2026-07-21", 7.0)];
    values.extend([
        ("2026-07-22", 8.0),
        ("2026-07-23", 8.0),
        ("2026-07-24", 8.0),
        ("2026-07-25", 8.0),
        ("2026-07-26", 8.0),
        ("2026-07-27", 11.0),
        ("2026-07-28", 8.0),
    ]);
    let result = calculate(day("2026-07-21"), day("2026-07-28"), &sleep_days(&values));
    assert_eq!(result.first_layer_seconds, 3 * 3_600);
    assert_eq!(result.second_layer_seconds, 45_309);
}

#[test]
fn second_layer_doubles_weekly_and_surplus_has_one_third_effect() {
    let mut values = vec![("2026-07-21", 7.0)];
    for date in 22..=31 {
        values.push((
            match date {
                22 => "2026-07-22",
                23 => "2026-07-23",
                24 => "2026-07-24",
                25 => "2026-07-25",
                26 => "2026-07-26",
                27 => "2026-07-27",
                28 => "2026-07-28",
                29 => "2026-07-29",
                30 => "2026-07-30",
                _ => "2026-07-31",
            },
            8.0,
        ));
    }
    values.extend([
        ("2026-08-01", 8.0),
        ("2026-08-02", 8.0),
        ("2026-08-03", 8.0),
        ("2026-08-04", 8.0),
    ]);
    let result = calculate(day("2026-07-21"), day("2026-08-04"), &sleep_days(&values));
    assert_eq!(result.second_layer_seconds, 133_819);
    assert_eq!(result.first_layer_seconds, 3 * 3_600);

    let repayment = calculate(
        day("2026-07-21"),
        day("2026-07-30"),
        &sleep_days(&[
            ("2026-07-21", 7.0),
            ("2026-07-22", 8.0),
            ("2026-07-23", 8.0),
            ("2026-07-24", 8.0),
            ("2026-07-25", 8.0),
            ("2026-07-26", 8.0),
            ("2026-07-27", 8.0),
            ("2026-07-28", 8.0),
            ("2026-07-29", 11.0),
            ("2026-07-30", 11.0),
        ]),
    );
    assert_eq!(repayment.first_layer_seconds, 0);
    assert_eq!(repayment.second_layer_seconds, 57_909);
}

#[test]
fn mondays_are_recognised_in_any_year() {
    assert!(is_monday(1));
    assert!(is_monday(day("2026-07-20")));
    assert!(!is_monday(day("2026-07-21")));
    assert!(is_monday(-6));
    assert!(!is_monday(0));
}

#[test]
fn debts_change_layer_on_the_seventh_day() {
    let debt = FirstLayerDebt { origin: 100, compounds_daily: true, slot: 4 };
    let mut debts = SleepDebts { first: vec![debt], second: vec![] };
    let stays = begin_day(&mut debts, 106, 50, 9);
    assert_eq!(stays.grown, vec![4]);
    assert!(debts.second.is_empty());
    let leaves = begin_day(&mut debts, 107, 50, 9);
    assert_eq!(leaves.grown, vec![4]);
    assert!(leaves.doubled.is_empty());
    assert_eq!(debts.second, vec![SecondLayerDebt { entered: 107, slot: 4 }]);
    let doubles = begin_day(&mut debts, 114, 50, 9);
    assert_eq!(doubles.doubled, vec![4]);
}

#[test]
fn the_second_layer_is_repaid_by_age() {
    let mut debts = SleepDebts {
        first: vec![],
        second: vec![
            SecondLayerDebt { entered: 9, slot: 0 },
            SecondLayerDebt { entered: 3, slot: 1 },
            SecondLayerDebt { entered: 9, slot: 2 },
        ],
    };
    order_second_layer(&mut debts);
    let slots: Vec<usize> = debts.second.iter().map(|debt| debt.slot).collect();
    assert_eq!(slots, vec![1, 0, 2]);
    assert_eq!(forgotten_days(371), 0);
    assert_eq!(forgotten_days(400), 29);
}
