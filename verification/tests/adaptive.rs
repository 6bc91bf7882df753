use photorg::adaptive::{decide, Level};
use photorg::calendar::Date;
use photorg::template::Template;

fn day(y: i32, m: u32, d: u32) -> Option<Date> {
    Date::new(y, m, d)
}

#[test]
fn sparse_year_stays_at_year_level() {
    let dates: Vec<_> = (1..=10).map(|d| day(2020, 1, d)).collect();
    assert!(decide(&dates, 400).iter().all(|l| *l == Level::Year));
}

#[test]
fn busy_year_splits_into_months() {
    let mut dates = Vec::new();
    for m in 1..=12u32 {
        for _ in 0..10 {
            dates.push(day(2021, m, 1));
        }
    }
    assert!(decide(&dates, 100).iter().all(|l| *l == Level::Month));
}

#[test]
fn busy_month_splits_into_weeks_independently() {
    let mut dates = Vec::new();
    // January: 30 photos -> weeks. February: 3 photos -> month.
    for _ in 0..30 {
        dates.push(day(2022, 1, 10));
    }
    for _ in 0..3 {
        dates.push(day(2022, 2, 10));
    }
    let levels = decide(&dates, 20);
    assert!(levels[..30].iter().all(|l| *l == Level::Week));
    assert!(levels[30..].iter().all(|l| *l == Level::Month));
}

#[test]
fn each_year_is_decided_on_its_own() {
    let mut dates = Vec::new();
    for _ in 0..50 {
        dates.push(day(2023, 6, 1));
    }
    for _ in 0..2 {
        dates.push(day(2024, 6, 1));
    }
    let levels = decide(&dates, 10);
    assert_eq!(levels[0], Level::Week);
    assert_eq!(levels[51], Level::Year);
}

#[test]
fn threshold_is_strictly_greater() {
    let dates: Vec<_> = (0..10).map(|_| day(2020, 1, 1)).collect();
    assert!(decide(&dates, 10).iter().all(|l| *l == Level::Year));
    assert!(decide(&dates, 9).iter().all(|l| *l != Level::Year));
}

#[test]
fn unknown_dates_do_not_count_toward_a_split() {
    let mut dates = vec![None; 1000];
    dates.push(day(2020, 1, 1));
    let levels = decide(&dates, 10);
    assert!(levels.iter().all(|l| *l == Level::Year));
}

#[test]
fn levels_name_their_templates() {
    assert_eq!(Level::Year.template_str(), "{year}");
    assert_ne!(Level::Month.template_str(), Level::Week.template_str());
}

#[test]
fn each_level_nests_inside_the_one_above() {
    let levels = [Level::Year, Level::Month, Level::Week];
    for pair in levels.windows(2) {
        let above = format!("{}/", pair[0].template_str());
        assert!(pair[1].template_str().starts_with(&above));
    }
    for level in levels {
        assert!(Template::parse(level.template_str()).is_ok());
    }
}
