use pttlogger::calendar::Date;

fn is_leap(year: i64) -> bool {
    year.rem_euclid(4) == 0 && (year.rem_euclid(100) != 0 || year.rem_euclid(400) == 0)
}

fn days_in(year: i64, month: i64) -> i64 {
    match month {
        2 => {
            if is_leap(year) {
                29
            } else {
                28
            }
        }
        4 | 6 | 9 | 11 => 30,
        _ => 31,
    }
}

fn is_day(year: i64, month: i64, day: i64) -> bool {
    -262143 <= year && year <= 262142 && 1 <= month && month <= 12 && 1 <= day
        && day <= days_in(year, month)
}

fn moved(date: (i64, i64, i64), months: i64) -> Option<(i64, i64, i64)> {
    let total = date.0 * 12 + (date.1 - 1) + months;
    let year = total.div_euclid(12);
    let month = total.rem_euclid(12) + 1;
    let last = days_in(year, month);
    if -262143 <= year && year <= 262142 {
        Some((year, month, if date.2 > last { last } else { date.2 }))
    } else {
        None
    }
}

fn number(year: i64, month: i64, day: i64) -> i64 {
    let leaps = (year + 3).div_euclid(4) - (year + 99).div_euclid(100) + (year + 399).div_euclid(400);
    let mut days = 365 * year + leaps;
    for earlier in 1..month {
        days += days_in(year, earlier);
    }
    days + day - 1
}

fn years() -> Vec<i32> {
    let mut years = vec![
        -262144, -262143, -262142, -400, -100, -5, -4, -1, 0, 1, 4, 100, 400, 1900, 1999, 2000,
        2022, 2023, 2024, 2100, 9999, 10000, 262141, 262142, 262143, i32::MIN, i32::MAX,
    ];
    let mut year = -262000;
    while year < 262000 {
        years.push(year);
        year += 4999;
    }
    years
}

#[test]
fn dates_exist_where_the_calendar_has_them() {
    for year in years() {
        for month in 0..15u32 {
            for day in 0..34u32 {
                assert_eq!(
                    is_day(year as i64, month as i64, day as i64),
                    Date::from_ymd_opt(year, month, day).is_some(),
                    "{}-{}-{}",
                    year,
                    month,
                    day
                );
            }
        }
    }
    assert!(Date::from_ymd_opt(2022, u32::MAX, 1).is_none());
    assert!(Date::from_ymd_opt(2022, 1, u32::MAX).is_none());
}

#[test]
fn months_are_added_as_the_calendar_counts_them() {
    let amounts = [
        0, 1, -1, 2, -2, 11, -11, 12, -12, 13, -13, 24, 25, -25, 1200, -1200, 4799, -4801,
        3_000_000, -3_000_000, 6_291_455, -6_291_455, 4_294_967_295, -4_294_967_295,
        4_294_967_296, -4_294_967_296, i64::MAX, i64::MIN,
    ];
    for year in years() {
        for month in 1..13u32 {
            for day in [1u32, 15, 28, 29, 30, 31] {
                let date = match Date::from_ymd_opt(year, month, day) {
                    Some(date) => date,
                    None => continue,
                };
                for amount in amounts {
                    let expected = if amount.unsigned_abs() > u32::MAX as u64 {
                        None
                    } else {
                        moved((year as i64, month as i64, day as i64), amount)
                    };
                    let got = date
                        .plus_months(amount)
                        .map(|d| (d.year() as i64, d.month() as i64, d.day() as i64));
                    assert_eq!(expected, got, "{}-{}-{} {}", year, month, day, amount);
                }
            }
        }
    }
}

#[test]
fn days_are_added_one_after_the_other() {
    let mut date = Date::from_ymd(2019, 12, 30);
    let mut weekday = date.weekday();
    assert_eq!(0, weekday);
    for _ in 0..800 {
        let next = date.plus_days(1).unwrap();
        let expected = if date.day() as i64 == days_in(date.year() as i64, date.month() as i64) {
            if date.month() == 12 {
                (date.year() + 1, 1, 1)
            } else {
                (date.year(), date.month() + 1, 1)
            }
        } else {
            (date.year(), date.month(), date.day() + 1)
        };
        assert_eq!(expected, (next.year(), next.month(), next.day()));
        assert!(date.is_before(&next));
        assert!(!next.is_before(&date));
        assert!(!date.same_day(&next));
        assert_eq!((weekday + 1) % 7, next.weekday());
        assert_eq!(date.to_string(), next.plus_days(-1).unwrap().to_string());
        weekday = next.weekday();
        date = next;
    }
    assert_eq!("2022-03-09", date.to_string());
    assert_eq!("2022-03-09", date.plus_days(0).unwrap().to_string());
    assert_eq!("2024-03-08", date.plus_days(730).unwrap().to_string());
    assert!(date.plus_days(i64::MAX).is_none());
    assert!(date.plus_days(i64::MIN).is_none());
    assert!(date.plus_days(200_000_000).is_none());
    assert!(Date::from_ymd(-262143, 1, 1).plus_days(-1).is_none());
    assert_eq!(
        "262142-12-31",
        Date::from_ymd(262142, 12, 30).plus_days(1).unwrap().to_string()
    );
}

#[test]
fn days_are_numbered_from_the_year_nought() {
    assert_eq!(0, number(0, 1, 1));
    assert_eq!(-1, number(-1, 12, 31));
    assert_eq!(366, number(1, 1, 1));
    assert_eq!(738521, number(2022, 1, 1));
    let first = number(-262143, 1, 1);
    let last = number(262142, 12, 31);
    let amounts = [
        0, 1, -1, 6, 7, -7, 28, 31, 59, 60, 365, -365, 366, 730, 1461, -1461, 36524, 146097,
        -146097, 1_000_000, -1_000_000, 95_000_000, -95_000_000, 191_000_000, -191_000_000,
        2_147_483_647, -2_147_483_648, 2_147_483_648, i64::MAX, i64::MIN,
    ];
    for year in years() {
        for month in 1..13u32 {
            for day in [1u32, 2, 28, 29, 30, 31] {
                let date = match Date::from_ymd_opt(year, month, day) {
                    Some(date) => date,
                    None => continue,
                };
                let here = number(year as i64, month as i64, day as i64);
                assert_eq!((here + 5).rem_euclid(7), date.weekday() as i64);
                for amount in amounts {
                    let target = here.checked_add(amount);
                    match date.plus_days(amount) {
                        Some(moved) => {
                            assert_eq!(
                                target,
                                Some(number(
                                    moved.year() as i64,
                                    moved.month() as i64,
                                    moved.day() as i64
                                ))
                            );
                        }
                        None => {
                            assert!(
                                target.map_or(true, |target| target < first || target > last),
                                "{}-{}-{} {}",
                                year,
                                month,
                                day,
                                amount
                            );
                        }
                    }
                }
            }
        }
    }
}
