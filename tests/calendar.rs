use algo_exercises::calendar::time_info;

#[test]
fn time_info_fixed_dates() {
    assert_eq!(time_info("2025-01-01"), "1,3,1,364,28,0");
    assert_eq!(time_info("2025-01-18"), "3,6,18,347,11,1");
    assert_eq!(time_info("2025-12-31"), "1,3,365,0,48,1");
}

#[test]
fn time_info_ordinary_monday() {
    assert_eq!(time_info("2025-03-03"), "10,1,62,303,351,1");
}

#[test]
fn time_info_before_national_day_holiday() {
    assert_eq!(time_info("2025-09-30"), "40,2,273,92,140,8");
}

#[test]
fn time_info_early_2026() {
    assert_eq!(time_info("2026-01-05"), "2,1,5,360,43,1");
}

#[test]
fn time_info_week_one_of_2026() {
    // Thursday 1 January 2026 opens ISO week 1 of 2026.
    assert_eq!(time_info("2026-01-02"), "1,5,2,363,46,3");
}
