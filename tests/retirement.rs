use algo_exercises::retirement::retire_time;

#[test]
fn retire_female_55_at_segment_boundary() {
    assert_eq!(retire_time("1971-04", "原法定退休年龄55周岁女职工"), "2026-08,55.33,4");
}

#[test]
fn retire_male_first_delayed_month() {
    assert_eq!(retire_time("1965-01", "男职工"), "2025-02,60.08,1");
}

#[test]
fn retire_male_full_delay() {
    assert_eq!(retire_time("1976-12", "男职工"), "2039-12,63,36");
}

#[test]
fn retire_female_50_full_delay() {
    assert_eq!(retire_time("1995-12", "原法定退休年龄50周岁女职工"), "2050-12,55,60");
}

#[test]
fn retire_unknown_category_has_no_delay() {
    assert_eq!(retire_time("1960-05", "干部"), "2020-05,60,0");
}

#[test]
fn retire_invalid_birth_format() {
    assert_eq!(retire_time("2000", "男职工"), "Invalid birth format");
    assert_eq!(retire_time("2000-01-01", "男职工"), "Invalid birth format");
}

#[test]
fn retire_unparsable_parts_count_as_zero() {
    assert_eq!(retire_time("abc-xyz", "男职工"), "0059-12,60,0");
}
