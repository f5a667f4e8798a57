use algo_exercises::converter::convert_base;
use algo_exercises::distinct::new_count_distinct;

#[test]
fn convert_binary_to_decimal() {
    assert_eq!(convert_base("10(2)", 10), "2");
    assert_eq!(convert_base("1010(2)", 8), "12");
}

#[test]
fn convert_hex_to_binary() {
    assert_eq!(convert_base("ff(16)", 2), "11111111");
    assert_eq!(convert_base("FF(16)", 10), "255");
}

#[test]
fn convert_to_hex_uses_lower_case() {
    assert_eq!(convert_base("255(10)", 16), "ff");
    assert_eq!(convert_base("z(36)", 10), "35");
}

#[test]
fn convert_zero() {
    assert_eq!(convert_base("0(8)", 2), "0");
}

#[test]
fn distinct_pieces() {
    assert_eq!(new_count_distinct("a,b,a"), 2);
    assert_eq!(new_count_distinct("a,b,c,a,b"), 3);
    assert_eq!(new_count_distinct("x"), 1);
}

#[test]
fn distinct_counts_empty_pieces() {
    assert_eq!(new_count_distinct(""), 1);
    assert_eq!(new_count_distinct("a,,a"), 2);
    assert_eq!(new_count_distinct(",,"), 1);
}
