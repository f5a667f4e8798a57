use algo_exercises::bills::dp_rec_mc;

#[test]
fn bills_for_zero() {
    assert_eq!(dp_rec_mc(0), 0);
}

#[test]
fn bills_for_small_amounts() {
    assert_eq!(dp_rec_mc(1), 1);
    assert_eq!(dp_rec_mc(3), 2);
    assert_eq!(dp_rec_mc(4), 2);
}

#[test]
fn bills_prefer_thirties_over_greedy() {
    assert_eq!(dp_rec_mc(40), 2);
    assert_eq!(dp_rec_mc(60), 2);
}

#[test]
fn bills_for_larger_amounts() {
    assert_eq!(dp_rec_mc(93), 5);
    assert_eq!(dp_rec_mc(100), 1);
    assert_eq!(dp_rec_mc(1000), 10);
}
