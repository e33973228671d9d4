use linestats::decimal::Decimal;
use linestats::error::Error;
use linestats::stats::Statistic;

fn d(scaled: i64) -> Decimal {
    Decimal { scaled }
}

fn of(values: &[i64]) -> Statistic {
    let mut stat = Statistic::first(d(values[0]));
    for v in &values[1..] {
        stat.update(d(*v)).unwrap();
    }
    stat
}

#[test]
fn the_first_value_is_smallest_largest_and_sum() {
    let stat = Statistic::first(d(-70));
    assert_eq!(stat, Statistic { min: d(-70), max: d(-70), sum: -70, count: 1 });
    assert_eq!(stat.mean(), d(-70));
}

#[test]
fn ten_twenty_thirty() {
    let stat = of(&[100_000, 200_000, 300_000]);
    assert_eq!(stat.min, d(100_000));
    assert_eq!(stat.max, d(300_000));
    assert_eq!(stat.sum, 600_000);
    assert_eq!(stat.count, 3);
    assert_eq!(stat.mean(), d(200_000));
}

#[test]
fn the_order_of_arrival_does_not_matter() {
    let orders: [[i64; 4]; 6] = [
        [5, -3, 12, 7],
        [7, 12, -3, 5],
        [-3, 5, 7, 12],
        [12, 7, 5, -3],
        [5, 7, -3, 12],
        [12, -3, 7, 5],
    ];
    let expected = Statistic { min: d(-3), max: d(12), sum: 21, count: 4 };
    for order in orders.iter() {
        assert_eq!(of(order), expected);
        assert_eq!(of(order).mean(), d(5));
    }
}

#[test]
fn the_mean_is_rounded_down() {
    assert_eq!(of(&[1, 2]).mean(), d(1));
    assert_eq!(of(&[-1, -2]).mean(), d(-2));
    assert_eq!(of(&[-1, 0, 0]).mean(), d(-1));
    assert_eq!(of(&[-3, -3, -3]).mean(), d(-3));
    assert_eq!(of(&[-4, -3, -3]).mean(), d(-4));
    assert_eq!(of(&[i64::MAX, i64::MAX]).mean(), d(i64::MAX));
    assert_eq!(of(&[i64::MIN, i64::MIN, i64::MIN]).mean(), d(i64::MIN));
    assert_eq!(of(&[i64::MIN, i64::MAX]).mean(), d(-1));
}

#[test]
fn merging_weighs_by_count() {
    let mut a = of(&[10, 10, 10, 10]);
    let b = of(&[20]);
    assert_eq!(a.merge(&b), Ok(()));
    assert_eq!(a, Statistic { min: d(10), max: d(20), sum: 60, count: 5 });
    assert_eq!(a.mean(), d(12));
    assert_eq!(a, of(&[10, 10, 10, 10, 20]));
}

#[test]
fn merging_is_what_one_pass_gives() {
    let mut left = of(&[3, -8, 5]);
    let right = of(&[40, -9, 0, 2]);
    left.merge(&right).unwrap();
    assert_eq!(left, of(&[3, -8, 5, 40, -9, 0, 2]));
    let mut other_way = of(&[40, -9, 0, 2]);
    other_way.merge(&of(&[3, -8, 5])).unwrap();
    assert_eq!(other_way, left);
}

#[test]
fn a_full_counter_refuses_one_more() {
    let full = Statistic { min: d(0), max: d(1), sum: 7, count: u64::MAX };
    let mut stat = full;
    assert_eq!(stat.update(d(1)), Err(Error::CountOverflow));
    assert_eq!(stat, full);
    let mut almost = Statistic { min: d(0), max: d(1), sum: 7, count: u64::MAX - 1 };
    assert_eq!(almost.update(d(1)), Ok(()));
    assert_eq!(almost, Statistic { min: d(0), max: d(1), sum: 8, count: u64::MAX });
}

#[test]
fn counts_that_do_not_add_up_refuse_to_merge() {
    let big = Statistic { min: d(0), max: d(1), sum: 7, count: u64::MAX - 1 };
    let mut stat = big;
    assert_eq!(stat.merge(&of(&[1, 1])), Err(Error::CountOverflow));
    assert_eq!(stat, big);
    assert_eq!(stat.merge(&of(&[1])), Ok(()));
    assert_eq!(stat.count, u64::MAX);
    assert_eq!(stat.sum, 8);
}

#[test]
fn sums_of_extreme_values_stay_exact() {
    let mut stat = Statistic {
        min: d(i64::MAX),
        max: d(i64::MAX),
        sum: (i64::MAX as i128) * ((u64::MAX - 1) as i128),
        count: u64::MAX - 1,
    };
    assert_eq!(stat.update(d(i64::MAX)), Ok(()));
    assert_eq!(stat.sum, (i64::MAX as i128) * (u64::MAX as i128));
    assert_eq!(stat.mean(), d(i64::MAX));
}
