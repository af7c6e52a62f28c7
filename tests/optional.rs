use std::collections::VecDeque;

use parquet2::optional::OptionalValues;

#[test]
fn merges_validity_with_values() {
    let validity: VecDeque<bool> = vec![true, false, true, true, false].into_iter().collect();
    let values: VecDeque<i32> = vec![10, 20, 30].into_iter().collect();
    let mut it = OptionalValues::new(validity, values);
    assert_eq!(it.size_hint(), (5, Some(5)));
    assert_eq!(it.next(), Some(Some(10)));
    assert_eq!(it.size_hint(), (4, Some(4)));
    assert_eq!(
        it.collect_remaining(),
        vec![None, Some(20), Some(30), None]
    );
    assert_eq!(it.next(), None);
}

#[test]
fn absent_rows_consume_no_value() {
    let validity: VecDeque<bool> = vec![false, false, true].into_iter().collect();
    let values: VecDeque<&str> = vec!["x"].into_iter().collect();
    let mut it = OptionalValues::new(validity, values);
    assert_eq!(it.collect_remaining(), vec![None, None, Some("x")]);
}

#[test]
fn empty_validity_yields_nothing() {
    let mut it = OptionalValues::new(VecDeque::new(), vec![1u8].into_iter().collect());
    assert_eq!(it.size_hint(), (0, Some(0)));
    assert_eq!(it.next(), None);
}

#[test]
fn values_running_out_give_none() {
    let validity: VecDeque<bool> = vec![true, true].into_iter().collect();
    let values: VecDeque<u8> = vec![1].into_iter().collect();
    let mut it = OptionalValues::new(validity, values);
    assert_eq!(it.collect_remaining(), vec![Some(1), None]);
}
