use std::collections::VecDeque;

use parquet2::error::Error;
use parquet2::interval::Interval;
use parquet2::slice_filter::SliceFilteredIter;

#[test]
fn basic() {
    let iter: Vec<usize> = (0..=100).collect();

    let intervals = vec![
        Interval::new(0, 2),
        Interval::new(20, 11),
        Interval::new(31, 1),
    ];

    let a: VecDeque<Interval> = intervals.clone().into_iter().collect();
    let mut a = SliceFilteredIter::new(iter, a).unwrap();

    let expected: Vec<usize> = intervals
        .into_iter()
        .flat_map(|interval| interval.start..(interval.start + interval.length))
        .collect();

    assert_eq!(expected, a.collect_remaining());
}

#[test]
fn size_hint() {
    let iter: Vec<usize> = (0..=100).collect();

    let intervals = vec![
        Interval::new(0, 2),
        Interval::new(20, 11),
        Interval::new(31, 1),
    ];

    let a = intervals.into_iter().collect();
    let mut iter = SliceFilteredIter::new(iter, a).unwrap();

    iter.next();
    iter.next();
    iter.next();

    let expected = 2 + 11 + 1 - 3;
    assert_eq!(iter.size_hint(), (expected, Some(expected)))
}

fn rows(list: &[(usize, usize)]) -> VecDeque<Interval> {
    list.iter().map(|&(s, l)| Interval::new(s, l)).collect()
}

#[test]
fn selects_in_order_and_stops() {
    let source: Vec<char> = "abcdefghij".chars().collect();
    let mut it = SliceFilteredIter::new(source, rows(&[(1, 2), (5, 1), (9, 1)])).unwrap();
    assert_eq!(it.size_hint(), (4, Some(4)));
    assert_eq!(it.next(), Some('b'));
    assert_eq!(it.next(), Some('c'));
    assert_eq!(it.next(), Some('f'));
    assert_eq!(it.next(), Some('j'));
    assert_eq!(it.next(), None);
    assert_eq!(it.next(), None);
    assert_eq!(it.size_hint(), (0, Some(0)));
}

#[test]
fn empty_selection_yields_nothing() {
    let mut it = SliceFilteredIter::new(vec![1, 2, 3], VecDeque::new()).unwrap();
    assert_eq!(it.collect_remaining(), Vec::<i32>::new());
}

#[test]
fn whole_source_selected() {
    let mut it = SliceFilteredIter::new(vec![1, 2, 3], rows(&[(0, 3)])).unwrap();
    assert_eq!(it.collect_remaining(), vec![1, 2, 3]);
}

#[test]
fn overlapping_selection_is_refused() {
    let r = SliceFilteredIter::new(vec![0; 10], rows(&[(0, 3), (2, 2)]));
    assert!(matches!(r, Err(Error::InvalidSelection)));
}

#[test]
fn unsorted_selection_is_refused() {
    let r = SliceFilteredIter::new(vec![0; 10], rows(&[(5, 1), (1, 1)]));
    assert!(matches!(r, Err(Error::InvalidSelection)));
}

#[test]
fn empty_interval_is_refused() {
    let r = SliceFilteredIter::new(vec![0; 10], rows(&[(1, 0)]));
    assert!(matches!(r, Err(Error::InvalidSelection)));
}

#[test]
fn interval_past_end_is_refused() {
    let r = SliceFilteredIter::new(vec![0; 10], rows(&[(8, 3)]));
    assert!(matches!(r, Err(Error::InvalidSelection)));
}
