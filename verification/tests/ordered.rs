use cas::ordered::{ascending, note, noted, put};
use std::collections::{BTreeMap, BTreeSet};

#[test]
fn a_set_gives_its_numbers_in_ascending_order() {
    let mut nums = BTreeSet::new();
    assert_eq!(ascending(&nums), Vec::<u32>::new());
    for &n in [7u32, 0, 7, u32::MAX, 3, 0].iter() {
        put(&mut nums, n);
    }
    assert_eq!(ascending(&nums), vec![0, 3, 7, u32::MAX]);
}

#[test]
fn a_place_that_was_noted_is_found() {
    let mut places = BTreeMap::new();
    assert_eq!(noted(&places, 5), None);
    note(&mut places, 5, 0);
    note(&mut places, 9, 1);
    assert_eq!(noted(&places, 5), Some(0));
    assert_eq!(noted(&places, 9), Some(1));
    assert_eq!(noted(&places, 6), None);
    note(&mut places, 5, 2);
    assert_eq!(noted(&places, 5), Some(2));
}
