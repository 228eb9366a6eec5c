use lib::dynamic_array::TimestampSaver;

#[test]
fn dynamic_array_append() {
    let mut arr = TimestampSaver::new_empty();
    let max: usize = 1_000;
    for i in 0..max {
        arr.append(i as u64);
    }
    assert_eq!(arr.length, max);
}

#[test]
fn dynamic_array_at() {
    let mut arr = TimestampSaver::new_empty();
    let max: usize = 1_000;
    for i in 0..max {
        arr.append(i as u64);
    }
    assert_eq!(arr.length, max);
    for i in 0..max {
        assert_eq!(arr.at(i), Some(i as u64));
    }
    assert_eq!(arr.at(max + 1), None);
}

#[test]
fn dynamic_array_iterate() {
    let mut arr = TimestampSaver::new_empty();
    for i in 0..5 {
        arr.append(i as u64);
    }
    assert_eq!(arr.length, 5);

    let mut i: u64 = 4;
    let mut it = arr.back_iter();
    while let Some(a) = it.next_back() {
        assert_eq!(a, i);
        if i > 0 {
            i -= 1;
        }
    }
}

#[test]
fn dynamic_array_empty_at_is_none() {
    let arr = TimestampSaver::new_empty();
    assert_eq!(arr.length, 0);
    assert_eq!(arr.cap, 0);
    assert_eq!(arr.at(0), None);
}

#[test]
fn dynamic_array_grows_by_half() {
    let mut arr = TimestampSaver::new_empty();
    arr.append(7);
    assert_eq!(arr.cap, 1);
    arr.append(8);
    assert_eq!(arr.cap, 2);
    arr.append(9);
    assert_eq!(arr.cap, 3);
    arr.append(10);
    assert_eq!(arr.cap, 4);
    arr.append(11);
    assert_eq!(arr.cap, 6);
    assert_eq!(arr.at(0), Some(7));
    assert_eq!(arr.at(4), Some(11));
    assert_eq!(arr.at(5), None);
}

#[test]
fn dynamic_array_cursor_both_ways() {
    let mut arr = TimestampSaver::new_empty();
    for v in [10u64, 20, 30] {
        arr.append(v);
    }
    let mut it = arr.back_iter();
    assert_eq!(it.next_back(), Some(30));
    assert_eq!(it.next_back(), Some(20));
    assert_eq!(it.next(), Some(10));
    assert_eq!(it.next(), Some(20));
    assert_eq!(it.next(), Some(30));
    assert_eq!(it.next(), None);
    assert_eq!(it.next_back(), None);
}

#[test]
fn dynamic_array_empty_cursor() {
    let arr = TimestampSaver::new_empty();
    let mut it = arr.back_iter();
    assert_eq!(it.next_back(), None);
    assert_eq!(it.next(), None);
}
