use lib::double_list::TransactionLog;

#[test]
fn transaction_log_append_pop() {
    let mut log = TransactionLog::new_empty();
    log.append("iPhone13pro".to_string());
    log.append("iPhone14pro".to_string());
    assert_eq!(log.length, 2);
    assert_eq!(log.pop(), Some("iPhone13pro".to_string()));
    assert_eq!(log.length, 1);
    assert_eq!(log.pop(), Some("iPhone14pro".to_string()));
    assert_eq!(log.length, 0);
    assert_eq!(log.pop(), None);
    assert_eq!(log.length, 0);
}

#[test]
fn transaction_log_iterates_both_ways() {
    let mut log = TransactionLog::new_empty();
    for s in ["a", "b", "c"] {
        log.append(s.to_string());
    }
    let mut it = log.iter();
    assert_eq!(it.next(), Some("a".to_string()));
    assert_eq!(it.next(), Some("b".to_string()));
    assert_eq!(it.next(), Some("c".to_string()));
    assert_eq!(it.next(), None);
    // the log itself is left as it was
    assert_eq!(log.length, 3);

    let mut back = log.back_iter();
    assert_eq!(back.next_back(), Some("c".to_string()));
    assert_eq!(back.next_back(), Some("b".to_string()));
    assert_eq!(back.next(), Some("a".to_string()));
    assert_eq!(back.next(), Some("b".to_string()));
    assert_eq!(back.next_back(), Some("c".to_string()));
}

#[test]
fn transaction_log_reuses_popped_slots() {
    let mut log = TransactionLog::new_empty();
    log.append("1".to_string());
    log.append("2".to_string());
    assert_eq!(log.pop(), Some("1".to_string()));
    log.append("3".to_string());
    assert_eq!(log.nodes.len(), 2);
    let mut it = log.into_iter();
    assert_eq!(it.next(), Some("2".to_string()));
    assert_eq!(it.next(), Some("3".to_string()));
    assert_eq!(it.next(), None);
}

#[test]
fn transaction_log_empty_iterators() {
    let log = TransactionLog::new_empty();
    let mut it = log.iter();
    assert_eq!(it.next(), None);
    assert_eq!(it.next_back(), None);
    let mut back = log.back_iter();
    assert_eq!(back.next_back(), None);
}

#[test]
fn transaction_log_empty_pop_keeps_ends_empty() {
    let mut log = TransactionLog::new_empty();
    assert!(log.head.is_none() && log.tail.is_none());
    assert_eq!(log.pop(), None);
    assert!(log.head.is_none() && log.tail.is_none());
    assert_eq!(log.length, 0);
    log.append("x".to_string());
    assert!(log.head.is_some() && log.tail.is_some());
    assert_eq!(log.pop(), Some("x".to_string()));
    assert!(log.head.is_none() && log.tail.is_none());
}

#[test]
fn transaction_log_cursors_read_the_same_log() {
    let mut log = TransactionLog::new_empty();
    log.append("a".to_string());
    log.append("b".to_string());
    let mut first = log.iter();
    let mut second = log.iter();
    assert_eq!(first.next(), Some("a".to_string()));
    assert_eq!(second.next(), Some("a".to_string()));
    assert_eq!(first.next(), Some("b".to_string()));
    assert_eq!(first.next_back(), None);
    assert_eq!(second.next(), Some("b".to_string()));
    assert_eq!(log.length, 2);
}
