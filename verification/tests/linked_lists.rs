use transaction_log::doubly_linked_list::BetterTransactionLog;
use transaction_log::linked_list::TransactionLog;

#[test]
fn test_linked_list() {
    let mut log = TransactionLog::new_empty();
    println!("log = {:?}", log);

    println!("\n=== append");
    log.append("this is log 1...".to_string());
    log.append("Hello, I'm log 2...".to_string());
    log.append("Hello, I'm log 3...".to_string());
    println!("log = {:#?}", log);

    println!("\n=== pop");
    let l = log.pop();
    println!("l = {:#?}", l);
    println!("log = {:#?}", log);
}

#[test]
fn test_doubly_linked_list() {
    let mut log = BetterTransactionLog::new_empty();

    log.append("this is log 1...".to_string());
    log.append("Hello, I'm log 2...".to_string());
    log.append("Hello, I'm log 3...".to_string());
    log.append("Hello, I'm log 4...".to_string());
    log.append("Hello, I'm log 5...".to_string());
    log.append("Hello, I'm log 6...".to_string());
    log.append("Hello, I'm log 7...".to_string());

    let mut log_iter = log.into_iter();
    println!("{:?}", &log_iter.next_back());
}

#[test]
fn linked_list_pops_in_append_order() {
    let mut log = TransactionLog::new_empty();
    assert_eq!(log.pop(), None);
    log.append("first".to_string());
    log.append("second".to_string());
    log.append("third".to_string());
    assert_eq!(log.length(), 3);
    assert_eq!(log.pop(), Some("first".to_string()));
    assert_eq!(log.pop(), Some("second".to_string()));
    assert_eq!(log.pop(), Some("third".to_string()));
    assert_eq!(log.pop(), None);
    assert_eq!(log.length(), 0);
}

#[test]
fn doubly_linked_list_pops_in_append_order() {
    let mut log = BetterTransactionLog::new_empty();
    assert_eq!(log.pop(), None);
    log.append("first".to_string());
    log.append("second".to_string());
    assert_eq!(log.length(), 2);
    assert_eq!(log.pop(), Some("first".to_string()));
    assert_eq!(log.pop(), Some("second".to_string()));
    assert_eq!(log.pop(), None);
}

#[test]
fn doubly_linked_list_cursor_walks_both_ways() {
    let mut log = BetterTransactionLog::new_empty();
    log.append("a".to_string());
    log.append("b".to_string());
    log.append("c".to_string());

    let mut forward = log.iter();
    assert_eq!(forward.next(), Some("a".to_string()));
    assert_eq!(forward.next(), Some("b".to_string()));
    assert_eq!(forward.next(), Some("c".to_string()));
    assert_eq!(forward.next(), None);

    // the log itself is untouched by iteration
    assert_eq!(log.length(), 3);

    let mut backward = log.back_iter();
    assert_eq!(backward.next_back(), Some("c".to_string()));
    assert_eq!(backward.next_back(), Some("b".to_string()));
    assert_eq!(backward.next_back(), Some("a".to_string()));
    assert_eq!(backward.next_back(), None);
}

#[test]
fn doubly_linked_list_cursor_turns_around() {
    let mut log = BetterTransactionLog::new_empty();
    log.append("a".to_string());
    log.append("b".to_string());
    log.append("c".to_string());
    let mut cursor = log.iter();
    assert_eq!(cursor.next(), Some("a".to_string()));
    assert_eq!(cursor.next(), Some("b".to_string()));
    // the cursor now stands on "c"; walking back yields it and steps to "b"
    assert_eq!(cursor.next_back(), Some("c".to_string()));
    assert_eq!(cursor.next_back(), Some("b".to_string()));
    assert_eq!(cursor.next_back(), Some("a".to_string()));
    assert_eq!(cursor.next_back(), None);
}
