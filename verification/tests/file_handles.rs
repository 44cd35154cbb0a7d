use teamy_bend::file_handles::State;

#[test]
fn a_taken_file_comes_back_under_the_same_identity() {
    let mut table: State<String> = State::new();
    assert!(table.is_empty());
    let first = table.insert("a".to_owned()).unwrap();
    let second = table.insert("b".to_owned()).unwrap();
    assert_eq!((first.id(), second.id()), (0, 1));
    let file = table.take(first).unwrap();
    assert_eq!(file, "a");
    assert!(table.take(first).unwrap_err().contains("closed or belongs to a pending operation"));
    table.restore(first, file).unwrap();
    assert!(table.restore(first, "again".to_owned()).unwrap_err().contains("returned twice"));
    assert_eq!(table.take(first).unwrap(), "a");
    assert_eq!(table.take(second).unwrap(), "b");
    assert!(table.is_empty());
}

#[test]
fn identities_are_never_reused_and_their_budget_is_finite() {
    let mut table: State<u8> = State::new();
    table.next = u64::MAX - 1;
    let last = table.insert(1).unwrap();
    assert_eq!(last.id(), u64::MAX - 1);
    assert!(table.insert(2).unwrap_err().contains("identity budget"));
    assert_eq!(table.take(last).unwrap(), 1);
    assert!(table.insert(3).is_err());
}
