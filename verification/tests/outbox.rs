use hotshot_new_protocol::outbox::Outbox;

#[test]
fn the_outbox_is_first_in_first_out() {
    let mut o: Outbox<u64> = Outbox::new();
    assert!(o.is_empty());
    o.push_back(1);
    o.push_back(2);
    o.push_back(3);
    assert_eq!(o.len(), 3);
    assert!(o.contains(&2));
    assert!(!o.contains(&4));
    assert_eq!(o.iter().copied().collect::<Vec<_>>(), vec![1, 2, 3]);
    assert_eq!(o.pop_front(), Some(1));
    let taken = o.take();
    assert!(o.is_empty());
    assert_eq!(taken.into_vec(), vec![2, 3]);
    o.push_back(9);
    o.clear();
    assert_eq!(o.pop_front(), None);
}
