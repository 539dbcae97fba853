use lfdeque::Seat;

#[test]
fn seat_gives_its_value_once() {
    let mut s = Seat::new(String::from("task"));
    assert!(s.is_occupied());
    assert_eq!(s.take(), Some(String::from("task")));
    assert!(!s.is_occupied());
    assert_eq!(s.take(), None);
}

#[test]
fn vacant_seat_holds_nothing() {
    let mut s: Seat<u8> = Seat::vacant();
    assert!(!s.is_occupied());
    assert_eq!(s.take(), None);
}
