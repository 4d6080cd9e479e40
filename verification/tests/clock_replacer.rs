use relationaldb::clock_replacer::ClockReplacer;

#[test]
fn clock_replacer_test() {
    let mut clock_replacer = ClockReplacer::new(7);
    clock_replacer.un_pin(1);
    clock_replacer.un_pin(2);
    clock_replacer.un_pin(3);
    clock_replacer.un_pin(4);
    clock_replacer.un_pin(5);
    clock_replacer.un_pin(6);
    clock_replacer.un_pin(1);
    assert_eq!(6, clock_replacer.size());

    assert_eq!(Some(1), clock_replacer.victim());
    assert_eq!(Some(2), clock_replacer.victim());
    assert_eq!(Some(3), clock_replacer.victim());

    clock_replacer.pin(3);
    clock_replacer.pin(4);
    assert_eq!(2, clock_replacer.size());

    clock_replacer.un_pin(4);

    assert_eq!(Some(5), clock_replacer.victim());
    assert_eq!(Some(6), clock_replacer.victim());
    assert_eq!(Some(4), clock_replacer.victim());
}

// Unpinning one more distinct frame into a full ring evicts exactly one
// record: the earliest one that was already given its second chance (its
// flag spent by a victim scan) and was not reused.
#[test]
fn unpin_full_evicts_earliest_spent_record() {
    let mut replacer = ClockReplacer::new(3);
    replacer.un_pin(1);
    replacer.un_pin(2);
    replacer.un_pin(3);
    assert_eq!(3, replacer.size());

    // frame 1's second chance is consumed but its record stays tracked
    assert_eq!(Some(1), replacer.victim());
    assert_eq!(2, replacer.size());

    // ring is full: frame 1's spent record is the one replaced
    replacer.un_pin(4);
    assert_eq!(3, replacer.size());
    assert_eq!(Some(2), replacer.victim());
    assert_eq!(Some(3), replacer.victim());
    assert_eq!(Some(4), replacer.victim());
    assert_eq!(None, replacer.victim());
}

// When no record of a full ring has spent its second chance, the head
// record is evicted unconditionally.
#[test]
fn unpin_full_no_spent_record_evicts_head() {
    let mut replacer = ClockReplacer::new(2);
    replacer.un_pin(1);
    replacer.un_pin(2);
    assert_eq!(2, replacer.size());

    replacer.un_pin(3);
    assert_eq!(2, replacer.size());
    assert_eq!(Some(2), replacer.victim());
    assert_eq!(Some(3), replacer.victim());
    assert_eq!(None, replacer.victim());
}

// size() counts evictable records, not all tracked records.
#[test]
fn size_counts_evictable_only() {
    let mut replacer = ClockReplacer::new(3);
    replacer.un_pin(1);
    replacer.un_pin(2);
    assert_eq!(2, replacer.size());
    assert_eq!(Some(1), replacer.victim());
    // frame 1 is still tracked, but no longer evictable
    assert_eq!(1, replacer.size());
}

// A pinned frame is removed from victim consideration entirely.
#[test]
fn pin_removes_from_victim_consideration() {
    let mut replacer = ClockReplacer::new(4);
    replacer.un_pin(1);
    replacer.un_pin(2);
    replacer.pin(1);
    assert_eq!(Some(2), replacer.victim());
    assert_eq!(None, replacer.victim());

    // pinning an untracked frame changes nothing
    replacer.pin(9);
    assert_eq!(0, replacer.size());
    replacer.un_pin(2);
    assert_eq!(Some(2), replacer.victim());
}
