use relation::worklist::WorkList;

#[test]
fn work_list_hands_out_newest_first() {
    let mut w = WorkList::new();
    assert_eq!(w.next(), None);
    w.add(3);
    w.add(5);
    w.add(4);
    assert_eq!(w.next(), Some(4));
    assert_eq!(w.next(), Some(5));
    assert_eq!(w.next(), Some(3));
    assert_eq!(w.next(), None);
}

#[test]
fn work_list_holds_no_item_twice() {
    let mut w = WorkList::new();
    w.add(1);
    w.add(2);
    w.add(1);
    assert_eq!(w.next(), Some(2));
    assert_eq!(w.next(), Some(1));
    assert_eq!(w.next(), None);
}

#[test]
fn work_list_takes_an_item_again_after_it_was_handed_out() {
    let mut w = WorkList::new();
    w.add(1);
    assert_eq!(w.next(), Some(1));
    w.add(1);
    assert_eq!(w.next(), Some(1));
    assert_eq!(w.next(), None);
}

#[test]
fn work_list_extend_adds_in_order() {
    let mut w = WorkList::new();
    w.add(2);
    w.extend(&[1, 2, 3, 1]);
    assert_eq!(w.next(), Some(3));
    assert_eq!(w.next(), Some(1));
    assert_eq!(w.next(), Some(2));
    assert_eq!(w.next(), None);
    w.extend(&[]);
    assert_eq!(w.next(), None);
}
