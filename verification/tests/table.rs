use ownership::basics::{add, append_a, greeting};
use ownership::model::{BorrowKind, Op, ViolationKind};
use ownership::tracker::{Binding, Tracker};

#[test]
fn add_gives_the_sum() {
    assert_eq!(add(5, 6), 11);
    assert_eq!(add(-7, 3), -4);
    assert_eq!(add(i32::MAX, 0), i32::MAX);
}

#[test]
fn append_a_pushes_one_letter() {
    let mut name = String::from("Gabe Love");
    append_a(&mut name);
    assert_eq!(name, "Gabe Lovea");
    let mut empty = String::new();
    append_a(&mut empty);
    assert_eq!(empty, "a");
}

#[test]
fn new_table_is_empty() {
    let t = Tracker::new();
    assert_eq!(t.len(), 0);
    assert_eq!(t.count(), 0);
    assert_eq!(t.get(0), None);
    assert_eq!(t.find(1), None);
}

#[test]
fn declare_records_a_fresh_binding() {
    let mut t = Tracker::new();
    assert_eq!(t.declare(7, 1), Ok(()));
    assert_eq!(t.len(), 1);
    assert_eq!(t.count(), 1);
    assert_eq!(
        t.get(0),
        Some(Binding { name: 7, scope: 1, moved: false, ended: false, shared: 0, exclusive: false })
    );
    assert!(t.is_live_in(7, 1));
    assert!(!t.is_live_in(7, 2));
    assert_eq!(t.declare(7, 1), Err(ViolationKind::DuplicateBinding));
    assert_eq!(t.len(), 1);
    assert_eq!(t.count(), 2);
}

#[test]
fn find_gives_the_latest_declaration() {
    let mut t = Tracker::new();
    t.declare(7, 1).unwrap();
    t.declare(8, 1).unwrap();
    t.declare(7, 2).unwrap();
    assert_eq!(t.find(7), Some(2));
    assert_eq!(t.find(8), Some(1));
    assert_eq!(t.find(9), None);
}

#[test]
fn move_marks_the_source_and_binds_the_destination() {
    let mut t = Tracker::new();
    t.declare(7, 1).unwrap();
    assert_eq!(t.move_value(7, 1, 8), Ok(()));
    assert_eq!(t.len(), 2);
    assert!(t.get(0).unwrap().moved);
    assert_eq!(
        t.get(1),
        Some(Binding { name: 8, scope: 1, moved: false, ended: false, shared: 0, exclusive: false })
    );
    assert_eq!(t.use_value(8), Ok(()));
    assert_eq!(t.use_value(7), Err(ViolationKind::UseAfterMove));
    assert_eq!(t.move_value(7, 1, 9), Err(ViolationKind::UseAfterMove));
    assert_eq!(t.len(), 2);
}

#[test]
fn borrow_and_release_count_references() {
    let mut t = Tracker::new();
    t.declare(7, 1).unwrap();
    assert_eq!(t.borrow(7, BorrowKind::Shared), Ok(()));
    assert_eq!(t.borrow(7, BorrowKind::Shared), Ok(()));
    assert_eq!(t.get(0).unwrap().shared, 2);
    assert_eq!(t.borrow(7, BorrowKind::Exclusive), Err(ViolationKind::ConflictingBorrow));
    t.release(7);
    assert_eq!(t.get(0).unwrap().shared, 1);
    t.release(7);
    assert_eq!(t.get(0).unwrap().shared, 0);
    t.release(7);
    assert_eq!(t.get(0).unwrap().shared, 0);
    assert_eq!(t.borrow(7, BorrowKind::Exclusive), Ok(()));
    assert!(t.get(0).unwrap().exclusive);
    assert_eq!(t.borrow(7, BorrowKind::Shared), Err(ViolationKind::ConflictingBorrow));
    assert_eq!(t.borrow(7, BorrowKind::Exclusive), Err(ViolationKind::ConflictingBorrow));
    t.release(7);
    assert!(!t.get(0).unwrap().exclusive);
    assert_eq!(t.count(), 11);
}

#[test]
fn end_scope_releases_in_reverse_declaration_order() {
    let mut t = Tracker::new();
    t.declare(1, 5).unwrap();
    t.declare(2, 6).unwrap();
    t.declare(3, 5).unwrap();
    t.declare(4, 5).unwrap();
    t.move_value(3, 5, 9).unwrap();
    t.borrow(1, BorrowKind::Shared).unwrap();
    assert_eq!(t.end_scope(5), vec![9, 4, 1]);
    let first = t.get(0).unwrap();
    assert!(first.ended);
    assert_eq!(first.shared, 0);
    assert!(!t.get(1).unwrap().ended);
    assert!(t.get(2).unwrap().moved);
    assert!(!t.get(2).unwrap().ended);
    assert_eq!(t.use_value(1), Err(ViolationKind::DanglingReference));
    assert_eq!(t.use_value(2), Ok(()));
    assert_eq!(t.end_scope(5), Vec::<u64>::new());
}

#[test]
fn apply_follows_the_single_operations() {
    let mut t = Tracker::new();
    assert_eq!(t.apply(Op::Declare { name: 1, scope: 5 }), Ok(()));
    assert_eq!(t.apply(Op::Borrow { name: 1, kind: BorrowKind::Exclusive }), Ok(()));
    assert_eq!(
        t.apply(Op::Borrow { name: 1, kind: BorrowKind::Shared }),
        Err(ViolationKind::ConflictingBorrow)
    );
    assert_eq!(t.apply(Op::Release { name: 1 }), Ok(()));
    assert_eq!(t.apply(Op::ScopeEnd { scope: 5 }), Ok(()));
    assert_eq!(t.apply(Op::Use { name: 1 }), Err(ViolationKind::DanglingReference));
    assert_eq!(t.apply(Op::Move { name: 1, from_scope: 5, to: 2 }), Ok(()));
    assert_eq!(t.apply(Op::Use { name: 1 }), Err(ViolationKind::UseAfterMove));
    assert_eq!(t.count(), 8);
}

#[test]
fn greeting_wraps_the_name() {
    assert_eq!(greeting("Gabe"), "Hello, Gabe!");
    assert_eq!(greeting(""), "Hello, !");
    assert_eq!(greeting("你好"), "Hello, 你好!");
}
