use ownership::check::check;
use ownership::model::{BorrowKind, Op, Verdict, ViolationKind};

const V: u64 = 1;
const W: u64 = 2;
const X: u64 = 3;
const OUTER: u64 = 10;
const INNER: u64 = 11;

fn violation(kind: ViolationKind, index: usize) -> Verdict {
    Verdict::Violation { kind, index }
}

#[test]
fn empty_log_is_valid() {
    assert_eq!(check(&vec![]), Verdict::Valid);
}

#[test]
fn exclusive_then_shared_conflicts_at_index_two() {
    let ops = vec![
        Op::Declare { name: V, scope: OUTER },
        Op::Borrow { name: V, kind: BorrowKind::Exclusive },
        Op::Borrow { name: V, kind: BorrowKind::Shared },
    ];
    assert_eq!(check(&ops), violation(ViolationKind::ConflictingBorrow, 2));
}

#[test]
fn use_after_move_at_index_two() {
    let ops = vec![
        Op::Declare { name: V, scope: OUTER },
        Op::Move { name: V, from_scope: OUTER, to: W },
        Op::Use { name: V },
    ];
    assert_eq!(check(&ops), violation(ViolationKind::UseAfterMove, 2));
}

#[test]
fn quiet_log_is_valid() {
    let ops = vec![
        Op::Declare { name: V, scope: OUTER },
        Op::Declare { name: W, scope: INNER },
        Op::Borrow { name: V, kind: BorrowKind::Shared },
        Op::Use { name: V },
        Op::Use { name: W },
        Op::Release { name: V },
        Op::ScopeEnd { scope: INNER },
        Op::Use { name: V },
        Op::ScopeEnd { scope: OUTER },
    ];
    assert_eq!(check(&ops), Verdict::Valid);
}

#[test]
fn duplicate_declaration_in_one_scope() {
    let ops = vec![
        Op::Declare { name: V, scope: OUTER },
        Op::Declare { name: V, scope: INNER },
        Op::Declare { name: V, scope: OUTER },
    ];
    assert_eq!(check(&ops), violation(ViolationKind::DuplicateBinding, 2));
}

#[test]
fn declaring_again_after_scope_end_is_valid() {
    let ops = vec![
        Op::Declare { name: V, scope: OUTER },
        Op::ScopeEnd { scope: OUTER },
        Op::Declare { name: V, scope: OUTER },
        Op::Use { name: V },
    ];
    assert_eq!(check(&ops), Verdict::Valid);
}

#[test]
fn declaring_again_after_move_is_valid() {
    let ops = vec![
        Op::Declare { name: V, scope: OUTER },
        Op::Move { name: V, from_scope: OUTER, to: W },
        Op::Declare { name: V, scope: OUTER },
        Op::Use { name: V },
        Op::Use { name: W },
    ];
    assert_eq!(check(&ops), Verdict::Valid);
}

#[test]
fn second_move_is_use_after_move() {
    let ops = vec![
        Op::Declare { name: V, scope: OUTER },
        Op::Move { name: V, from_scope: OUTER, to: W },
        Op::Move { name: V, from_scope: OUTER, to: X },
    ];
    assert_eq!(check(&ops), violation(ViolationKind::UseAfterMove, 2));
}

#[test]
fn moving_back_makes_the_name_usable() {
    let ops = vec![
        Op::Declare { name: V, scope: OUTER },
        Op::Move { name: V, from_scope: OUTER, to: W },
        Op::Move { name: W, from_scope: OUTER, to: V },
        Op::Use { name: V },
        Op::Use { name: W },
    ];
    assert_eq!(check(&ops), violation(ViolationKind::UseAfterMove, 4));
}

#[test]
fn moved_value_stays_moved_after_scope_end() {
    let ops = vec![
        Op::Declare { name: V, scope: OUTER },
        Op::Move { name: V, from_scope: OUTER, to: W },
        Op::ScopeEnd { scope: OUTER },
        Op::Use { name: V },
    ];
    assert_eq!(check(&ops), violation(ViolationKind::UseAfterMove, 3));
}

#[test]
fn use_after_scope_end_dangles() {
    let ops = vec![
        Op::Declare { name: V, scope: INNER },
        Op::Borrow { name: V, kind: BorrowKind::Shared },
        Op::ScopeEnd { scope: INNER },
        Op::Use { name: V },
    ];
    assert_eq!(check(&ops), violation(ViolationKind::DanglingReference, 3));
}

#[test]
fn second_exclusive_borrow_conflicts() {
    let ops = vec![
        Op::Declare { name: V, scope: OUTER },
        Op::Borrow { name: V, kind: BorrowKind::Exclusive },
        Op::Use { name: V },
        Op::Borrow { name: V, kind: BorrowKind::Exclusive },
    ];
    assert_eq!(check(&ops), violation(ViolationKind::ConflictingBorrow, 3));
}

#[test]
fn exclusive_after_shared_conflicts() {
    let ops = vec![
        Op::Declare { name: V, scope: OUTER },
        Op::Borrow { name: V, kind: BorrowKind::Shared },
        Op::Borrow { name: V, kind: BorrowKind::Exclusive },
    ];
    assert_eq!(check(&ops), violation(ViolationKind::ConflictingBorrow, 2));
}

#[test]
fn shared_borrows_pile_up() {
    let ops = vec![
        Op::Declare { name: V, scope: OUTER },
        Op::Borrow { name: V, kind: BorrowKind::Shared },
        Op::Borrow { name: V, kind: BorrowKind::Shared },
        Op::Borrow { name: V, kind: BorrowKind::Shared },
    ];
    assert_eq!(check(&ops), Verdict::Valid);
}

#[test]
fn borrow_after_releasing_all_succeeds() {
    let ops = vec![
        Op::Declare { name: V, scope: OUTER },
        Op::Borrow { name: V, kind: BorrowKind::Shared },
        Op::Borrow { name: V, kind: BorrowKind::Shared },
        Op::Release { name: V },
        Op::Release { name: V },
        Op::Borrow { name: V, kind: BorrowKind::Exclusive },
        Op::Release { name: V },
        Op::Borrow { name: V, kind: BorrowKind::Shared },
    ];
    assert_eq!(check(&ops), Verdict::Valid);
}

#[test]
fn one_release_of_two_shared_still_blocks_exclusive() {
    let ops = vec![
        Op::Declare { name: V, scope: OUTER },
        Op::Borrow { name: V, kind: BorrowKind::Shared },
        Op::Borrow { name: V, kind: BorrowKind::Shared },
        Op::Release { name: V },
        Op::Borrow { name: V, kind: BorrowKind::Exclusive },
    ];
    assert_eq!(check(&ops), violation(ViolationKind::ConflictingBorrow, 4));
}

#[test]
fn borrows_of_different_values_do_not_clash() {
    let ops = vec![
        Op::Declare { name: V, scope: OUTER },
        Op::Declare { name: W, scope: OUTER },
        Op::Borrow { name: V, kind: BorrowKind::Exclusive },
        Op::Borrow { name: W, kind: BorrowKind::Exclusive },
    ];
    assert_eq!(check(&ops), Verdict::Valid);
}

#[test]
fn first_violation_is_reported_and_the_rest_ignored() {
    let ops = vec![
        Op::Declare { name: V, scope: OUTER },
        Op::Declare { name: V, scope: OUTER },
        Op::Move { name: V, from_scope: OUTER, to: W },
        Op::Use { name: V },
    ];
    assert_eq!(check(&ops), violation(ViolationKind::DuplicateBinding, 1));
}

#[test]
fn unknown_names_break_no_rule() {
    let ops = vec![
        Op::Use { name: V },
        Op::Borrow { name: V, kind: BorrowKind::Exclusive },
        Op::Borrow { name: V, kind: BorrowKind::Exclusive },
        Op::Release { name: V },
        Op::ScopeEnd { scope: OUTER },
    ];
    assert_eq!(check(&ops), Verdict::Valid);
}
