use tree_jump::counter::Advance;
use tree_jump::schedule::Cursor;

fn at(pos: usize, pending: bool) -> Cursor {
    Cursor { pos, pending }
}

// Depths 1, 2, 2, 4, 5, 5.
fn jump() -> Vec<usize> {
    vec![0, 1, 1, 3, 4, 4]
}

fn bad() -> Vec<usize> {
    vec![0, 0, 1, 3, 3, 4]
}

#[test]
fn scan_starts_at_the_first_constraint() {
    assert_eq!(Cursor::start(), at(0, false));
}

#[test]
fn pass_moves_on_to_the_next_constraint() {
    assert_eq!(at(0, false).after_pass(&jump()), at(1, false));
    assert_eq!(at(5, false).after_pass(&jump()), at(6, false));
}

#[test]
fn pass_of_a_retried_constraint_goes_back_to_the_start_of_its_run() {
    assert_eq!(at(2, true).after_pass(&jump()), at(1, false));
    assert_eq!(at(5, true).after_pass(&jump()), at(4, false));
}

#[test]
fn failure_at_the_start_of_a_run_stays_there() {
    assert_eq!(at(0, false).after_fail(Advance::Next, &jump(), &bad()), at(0, false));
    assert_eq!(at(1, false).after_fail(Advance::Next, &jump(), &bad()), at(1, false));
    assert_eq!(at(3, false).after_fail(Advance::Next, &jump(), &bad()), at(3, false));
}

#[test]
fn failure_inside_a_run_retries_the_same_constraint() {
    assert_eq!(at(2, false).after_fail(Advance::Next, &jump(), &bad()), at(2, true));
    assert_eq!(at(2, true).after_fail(Advance::Next, &jump(), &bad()), at(2, true));
    assert_eq!(at(5, false).after_fail(Advance::Next, &jump(), &bad()), at(5, true));
}

#[test]
fn failure_with_a_carry_resumes_at_the_carried_dimension() {
    assert_eq!(at(2, true).after_fail(Advance::Carry(2), &jump(), &bad()), at(0, false));
    assert_eq!(at(5, false).after_fail(Advance::Carry(5), &jump(), &bad()), at(3, false));
    assert_eq!(at(5, true).after_fail(Advance::Carry(3), &jump(), &bad()), at(1, false));
    assert_eq!(at(3, false).after_fail(Advance::Carry(1), &jump(), &bad()), at(0, false));
}

#[test]
fn failure_that_exhausts_the_counter_leaves_the_scan_alone() {
    assert_eq!(at(2, true).after_fail(Advance::Exhausted, &jump(), &bad()), at(2, true));
    assert_eq!(at(4, false).after_fail(Advance::Exhausted, &jump(), &bad()), at(4, false));
}

#[test]
fn accept_without_carry_resumes_at_the_last_run() {
    assert_eq!(at(6, false).after_accept(Advance::Next, &jump(), &bad()), at(4, false));
}

#[test]
fn accept_with_a_carry_resumes_at_the_carried_dimension() {
    assert_eq!(at(6, false).after_accept(Advance::Carry(6), &jump(), &bad()), at(4, false));
    assert_eq!(at(6, false).after_accept(Advance::Carry(4), &jump(), &bad()), at(3, false));
    assert_eq!(at(6, false).after_accept(Advance::Carry(1), &jump(), &bad()), at(0, false));
}

#[test]
fn carry_into_a_dimension_past_every_constraint_rechecks_nothing() {
    assert_eq!(at(6, false).after_accept(Advance::Carry(7), &jump(), &bad()), at(6, false));
    assert_eq!(at(6, false).after_accept(Advance::Carry(9), &jump(), &bad()), at(6, false));
}

#[test]
fn accept_that_exhausts_the_counter_leaves_the_scan_alone() {
    assert_eq!(at(6, false).after_accept(Advance::Exhausted, &jump(), &bad()), at(6, false));
}

#[test]
fn accept_without_constraints_stays_at_the_start() {
    let none: Vec<usize> = vec![];
    assert_eq!(at(0, false).after_accept(Advance::Next, &none, &none), at(0, false));
    assert_eq!(at(0, false).after_accept(Advance::Carry(1), &none, &none), at(0, false));
}
