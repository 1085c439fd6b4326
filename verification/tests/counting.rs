use tree_jump::counter::Advance;
use tree_jump::counter::MultiIndexCounter;

#[test]
fn counter_starts_at_the_origin() {
    let counter = MultiIndexCounter::new(&vec![2, 3]);
    assert!(counter.check());
    assert_eq!(counter.get(), &vec![0, 0]);
    assert_eq!(counter.dimensions(), &vec![2, 3]);
}

#[test]
fn counter_walks_in_lexicographic_order() {
    let mut counter = MultiIndexCounter::new(&vec![2, 3]);
    let mut seen: Vec<Vec<usize>> = vec![];
    let mut outcomes: Vec<Advance> = vec![];
    while counter.check() {
        seen.push(counter.get().clone());
        outcomes.push(counter.inc());
    }
    assert_eq!(
        seen,
        vec![
            vec![0, 0],
            vec![0, 1],
            vec![0, 2],
            vec![1, 0],
            vec![1, 1],
            vec![1, 2]
        ]
    );
    assert_eq!(
        outcomes,
        vec![
            Advance::Next,
            Advance::Next,
            Advance::Carry(1),
            Advance::Next,
            Advance::Next,
            Advance::Exhausted
        ]
    );
    assert_eq!(counter.get(), &vec![0, 0]);
    assert_eq!(counter.inc(), Advance::Exhausted);
    assert!(!counter.check());
}

#[test]
fn skip_leaves_the_subtree_behind() {
    let mut counter = MultiIndexCounter::new(&vec![3, 4, 5]);
    counter.inc();
    counter.inc();
    assert_eq!(counter.get(), &vec![0, 0, 2]);
    assert_eq!(counter.inc_skip(2), Advance::Next);
    assert_eq!(counter.get(), &vec![0, 1, 0]);
    assert_eq!(counter.inc_skip(1), Advance::Next);
    assert_eq!(counter.get(), &vec![1, 0, 0]);
    assert_eq!(counter.inc_skip(3), Advance::Next);
    assert_eq!(counter.get(), &vec![1, 0, 1]);
}

#[test]
fn skip_carries_past_full_digits() {
    let mut counter = MultiIndexCounter::new(&vec![3, 2, 2]);
    assert_eq!(counter.inc_skip(2), Advance::Next);
    assert_eq!(counter.get(), &vec![0, 1, 0]);
    assert_eq!(counter.inc_skip(2), Advance::Carry(1));
    assert_eq!(counter.get(), &vec![1, 0, 0]);
    counter.inc_skip(2);
    counter.inc();
    assert_eq!(counter.get(), &vec![1, 1, 1]);
    assert_eq!(counter.inc(), Advance::Carry(1));
    assert_eq!(counter.get(), &vec![2, 0, 0]);
}

#[test]
fn skip_past_the_last_dimension_is_a_plain_step() {
    let mut counter = MultiIndexCounter::new(&vec![2, 2]);
    assert_eq!(counter.inc_skip(9), Advance::Next);
    assert_eq!(counter.get(), &vec![0, 1]);
    assert_eq!(counter.inc_skip(2), Advance::Carry(1));
    assert_eq!(counter.get(), &vec![1, 0]);
}

#[test]
fn skip_at_depth_zero_exhausts() {
    let mut counter = MultiIndexCounter::new(&vec![2, 2]);
    assert_eq!(counter.inc_skip(0), Advance::Exhausted);
    assert!(!counter.check());
}

#[test]
fn skip_at_the_first_dimension_exhausts_at_its_last_value() {
    let mut counter = MultiIndexCounter::new(&vec![2, 3]);
    assert_eq!(counter.inc_skip(1), Advance::Next);
    assert_eq!(counter.get(), &vec![1, 0]);
    assert_eq!(counter.inc_skip(1), Advance::Exhausted);
    assert!(!counter.check());
    assert_eq!(counter.get(), &vec![0, 0]);
}

#[test]
fn single_dimension_counter() {
    let mut counter = MultiIndexCounter::new(&vec![3]);
    assert_eq!(counter.inc(), Advance::Next);
    assert_eq!(counter.inc(), Advance::Next);
    assert_eq!(counter.get(), &vec![2]);
    assert_eq!(counter.inc(), Advance::Exhausted);
}

#[test]
fn empty_dimension_leaves_nothing_to_visit() {
    let mut counter = MultiIndexCounter::new(&vec![2, 0, 3]);
    assert!(!counter.check());
    assert_eq!(counter.inc(), Advance::Exhausted);
    assert_eq!(counter.inc_skip(1), Advance::Exhausted);
    assert_eq!(counter.get(), &vec![0, 0, 0]);
}

#[test]
fn no_dimension_leaves_the_empty_combination() {
    let mut counter = MultiIndexCounter::new(&vec![]);
    assert!(counter.check());
    assert_eq!(counter.get(), &Vec::<usize>::new());
    assert_eq!(counter.inc(), Advance::Exhausted);
    assert!(!counter.check());
}
