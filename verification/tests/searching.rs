use tree_jump::engine::Event;
use tree_jump::schedule::Cursor;
use tree_jump::Constrain;
use tree_jump::TreeJump;

type Phi = fn(Vec<u8>, &Option<u8>) -> bool;

fn first_even(x: Vec<u8>, _: &Option<u8>) -> bool {
    x[0] % 2 == 0
}

fn both_equal(x: Vec<u8>, _: &Option<u8>) -> bool {
    x[0] ^ x[1] == 0
}

fn second_threefold(x: Vec<u8>, _: &Option<u8>) -> bool {
    x[1] % 3 == 0
}

fn second_is_reference(x: Vec<u8>, reference: &Option<u8>) -> bool {
    match reference {
        Some(wanted) => x[1] == *wanted,
        None => true,
    }
}

fn never(_: Vec<u8>, _: &Option<u8>) -> bool {
    false
}

fn always(_: Vec<u8>, _: &Option<u8>) -> bool {
    true
}

fn two_domains() -> Vec<Vec<u8>> {
    vec![vec![1, 2, 6, 3, 4], vec![4, 5, 2, 3, 6]]
}

#[test]
fn evaluations_are_counted_one_by_one() {
    let constrains = vec![
        Constrain::new(0, first_even as Phi),
        Constrain::new(1, both_equal as Phi),
    ];
    let mut tree = TreeJump::new(None, two_domains(), constrains);
    assert_eq!(tree.counting(), 0);
    let solved = tree.search();
    assert_eq!(solved, vec![vec![2, 2], vec![6, 6], vec![4, 4]]);
    assert_eq!(tree.counting(), 20);
}

#[test]
fn searching_again_finds_nothing() {
    let constrains = vec![
        Constrain::new(0, first_even as Phi),
        Constrain::new(1, both_equal as Phi),
    ];
    let mut tree = TreeJump::new(None, two_domains(), constrains);
    let first = tree.search();
    assert_eq!(first, vec![vec![2, 2], vec![6, 6], vec![4, 4]]);
    let count = tree.counting();
    assert!(!tree.has_next());
    let again = tree.search();
    assert_eq!(again, Vec::<Vec<u8>>::new());
    assert_eq!(tree.counting(), count);
}

#[test]
fn searching_again_on_a_space_of_one_finds_nothing() {
    let constrains: Vec<Constrain<u8, u8>> = vec![];
    let mut tree = TreeJump::new(None, vec![vec![9]], constrains);
    assert_eq!(tree.search(), vec![vec![9]]);
    assert_eq!(tree.search(), Vec::<Vec<u8>>::new());
    assert_eq!(tree.search(), Vec::<Vec<u8>>::new());
}

#[test]
fn engine_keeps_what_every_search_found() {
    let constrains = vec![
        Constrain::new(0, first_even as Phi),
        Constrain::new(1, both_equal as Phi),
    ];
    let mut tree = TreeJump::new(None, two_domains(), constrains);
    assert_eq!(tree.solved_so_far(), &Vec::<Vec<u8>>::new());
    let first = tree.search();
    assert_eq!(tree.solved_so_far(), &first);
    tree.search();
    assert_eq!(tree.solved_so_far(), &first);
    assert_eq!(tree.solved, first);
}

#[test]
fn search_returns_what_it_found_behind_earlier_solutions() {
    let constrains = vec![Constrain::new(0, first_even as Phi)];
    let mut tree = TreeJump::new(None, vec![vec![1, 2, 4]], constrains);
    tree.solved.push(vec![7]);
    assert_eq!(tree.search(), vec![vec![2], vec![4]]);
    assert_eq!(tree.solved_so_far(), &vec![vec![7], vec![2], vec![4]]);
}

#[test]
fn exhausted_engine_without_solutions_yields_nothing() {
    let constrains = vec![Constrain::new(0, never as Phi)];
    let mut tree = TreeJump::new(None, two_domains(), constrains);
    assert_eq!(tree.search(), Vec::<Vec<u8>>::new());
    assert_eq!(tree.counting(), 5);
    assert_eq!(tree.search(), Vec::<Vec<u8>>::new());
    assert_eq!(tree.counting(), 5);
}

#[test]
fn empty_domain_yields_nothing() {
    let constrains = vec![Constrain::new(0, always as Phi)];
    let mut tree = TreeJump::new(None, vec![vec![1, 2], vec![]], constrains);
    assert!(!tree.has_next());
    assert_eq!(tree.search(), Vec::<Vec<u8>>::new());
    assert_eq!(tree.counting(), 0);
}

#[test]
fn no_constraint_yields_every_combination() {
    let constrains: Vec<Constrain<u8, u8>> = vec![];
    let mut tree = TreeJump::new(None, vec![vec![1, 2], vec![7, 8, 9]], constrains);
    assert_eq!(
        tree.search(),
        vec![
            vec![1, 7],
            vec![1, 8],
            vec![1, 9],
            vec![2, 7],
            vec![2, 8],
            vec![2, 9]
        ]
    );
    assert_eq!(tree.counting(), 0);
}

#[test]
fn single_dimension_space() {
    let constrains = vec![Constrain::new(0, first_even as Phi)];
    let mut tree = TreeJump::new(None, vec![vec![1, 2, 3, 4, 6]], constrains);
    assert_eq!(tree.search(), vec![vec![2], vec![4], vec![6]]);
    assert_eq!(tree.counting(), 5);
}

#[test]
fn constraint_on_the_first_dimension_only() {
    let constrains = vec![Constrain::new(0, first_even as Phi)];
    let mut tree = TreeJump::new(None, vec![vec![1, 2], vec![7, 8], vec![5, 6]], constrains);
    assert_eq!(
        tree.search(),
        vec![vec![2, 7, 5], vec![2, 7, 6], vec![2, 8, 5], vec![2, 8, 6]]
    );
}

#[test]
fn constraint_on_the_last_dimension_only() {
    let constrains = vec![Constrain::new(1, second_threefold as Phi)];
    let mut tree = TreeJump::new(None, vec![vec![1, 2], vec![3, 4, 6]], constrains);
    assert_eq!(
        tree.search(),
        vec![vec![1, 3], vec![1, 6], vec![2, 3], vec![2, 6]]
    );
    assert_eq!(tree.counting(), 6);
}

#[test]
fn constraints_sharing_a_depth_must_all_pass() {
    let constrains = vec![
        Constrain::new(0, first_even as Phi),
        Constrain::new(1, both_equal as Phi),
        Constrain::new(1, second_threefold as Phi),
    ];
    let mut tree = TreeJump::new(None, two_domains(), constrains);
    assert_eq!(tree.search(), vec![vec![6, 6]]);
}

#[test]
fn reference_values_go_with_the_sorted_constraints() {
    let constrains = vec![
        Constrain::new(1, second_is_reference as Phi),
        Constrain::new(0, first_even as Phi),
    ];
    // After sorting, the constraint at depth 1 stands second.
    let input = Some(vec![None, Some(5)]);
    let mut tree = TreeJump::new(input, two_domains(), constrains);
    assert_eq!(tree.search(), vec![vec![2, 5], vec![6, 5], vec![4, 5]]);
}

#[test]
fn constraints_are_sorted_by_depth_and_keep_their_order_within_a_depth() {
    let constrains = vec![
        Constrain::new(1, both_equal as Phi),
        Constrain::new(0, never as Phi),
        Constrain::new(1, second_threefold as Phi),
        Constrain::new(0, first_even as Phi),
    ];
    let tree = TreeJump::new(None, two_domains(), constrains);
    assert_eq!(tree.constrain_indices(), vec![0, 0, 1, 1]);
    let probe = |i: usize, x: Vec<u8>| (tree.constrains[i].constrain)(x, &None);
    // never, first_even, both_equal, second_threefold
    assert!(!probe(0, vec![2, 2]));
    assert!(probe(1, vec![2, 5]));
    assert!(!probe(1, vec![1, 1]));
    assert!(probe(2, vec![5, 5]));
    assert!(!probe(2, vec![6, 3]));
    assert!(probe(3, vec![5, 3]));
    assert!(!probe(3, vec![3, 5]));
}

#[test]
fn steps_report_what_they_did() {
    let constrains = vec![
        Constrain::new(0, first_even as Phi),
        Constrain::new(1, both_equal as Phi),
    ];
    let mut tree = TreeJump::new(None, vec![vec![1, 2], vec![3, 2]], constrains);
    let depths = tree.constrain_indices();
    let jump = TreeJump::<u8, u8>::jump_indices(&depths);
    let bad = TreeJump::<u8, u8>::bad_indices(&depths);
    let mut cursor = Cursor::start();
    let mut events: Vec<Event> = vec![];
    while tree.has_next() {
        let (next, event) = tree.step(&jump, &bad, cursor);
        cursor = next;
        events.push(event);
    }
    assert_eq!(
        events,
        vec![
            Event::Skipped(0),
            Event::Passed,
            Event::Skipped(1),
            Event::Passed,
            Event::Accepted
        ]
    );
    assert_eq!(tree.solved, vec![vec![2, 2]]);
    assert_eq!(tree.counting(), 4);
}

#[test]
fn progress_is_measured_in_combinations() {
    let constrains: Vec<Constrain<u8, u8>> = vec![];
    let tree = TreeJump::new(None, vec![vec![1, 2], vec![7, 8, 9], vec![0; 5]], constrains);
    assert_eq!(tree.progress_plan(), Some((30, vec![15, 5, 1])));
}

#[test]
fn timing_is_what_was_recorded() {
    let constrains: Vec<Constrain<u8, u8>> = vec![];
    let mut tree = TreeJump::new(None, vec![vec![1u8, 2]], constrains);
    assert_eq!(tree.timing(), None);
    tree.record_timing(std::time::Duration::from_millis(12));
    assert_eq!(tree.timing(), Some(std::time::Duration::from_millis(12)));
}
