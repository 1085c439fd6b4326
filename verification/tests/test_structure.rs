use rand::Rng;

use tree_jump::Candidate;
use tree_jump::Constrain;
use tree_jump::SearchSpace;
use tree_jump::TreeJump;

type K = u8;
type X = u8;
type C = u8;
type I = u8;
type H<'a> = &'a Option<u8>;
type Phi = fn(Vec<u8>, &Option<u8>) -> bool;
type PhiWide = fn(Vec<Vec<u8>>, &Option<u8>) -> bool;

fn f3(input: Vec<u8>, _c: &Option<u8>) -> bool {
    input[2] == 0
}

fn f4(input: Vec<u8>, _c: &Option<u8>) -> bool {
    input[3] == 0
}

fn f6(input: Vec<u8>, _c: &Option<u8>) -> bool {
    input[5] == 8
}

fn f(x: X, k: Vec<Vec<K>>, c: C) -> bool {
    x ^ k[0][0] ^ k[1][0] ^ c == 0
}

fn phieq(x: Vec<u8>, _: H) -> bool {
    x[0] ^ x[1] == 0
}

fn phiev(x: Vec<u8>, _: H) -> bool {
    x[0] % 2 == 0
}

fn phisix(x: Vec<u8>, _: H) -> bool {
    x[1] % 3 == 0
}

fn phi(k: Vec<Vec<K>>, _: H) -> bool {
    let x: X = 5;
    let c: C = 3;
    f(x, k, c)
}

#[test]
fn init_structs() {
    let mut rng = rand::thread_rng();
    let limit: usize = 10;
    let limitbis: usize = 10;
    let random_values: Vec<Vec<Vec<u8>>> = (0..limit)
        .into_iter()
        .map(|_| (0..limitbis).into_iter().map(|_| vec![rng.gen()]).collect())
        .collect();

    let mut cand: Vec<Candidate<Vec<u8>>> = vec![];
    for i in 0..limit {
        cand.push(Candidate::<Vec<u8>> {
            candidate: random_values[i].clone(),
        });
        assert_eq!(cand[i].candidate, random_values[i]);
    }

    let space = SearchSpace {
        search_space: cand.clone(),
    };

    for i in 0..limitbis {
        let value = space.get(&vec![i]);

        for (p, j) in value.iter().enumerate() {
            assert_eq!(*j, random_values[p][i]);
        }
    }

    let phis: Vec<Constrain<Vec<K>, I>> = (0..3)
        .into_iter()
        .map(|i| Constrain::<Vec<K>, I>::new(2 - i, phi as PhiWide))
        .collect();

    let tree = TreeJump::<Vec<K>, I>::new(None, random_values, phis);

    for i in 0..3 {
        assert_eq!(tree.constrains[i].index, i)
    }
}

#[test]
fn jump_vector() {
    let jump = TreeJump::<u8, I>::jump_indices(&vec![1, 2, 2, 4, 5, 5]);
    assert_eq!(jump, vec![0, 1, 1, 3, 4, 4]);
    let jump = TreeJump::<u8, I>::jump_indices(&vec![0, 0, 4, 4, 5, 5]);
    assert_eq!(jump, vec![0, 0, 2, 2, 4, 4]);
    let jump = TreeJump::<u8, I>::jump_indices(&vec![3, 3, 4, 5, 6, 7]);
    assert_eq!(jump, vec![0, 0, 2, 3, 4, 5]);
}

#[test]
fn bad_vector() {
    let bad = TreeJump::<u8, I>::bad_indices(&vec![1, 2, 2, 4, 5, 5]);
    assert_eq!(bad, vec![0, 0, 1, 3, 3, 4]);
    let bad = TreeJump::<u8, I>::bad_indices(&vec![0, 0, 4, 4, 5, 5]);
    assert_eq!(bad, vec![0, 2, 2, 2, 2, 4]);
    let bad = TreeJump::<u8, I>::bad_indices(&vec![3, 3, 4, 5, 6, 7]);
    assert_eq!(bad, vec![0, 0, 0, 0, 2, 3, 4, 5]);
}

#[test]
fn search() {
    let candidate1 = vec![1, 2, 6, 3, 4];
    let candidate2 = vec![4, 5, 2, 3, 6];
    let space = vec![candidate1, candidate2];
    let constrains = vec![
        Constrain::new(0, phiev as Phi),
        Constrain::new(1, phieq as Phi),
    ];

    let mut tree_jump = TreeJump::new(None, space.clone(), constrains.clone());
    let solved = tree_jump.search();

    assert_eq!(solved, vec![vec![2, 2], vec![6, 6], vec![4, 4]]);

    let constrains = vec![
        Constrain::new(0, phiev as Phi),
        Constrain::new(1, phieq as Phi),
        Constrain::new(1, phisix as Phi),
    ];

    let mut tree_jump = TreeJump::new(None, space.clone(), constrains.clone());
    let solved = tree_jump.search();

    assert_eq!(solved, vec![vec![6, 6]]);
}

#[test]
pub fn test_output() {
    let obj: [u8; 10] = [10, 15, 80, 72, 1, 0, 81, 72, 30, 8];
    let space = vec![obj.to_vec(); 6];
    let phis = vec![
        Constrain::new(2, f3 as Phi),
        Constrain::new(3, f4 as Phi),
        Constrain::new(6, f6 as Phi),
    ];
    let input = Some(vec![Some(0), Some(1), Some(0)]);
    let mut tree = TreeJump::new(input, space, phis);

    let s = tree.search();
    assert_eq!(s.len(), 1000);
}
