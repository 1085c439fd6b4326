use rand::rngs::StdRng;
use rand::Rng;
use rand::SeedableRng;

use tree_jump::Constrain;
use tree_jump::TreeJump;

// The reference value of a slot: the depth the predicate reads up to, a
// modulus and the remainder wanted.
type Wanted = (usize, u8, u8);
type Phi = fn(Vec<u8>, &Option<Wanted>) -> bool;

fn prefix_sum_matches(x: Vec<u8>, wanted: &Option<Wanted>) -> bool {
    let (depth, modulus, remainder) = wanted.unwrap();
    let sum: u32 = x[..=depth].iter().map(|value| *value as u32).sum();
    sum % modulus as u32 == remainder as u32
}

fn every_combination(space: &Vec<Vec<u8>>) -> Vec<Vec<u8>> {
    let mut all: Vec<Vec<u8>> = vec![vec![]];
    for domain in space {
        let mut longer: Vec<Vec<u8>> = vec![];
        for tuple in &all {
            for value in domain {
                let mut next = tuple.clone();
                next.push(*value);
                longer.push(next);
            }
        }
        all = longer;
    }
    all
}

fn random_problem(rng: &mut StdRng) -> (Vec<Vec<u8>>, Vec<Wanted>) {
    let dimensions: usize = rng.gen_range(1..=4);
    let space: Vec<Vec<u8>> = (0..dimensions)
        .map(|_| {
            let size: usize = rng.gen_range(1..=4);
            (0..size).map(|_| rng.gen_range(0..6u8)).collect()
        })
        .collect();
    let count: usize = rng.gen_range(0..=5);
    let mut wanted: Vec<Wanted> = (0..count)
        .map(|_| {
            let modulus: u8 = rng.gen_range(1..=3);
            (
                rng.gen_range(0..dimensions),
                modulus,
                rng.gen_range(0..modulus),
            )
        })
        .collect();
    wanted.sort_by_key(|slot| slot.0);
    (space, wanted)
}

#[test]
fn search_finds_what_the_exhaustive_scan_finds() {
    let mut rng = StdRng::seed_from_u64(20);
    for _ in 0..500 {
        let (space, wanted) = random_problem(&mut rng);
        let constrains: Vec<Constrain<u8, Wanted>> = wanted
            .iter()
            .map(|slot| Constrain::new(slot.0, prefix_sum_matches as Phi))
            .collect();
        let input: Vec<Option<Wanted>> = wanted.iter().map(|slot| Some(*slot)).collect();
        let expected: Vec<Vec<u8>> = every_combination(&space)
            .into_iter()
            .filter(|tuple| {
                input
                    .iter()
                    .all(|slot| prefix_sum_matches(tuple.clone(), slot))
            })
            .collect();
        let visited = every_combination(&space).len() * (wanted.len() + 1);
        let mut tree = TreeJump::new(Some(input), space, constrains);
        assert_eq!(tree.search(), expected);
        assert!(tree.counting() <= visited);
        assert!(!tree.has_next());
    }
}
