use tree_jump::util::commulative_products;

#[test]
fn vectors() {
    let vectors: Vec<u8> = vec![2, 3, 3, 8];
    let (a, _, _) = commulative_products(&vectors);
    assert_eq!(a, Some(144));
    // 2 * 8 * 8 * 8 is 1024, which no u8 holds: the space has no total size.
    let vectors: Vec<u8> = vec![2, 8, 8, 8];
    let (a, _, _) = commulative_products(&vectors);
    assert_eq!(a, None);
}

#[test]
fn products_without_breaking_point() {
    let (total, prefix, suffix) = commulative_products(&vec![2u8, 3, 3, 8]);
    assert_eq!(total, Some(144));
    assert_eq!(prefix, Vec::<u8>::new());
    assert_eq!(suffix, vec![72, 24, 8, 1]);
}

#[test]
fn products_with_breaking_point() {
    let (total, prefix, suffix) = commulative_products(&vec![2u8, 8, 8, 8]);
    assert_eq!(total, None);
    assert_eq!(prefix, vec![8, 1, 0, 0]);
    assert_eq!(suffix, vec![64, 8, 1]);
}

#[test]
fn products_with_second_overflow() {
    let (total, prefix, suffix) = commulative_products(&vec![16u8, 16, 16, 16]);
    assert_eq!(total, None);
    assert_eq!(prefix, vec![0, 16, 1, 0]);
    assert_eq!(suffix, vec![16, 1]);
}

#[test]
fn overflow_leaves_every_entry_in_range() {
    let sizes: Vec<u64> = vec![1 << 40, 1 << 40, 3, 5];
    let (total, prefix, suffix) = commulative_products(&sizes);
    assert_eq!(total, None);
    assert_eq!(suffix, vec![15 * (1u64 << 40), 15, 5, 1]);
    assert_eq!(prefix, vec![1, 0, 0, 0]);
}

#[test]
fn largest_product_that_fits() {
    let (total, prefix, suffix) = commulative_products(&vec![15u8, 17]);
    assert_eq!(total, Some(255));
    assert_eq!(prefix, Vec::<u8>::new());
    assert_eq!(suffix, vec![17, 1]);
    let (total, _, _) = commulative_products(&vec![16u8, 16]);
    assert_eq!(total, None);
}

#[test]
fn empty_dimension_gives_an_empty_space() {
    let (total, prefix, suffix) = commulative_products(&vec![2u8, 0, 3]);
    assert_eq!(total, Some(0));
    assert_eq!(prefix, Vec::<u8>::new());
    assert_eq!(suffix, vec![0, 3, 1]);
}

#[test]
fn no_dimension_gives_a_space_of_one() {
    let (total, prefix, suffix) = commulative_products(&Vec::<u32>::new());
    assert_eq!(total, Some(1));
    assert_eq!(prefix, Vec::<u32>::new());
    assert_eq!(suffix, Vec::<u32>::new());
}

#[test]
fn single_dimension() {
    let (total, prefix, suffix) = commulative_products(&vec![7usize]);
    assert_eq!(total, Some(7));
    assert_eq!(prefix, Vec::<usize>::new());
    assert_eq!(suffix, vec![1]);
}
