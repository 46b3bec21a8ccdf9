use compose_idents::parse::longest_parse;
use compose_idents::product::{product, ProductIterator};

#[test]
fn product_iterator_simple() {
    let iter1 = vec!['A', 'B'];
    let iter2 = vec!['a', 'b'];
    let iter3 = vec!['0', '1'];
    let iters = vec![iter1, iter2, iter3];

    let mut product_iter = ProductIterator::new(iters);
    let collected: Vec<Box<[char]>> = product_iter
        .collect_all()
        .into_iter()
        .map(|v| v.into_boxed_slice())
        .collect();
    let expected: Vec<Box<[char]>> = vec![
        Box::new(['A', 'a', '0']),
        Box::new(['A', 'a', '1']),
        Box::new(['A', 'b', '0']),
        Box::new(['A', 'b', '1']),
        Box::new(['B', 'a', '0']),
        Box::new(['B', 'a', '1']),
        Box::new(['B', 'b', '0']),
        Box::new(['B', 'b', '1']),
    ];

    assert_eq!(collected, expected,);
}

#[test]
fn product_of_no_sources_is_empty() {
    let mut it: ProductIterator<u8> = product(Vec::new());
    assert_eq!(it.next(), None);
    assert_eq!(it.next(), None);
}

#[test]
fn product_with_an_empty_source_is_empty() {
    let mut it = product(vec![vec![1u8, 2], vec![], vec![3u8]]);
    assert_eq!(it.next(), None);
}

#[test]
fn product_stays_exhausted() {
    let mut it = product(vec![vec![1u8], vec![2u8, 3]]);
    assert_eq!(it.next(), Some(vec![1, 2]));
    assert_eq!(it.next(), Some(vec![1, 3]));
    assert_eq!(it.next(), None);
    assert_eq!(it.next(), None);
}

#[test]
fn product_count_is_product_of_lengths() {
    let mut it = product(vec![vec![0u32, 1, 2], vec![0u32, 1], vec![0u32, 1, 2, 3]]);
    let all = it.collect_all();
    assert_eq!(all.len(), 24);
    assert_eq!(all[0], vec![0, 0, 0]);
    assert_eq!(all[23], vec![2, 1, 3]);
}

#[test]
fn product_of_one_source_yields_its_items() {
    let mut it = product(vec![vec!["x", "y", "z"]]);
    assert_eq!(it.collect_all(), vec![vec!["x"], vec!["y"], vec!["z"]]);
}

#[test]
fn longest_parse_prefers_most_tokens_then_earliest() {
    assert_eq!(longest_parse(&vec![Some(1), Some(1), Some(3), Some(3), None]), Some(2));
    assert_eq!(longest_parse(&vec![Some(2), None, Some(2)]), Some(0));
    assert_eq!(longest_parse(&vec![None, Some(0)]), Some(1));
    assert_eq!(longest_parse(&vec![None, None]), None);
    assert_eq!(longest_parse(&Vec::new()), None);
}
