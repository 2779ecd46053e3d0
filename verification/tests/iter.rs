use minicourse::iter::CartesianProduct;
use std::collections::HashSet;

#[test]
fn cartesian_product_test() {
    let h1: HashSet<i32> = [1, 2].into_iter().collect();
    let h2: HashSet<i32> = [3, 4].into_iter().collect();
    let mut product = CartesianProduct::new(h1.into_iter().collect(), h2.into_iter().collect());
    let mut pairs = HashSet::new();
    while let Some(pair) = product.next() {
        pairs.insert(pair);
    }
    let expected: HashSet<(i32, i32)> = [(1, 3), (1, 4), (2, 3), (2, 4)].into_iter().collect();
    assert_eq!(pairs, expected)
}

#[test]
fn cartesian_product_goes_through_the_right_for_each_on_the_left() {
    let mut product = CartesianProduct::new(vec!['a', 'b'], vec![1, 2, 3]);
    let mut pairs = Vec::new();
    while let Some(pair) = product.next() {
        pairs.push(pair);
    }
    assert_eq!(
        pairs,
        vec![('a', 1), ('a', 2), ('a', 3), ('b', 1), ('b', 2), ('b', 3)]
    );
    assert_eq!(product.next(), None);
    assert_eq!(product.next(), None);
}

#[test]
fn cartesian_product_of_nothing_is_empty() {
    let mut product: CartesianProduct<i32, i32> = CartesianProduct::new(vec![], vec![1, 2]);
    assert_eq!(product.next(), None);
    let mut product: CartesianProduct<i32, i32> = CartesianProduct::new(vec![], vec![]);
    assert_eq!(product.next(), None);
}

#[test]
fn cartesian_product_clones_its_items() {
    let mut product = CartesianProduct::new(vec![String::from("x")], vec![String::from("y")]);
    assert_eq!(product.next(), Some((String::from("x"), String::from("y"))));
    assert_eq!(product.next(), None);
}
