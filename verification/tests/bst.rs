use minicourse::bst::BST;
use minicourse::bst::BST::{Leaf, Node};

fn test_tree() -> BST<&'static str> {
    Node(
        "B",
        Box::new(Node("A", Box::new(Leaf), Box::new(Leaf))),
        Box::new(Node("C", Box::new(Leaf), Box::new(Leaf))),
    )
}

#[test]
fn len_test() {
    let heap_tree: Box<BST<i32>> = Box::new(BST::Leaf);
    match &*heap_tree {
        BST::Leaf => {}
        BST::Node(t, _, _) => {
            println!("{}", t);
        }
    };

    assert_eq!(test_tree().len(), 3);
}

#[test]
fn insertion_test() {
    let mut t = test_tree().clone();
    t.insert("E");
    assert_eq!(
        t,
        Node(
            "B",
            Box::new(Node("A", Box::new(Leaf), Box::new(Leaf))),
            Box::new(Node(
                "C",
                Box::new(Leaf),
                Box::new(Node("E", Box::new(Leaf), Box::new(Leaf)))
            )),
        )
    );
}

#[test]
fn search_test() {
    let mut t = test_tree().clone();
    t.insert("E");
    assert!(t.search(&"D") == Some(&"E"));
    assert!(t.search(&"C") == Some(&"C"));
    assert!(t.search(&"F") == None);
}

#[test]
fn rebalance1_test() {
    let mut t = Node(
        "D",
        Box::new(Node(
            "B",
            Box::new(Node("A", Box::new(Leaf), Box::new(Leaf))),
            Box::new(Node("C", Box::new(Leaf), Box::new(Leaf))),
        )),
        Box::new(Node("E", Box::new(Leaf), Box::new(Leaf))),
    );

    let t2 = Node(
        "C",
        Box::new(Node(
            "B",
            Box::new(Node("A", Box::new(Leaf), Box::new(Leaf))),
            Box::new(Leaf),
        )),
        Box::new(Node(
            "D",
            Box::new(Leaf),
            Box::new(Node("E", Box::new(Leaf), Box::new(Leaf))),
        )),
    );

    t.rebalance();
    assert_eq!(t, t2);
}

#[test]
fn rebalance2_test() {
    let mut t = Node(
        "A",
        Box::new(Leaf),
        Box::new(Node(
            "B",
            Box::new(Leaf),
            Box::new(Node(
                "C",
                Box::new(Leaf),
                Box::new(Node("D", Box::new(Leaf), Box::new(Leaf))),
            )),
        )),
    );

    let t2 = Node(
        "B",
        Box::new(Node("A", Box::new(Leaf), Box::new(Leaf))),
        Box::new(Node(
            "C",
            Box::new(Leaf),
            Box::new(Node("D", Box::new(Leaf), Box::new(Leaf))),
        )),
    );

    t.rebalance();
    assert_eq!(t, t2);
}

#[test]
fn rebalance3_test() {
    let mut t = Node(
        "E",
        Box::new(Node(
            "B",
            Box::new(Leaf),
            Box::new(Node(
                "D",
                Box::new(Node("C", Box::new(Leaf), Box::new(Leaf))),
                Box::new(Leaf),
            )),
        )),
        Box::new(Node("F", Box::new(Leaf), Box::new(Leaf))),
    );

    let t2 = Node(
        "D",
        Box::new(Node(
            "B",
            Box::new(Leaf),
            Box::new(Node("C", Box::new(Leaf), Box::new(Leaf))),
        )),
        Box::new(Node(
            "E",
            Box::new(Leaf),
            Box::new(Node("F", Box::new(Leaf), Box::new(Leaf))),
        )),
    );

    t.rebalance();
    assert_eq!(t, t2);
}

fn from_keys(keys: &[i32]) -> BST<i32> {
    let mut t = Leaf;
    for &k in keys {
        t.insert(k);
    }
    t
}

fn in_order(t: &BST<i32>, out: &mut Vec<i32>) {
    if let Node(k, l, r) = t {
        in_order(l, out);
        out.push(*k);
        in_order(r, out);
    }
}

#[test]
fn empty_tree_has_no_nodes() {
    let t: BST<i32> = Leaf;
    assert_eq!(t.len(), 0);
    assert_eq!(t.search(&1), None);
}

#[test]
fn insert_keeps_the_keys_in_order() {
    let t = from_keys(&[5, 2, 8, 1, 9, 3, 5, 7]);
    assert_eq!(t.len(), 8);
    let mut keys = Vec::new();
    in_order(&t, &mut keys);
    assert_eq!(keys, vec![1, 2, 3, 5, 5, 7, 8, 9]);
}

#[test]
fn insert_puts_equal_keys_to_the_right() {
    let t = from_keys(&[2, 2]);
    assert_eq!(
        t,
        Node(
            2,
            Box::new(Leaf),
            Box::new(Node(2, Box::new(Leaf), Box::new(Leaf)))
        )
    );
}

#[test]
fn search_finds_the_smallest_key_not_below_the_query() {
    let t = from_keys(&[50, 20, 80, 10, 30, 70, 90]);
    assert_eq!(t.search(&5), Some(&10));
    assert_eq!(t.search(&10), Some(&10));
    assert_eq!(t.search(&11), Some(&20));
    assert_eq!(t.search(&31), Some(&50));
    assert_eq!(t.search(&51), Some(&70));
    assert_eq!(t.search(&90), Some(&90));
    assert_eq!(t.search(&91), None);
}

#[test]
fn rebalance_leaves_an_even_tree_alone() {
    let mut t = test_tree();
    t.rebalance();
    assert_eq!(t, test_tree());
    let mut one_apart = from_keys(&[2, 1]);
    one_apart.rebalance();
    assert_eq!(one_apart, from_keys(&[2, 1]));
    let mut empty: BST<i32> = Leaf;
    empty.rebalance();
    assert_eq!(empty, Leaf);
}

#[test]
fn rebalance_keeps_the_keys_in_order() {
    let mut t = from_keys(&[9, 8, 7, 6, 5, 4]);
    t.rebalance();
    assert_eq!(t.len(), 6);
    let mut keys = Vec::new();
    in_order(&t, &mut keys);
    assert_eq!(keys, vec![4, 5, 6, 7, 8, 9]);
    match &t {
        Node(k, _, r) => {
            assert_eq!(*k, 8);
            assert_eq!(r.len(), 1);
        }
        Leaf => panic!("a tree with nodes has a root"),
    }
}

#[test]
fn clone_copies_the_whole_tree() {
    let t = from_keys(&[3, 1, 2, 5, 4]);
    assert_eq!(t.clone(), t);
}
