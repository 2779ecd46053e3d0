use minicourse::bst::BST;
use minicourse::bst::BST::{Leaf, Node};

fn leaf<T>() -> Box<BST<T>> {
    Box::new(Leaf)
}

#[test]
fn picture_of_a_leaf_is_an_empty_line() {
    let t: BST<i32> = Leaf;
    assert_eq!(t.picture(), "\n");
}

#[test]
fn picture_of_one_node() {
    let t = Node(7, leaf(), leaf());
    assert_eq!(t.picture(), " 7\n \u{251c}\u{2500}\n \u{2514}\u{2500}\n");
}

#[test]
fn picture_draws_the_branches() {
    let t = Node(
        "B",
        Box::new(Node("A", leaf(), leaf())),
        Box::new(Node("C", leaf(), leaf())),
    );
    let expected = [
        " B",
        " \u{251c}\u{2500} A",
        " \u{2502}  \u{251c}\u{2500}",
        " \u{2502}  \u{2514}\u{2500}",
        " \u{2514}\u{2500} C",
        "    \u{251c}\u{2500}",
        "    \u{2514}\u{2500}",
        "",
    ]
    .join("\n");
    assert_eq!(t.picture(), expected);
}

#[test]
fn labelled_displays_every_datum() {
    let t = Node(10, Box::new(Node(-3, leaf(), leaf())), leaf());
    assert_eq!(
        t.labelled(),
        Node(
            String::from("10"),
            Box::new(Node(String::from("-3"), leaf(), leaf())),
            leaf()
        )
    );
}

#[test]
fn fmt_levels_appends_below_the_given_levels() {
    let t = Node(String::from("x"), leaf(), leaf());
    let mut out = String::from(">");
    t.fmt_levels(&mut out, vec![2, 1]);
    assert_eq!(
        out,
        "> \u{2502}  \u{2514}\u{2500} x\n \u{2502}     \u{251c}\u{2500}\n \u{2502}     \u{2514}\u{2500}\n"
    );
}
