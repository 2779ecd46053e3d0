use minicourse::design::{fill_progress_bar, find_contains};

fn tenths(frac: f32) -> usize {
    (frac * 10.).round().clamp(0., 10.) as usize
}

#[test]
fn find_contains_test() {
    let haystack = vec![String::from("hello"), String::from("world")];
    let needle = "w";
    assert_eq!(find_contains(&haystack, needle), vec![1]);
}

#[test]
fn find_contains_lists_every_hit_in_order() {
    let haystack: Vec<String> = ["abc", "bcd", "xyz", "", "zabcz"]
        .iter()
        .map(|s| s.to_string())
        .collect();
    assert_eq!(find_contains(&haystack, "bc"), vec![0, 1, 4]);
    assert_eq!(find_contains(&haystack, "abc"), vec![0, 4]);
    assert_eq!(find_contains(&haystack, "q"), Vec::<usize>::new());
    assert_eq!(find_contains(&haystack, ""), vec![0, 1, 2, 3, 4]);
    assert_eq!(find_contains(&[], "a"), Vec::<usize>::new());
}

#[test]
fn find_contains_matches_whole_characters() {
    let haystack = vec![String::from("na\u{ef}ve"), String::from("naive")];
    assert_eq!(find_contains(&haystack, "\u{ef}"), vec![0]);
    assert_eq!(find_contains(&haystack, "ve"), vec![0, 1]);
}

#[test]
fn test_fill_progress_bar() {
    let mut buf = String::new();
    fill_progress_bar(&mut buf, ('[', ']'), tenths(0.2));
    assert_eq!(buf, "[==        ]");
}

#[test]
fn progress_bar_empty_and_full() {
    let mut buf = String::new();
    fill_progress_bar(&mut buf, ('<', '>'), 0);
    assert_eq!(buf, "<          >");
    let mut buf = String::new();
    fill_progress_bar(&mut buf, ('<', '>'), 10);
    assert_eq!(buf, "<==========>");
    let mut buf = String::new();
    fill_progress_bar(&mut buf, ('<', '>'), 7);
    assert_eq!(buf, "<=======   >");
}

#[test]
fn progress_bar_counts_more_than_ten_as_ten() {
    let mut buf = String::new();
    fill_progress_bar(&mut buf, ('[', ']'), 11);
    assert_eq!(buf, "[==========]");
    let mut buf = String::new();
    fill_progress_bar(&mut buf, ('[', ']'), usize::MAX);
    assert_eq!(buf, "[==========]");
    let mut buf = String::new();
    fill_progress_bar(&mut buf, ('[', ']'), tenths(7.5));
    assert_eq!(buf, "[==========]");
    let mut buf = String::new();
    fill_progress_bar(&mut buf, ('[', ']'), tenths(-1.));
    assert_eq!(buf, "[          ]");
}

#[test]
fn progress_bar_is_appended() {
    let mut buf = String::from("load ");
    fill_progress_bar(&mut buf, ('[', ']'), 5);
    assert_eq!(buf, "load [=====     ]");
}
