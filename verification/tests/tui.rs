use minicourse::tui::{Container, Element, Heading, Text};

#[test]
fn container_test() {
    let text = Heading::new("Hello world".into());
    let text2 = Text::new("This is a long string of text".into());
    let container = Container::new(vec![Box::new(text), Box::new(text2)]);
    let drawn = container.render();
    println!("{}", drawn);
    assert_eq!(
        drawn,
        "+-----------------------------+\n\
         |\u{1b}[1mHello world\u{1b}[0m                  |\n\
         |This is a long string of text|\n\
         +-----------------------------+\n"
    );
}

#[test]
fn text_is_one_line_of_its_bytes() {
    let text = Text::new("abc".into());
    let dims = text.dimensions();
    assert_eq!((dims.width, dims.height), (3, 1));
    assert_eq!(text.render(), "abc");
    let wide = Text::new("\u{e9}t\u{e9}".into());
    assert_eq!(wide.dimensions().width, 5);
}

#[test]
fn heading_is_bold_text() {
    let heading = Heading::new("Top".into());
    let dims = heading.dimensions();
    assert_eq!((dims.width, dims.height), (3, 1));
    assert_eq!(heading.render(), "\u{1b}[1mTop\u{1b}[0m");
}

#[test]
fn container_frames_its_children() {
    let container = Container::new(vec![
        Box::new(Text::new("ab".into())),
        Box::new(Text::new("abcd".into())),
        Box::new(Text::new("".into())),
    ]);
    let dims = container.dimensions();
    assert_eq!((dims.width, dims.height), (6, 3));
    assert_eq!(container.render(), "+----+\n|ab  |\n|abcd|\n|    |\n+----+\n");
}

#[test]
fn empty_container_is_a_bare_frame() {
    let container = Container::new(vec![]);
    let dims = container.dimensions();
    assert_eq!((dims.width, dims.height), (2, 0));
    assert_eq!(container.render(), "++\n++\n");
}

#[test]
fn container_in_a_container_counts_all_lines() {
    let inner = Container::new(vec![
        Box::new(Text::new("a".into())),
        Box::new(Text::new("b".into())),
    ]);
    let outer = Container::new(vec![Box::new(inner), Box::new(Text::new("wide text".into()))]);
    let dims = outer.dimensions();
    assert_eq!((dims.width, dims.height), (11, 3));
}

#[test]
fn elements_that_fit_say_so() {
    assert!(Text::new("abc".into()).check_fits());
    assert!(Heading::new("abc".into()).check_fits());
    assert!(Container::new(vec![]).check_fits());
    let inner = Container::new(vec![Box::new(Text::new("a".into()))]);
    let outer = Container::new(vec![Box::new(inner), Box::new(Heading::new("b".into()))]);
    assert!(outer.check_fits());
}
