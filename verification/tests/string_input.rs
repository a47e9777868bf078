use peg_input::{Input, StringInput};

#[test]
fn empty() {
    let mut input = StringInput::new("");

    assert!(input.matches(""));
    assert!(!input.matches("a"));
}

#[test]
fn parts() {
    let mut input = StringInput::new("asdasdf");

    assert!(input.matches("asd"));
    assert!(input.matches("asdf"));
}

#[test]
fn len() {
    assert_eq!(StringInput::new("asdasdf").len(), 7);
}

#[test]
fn pos() {
    let mut input = StringInput::new("asdasdf");

    assert_eq!(input.pos(), 0);
    assert!(input.matches("asd"));
    assert_eq!(input.pos(), 3);
    assert!(input.matches("asdf"));
    assert_eq!(input.pos(), 7);

    input.set_pos(3);

    assert_eq!(input.pos(), 3);
    assert!(input.matches("asdf"));
    assert_eq!(input.pos(), 7);
}

#[test]
fn slice() {
    let input = StringInput::new("asdasdf");

    assert_eq!(input.slice(1, 3), Ok("sd"));
}

#[test]
fn line_col() {
    let input = StringInput::new("a\rb\nc\r\nd");

    assert_eq!(input.line_col(0), Ok((1, 1)));
    assert_eq!(input.line_col(1), Ok((1, 2)));
    assert_eq!(input.line_col(2), Ok((2, 1)));
    assert_eq!(input.line_col(3), Ok((2, 2)));
    assert_eq!(input.line_col(4), Ok((3, 1)));
    assert_eq!(input.line_col(5), Ok((3, 2)));
    assert_eq!(input.line_col(6), Ok((4, 1)));
    assert_eq!(input.line_col(7), Ok((4, 1)));
    assert_eq!(input.line_col(8), Ok((4, 2)));
}

#[test]
fn between() {
    let mut input = StringInput::new("bbbb");

    assert_eq!(input.between('a', 'c'), Ok(true));
    assert_eq!(input.between('b', 'b'), Ok(true));
    assert_eq!(input.between('a', 'a'), Ok(false));
    assert_eq!(input.between('c', 'c'), Ok(false));

    assert_eq!(input.pos(), 2);
}
