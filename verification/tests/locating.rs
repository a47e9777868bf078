use peg_input::locate::locate;
use peg_input::utf8::encoded_width;
use peg_input::{Input, InputError, StringInput};

#[test]
fn origin_is_line_one_column_one() {
    for text in ["", "a", "\n", "\r\n", "日本"] {
        assert_eq!(StringInput::new(text).line_col(0), Ok((1, 1)));
        assert_eq!(locate(text, 0), Ok((1, 1)));
    }
}

#[test]
fn offset_past_the_end_is_out_of_bounds() {
    let input = StringInput::new("ab");
    assert_eq!(input.line_col(2), Ok((1, 3)));
    assert_eq!(input.line_col(3), Err(InputError::OutOfBounds));
    assert_eq!(input.line_col(usize::MAX), Err(InputError::OutOfBounds));
    assert_eq!(StringInput::new("").line_col(1), Err(InputError::OutOfBounds));
}

#[test]
fn offsets_count_characters() {
    // Three characters in six bytes.
    let input = StringInput::new("é\n日");
    assert_eq!(input.len(), 6);
    assert_eq!(input.line_col(1), Ok((1, 2)));
    assert_eq!(input.line_col(2), Ok((2, 1)));
    assert_eq!(input.line_col(3), Ok((2, 2)));
    assert_eq!(input.line_col(4), Err(InputError::OutOfBounds));
}

#[test]
fn each_kind_of_line_end_counts_once() {
    assert_eq!(locate("\r", 1), Ok((2, 1)));
    assert_eq!(locate("\n", 1), Ok((2, 1)));
    assert_eq!(locate("\r\n", 1), Ok((2, 1)));
    assert_eq!(locate("\r\n", 2), Ok((2, 1)));
    assert_eq!(locate("\n\r", 2), Ok((3, 1)));
    assert_eq!(locate("\r\r\n", 3), Ok((3, 1)));
    assert_eq!(locate("\n\n", 2), Ok((3, 1)));
    assert_eq!(locate("\r\n\n", 3), Ok((3, 1)));
    assert_eq!(locate("\r\nx", 3), Ok((2, 2)));
}

#[test]
fn lines_never_decrease_and_columns_grow_on_a_line() {
    let text = "ab\r\ncd\n\ref\rg";
    let count = text.chars().count();
    let chars: Vec<char> = text.chars().collect();
    for p1 in 0..=count {
        for p2 in (p1 + 1)..=count {
            let (l1, c1) = locate(text, p1).unwrap();
            let (l2, c2) = locate(text, p2).unwrap();
            assert!(l1 <= l2);
            let in_pair = p1 >= 1 && chars[p1 - 1] == '\r' && chars[p1] == '\n';
            if l1 == l2 {
                if in_pair && p2 == p1 + 1 {
                    assert_eq!((c1, c2), (1, 1));
                } else {
                    assert!(c1 < c2);
                }
            }
        }
    }
}

#[test]
fn line_col_ignores_cursor() {
    let mut input = StringInput::new("a\nb");
    assert!(input.matches("a\n"));
    assert_eq!(input.line_col(2), Ok((2, 1)));
    assert_eq!(input.pos(), 2);
}

#[test]
fn encoded_widths() {
    assert_eq!(encoded_width('\u{0}'), 1);
    assert_eq!(encoded_width('\u{7f}'), 1);
    assert_eq!(encoded_width('\u{80}'), 2);
    assert_eq!(encoded_width('\u{7ff}'), 2);
    assert_eq!(encoded_width('\u{800}'), 3);
    assert_eq!(encoded_width('\u{ffff}'), 3);
    assert_eq!(encoded_width('\u{10000}'), 4);
    assert_eq!(encoded_width('\u{10ffff}'), 4);
    for c in ['a', 'é', '日', '😀'] {
        assert_eq!(encoded_width(c), c.len_utf8());
    }
}
