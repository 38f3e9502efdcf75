use shunting_yard::{binding_power, Lexer};

#[test]
fn lexer_hands_out_tokens_in_order() {
    let mut lexer = Lexer::new("a+b");
    assert_eq!(lexer.next(), Some('a'));
    assert_eq!(lexer.next(), Some('+'));
    assert_eq!(lexer.next(), Some('b'));
    assert_eq!(lexer.next(), None);
    assert_eq!(lexer.next(), None);
}

#[test]
fn lexer_skips_blanks() {
    let mut lexer = Lexer::new("  1 \t+\n2\r \u{c}");
    assert_eq!(lexer.next(), Some('1'));
    assert_eq!(lexer.next(), Some('+'));
    assert_eq!(lexer.next(), Some('2'));
    assert_eq!(lexer.next(), None);
}

#[test]
fn lexer_keeps_vertical_tab_and_wide_blanks() {
    let mut lexer = Lexer::new("\u{b}\u{a0}");
    assert_eq!(lexer.next(), Some('\u{b}'));
    assert_eq!(lexer.next(), Some('\u{a0}'));
    assert_eq!(lexer.next(), None);
}

#[test]
fn peek_does_not_advance() {
    let mut lexer = Lexer::new("x y");
    assert_eq!(lexer.peek(), Some('x'));
    assert_eq!(lexer.peek(), Some('x'));
    assert_eq!(lexer.peek(), Some('x'));
    assert_eq!(lexer.next(), Some('x'));
    assert_eq!(lexer.peek(), Some('y'));
    assert_eq!(lexer.next(), Some('y'));
    assert_eq!(lexer.peek(), None);
    assert_eq!(lexer.peek(), None);
    assert_eq!(lexer.next(), None);
}

#[test]
fn lexer_passes_unknown_characters_through() {
    let mut lexer = Lexer::new("# é");
    assert_eq!(lexer.next(), Some('#'));
    assert_eq!(lexer.next(), Some('é'));
    assert_eq!(lexer.next(), None);
}

#[test]
fn empty_line_has_no_token() {
    let mut lexer = Lexer::new("");
    assert_eq!(lexer.peek(), None);
    assert_eq!(lexer.next(), None);
}

#[test]
fn binding_power_of_atoms() {
    for c in ['0', '5', '9', 'a', 'm', 'z', 'A', 'M', 'Z'] {
        assert_eq!(binding_power(c, true), Some((99, 100)));
        assert_eq!(binding_power(c, false), Some((99, 100)));
    }
}

#[test]
fn binding_power_of_operators() {
    for prefix in [true, false] {
        assert_eq!(binding_power('(', prefix), Some((99, 0)));
        assert_eq!(binding_power('=', prefix), Some((2, 1)));
        assert_eq!(binding_power('*', prefix), Some((7, 8)));
        assert_eq!(binding_power('/', prefix), Some((7, 8)));
        assert_eq!(binding_power('!', prefix), Some((11, 100)));
        assert_eq!(binding_power('.', prefix), Some((14, 13)));
    }
}

#[test]
fn binding_power_of_plus_and_minus_depends_on_position() {
    assert_eq!(binding_power('+', true), Some((99, 9)));
    assert_eq!(binding_power('-', true), Some((99, 9)));
    assert_eq!(binding_power('+', false), Some((5, 6)));
    assert_eq!(binding_power('-', false), Some((5, 6)));
}

#[test]
fn binding_power_of_other_characters() {
    for c in [')', '#', ' ', ':', '@', '[', '`', '{', 'é', '%'] {
        assert_eq!(binding_power(c, true), None);
        assert_eq!(binding_power(c, false), None);
    }
}
