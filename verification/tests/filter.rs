use bf_jit::token::{is_token_char, parse};

#[test]
fn keeps_the_eight_instructions() {
    assert_eq!(parse("><+-.,[]"), vec!['>', '<', '+', '-', '.', ',', '[', ']']);
}

#[test]
fn drops_everything_else() {
    assert_eq!(parse("a+b-c"), vec!['+', '-']);
    assert_eq!(parse("move > right, then < left"), vec!['>', ',', '<']);
}

#[test]
fn keeps_the_order() {
    assert_eq!(parse("]x[y-z+"), vec![']', '[', '-', '+']);
}

#[test]
fn empty_text_gives_no_tokens() {
    assert_eq!(parse(""), Vec::<char>::new());
}

#[test]
fn comment_only_text_gives_no_tokens() {
    assert_eq!(parse("no instructions here\nnor here\n"), Vec::<char>::new());
}

#[test]
fn line_breaks_are_comments() {
    assert_eq!(parse("+\n+\r\n+"), vec!['+', '+', '+']);
}

#[test]
fn characters_outside_ascii_are_comments() {
    assert_eq!(parse("é+ü→-日本語."), vec!['+', '-', '.']);
}

#[test]
fn filtering_twice_is_filtering_once() {
    let once = parse("a[b-c]d+e>f<g.h,i");
    let text: String = once.iter().collect();
    assert_eq!(parse(&text), once);
}

#[test]
fn filtering_a_joined_text_joins_the_filtered_texts() {
    let a = "x+y[z";
    let b = "-q]w.";
    let mut joined = parse(a);
    joined.extend(parse(b));
    assert_eq!(parse(&format!("{}{}", a, b)), joined);
}

#[test]
fn token_test_knows_each_instruction() {
    for c in ['>', '<', '+', '-', '.', ',', '[', ']'] {
        assert!(is_token_char(c));
    }
    for c in ['a', ' ', '\n', '(', ')', '{', '}', '0', '*', '/', '=', '!'] {
        assert!(!is_token_char(c));
    }
}
