use tinyasm::cleaner::{clean_code, strip_comments, tidy};

#[test]
fn comments_run_to_the_end_of_their_line() {
    assert_eq!(strip_comments("a // note\nb"), "a b");
    assert_eq!(strip_comments("// only a note"), "");
    assert_eq!(strip_comments("x;// one\ny;// two"), "x;y;");
}

#[test]
fn lines_are_joined_with_nothing_between() {
    assert_eq!(strip_comments("a\nb\n\nc"), "abc");
    assert_eq!(strip_comments("a\r\nb"), "a\rb");
}

#[test]
fn single_slash_is_kept() {
    assert_eq!(strip_comments("a / b"), "a / b");
    assert_eq!(strip_comments("a /\n/ b"), "a // b");
    assert_eq!(strip_comments("a /"), "a /");
}

#[test]
fn runs_of_white_space_become_one_blank() {
    assert_eq!(clean_code("a    b".to_string()), "a b");
    assert_eq!(clean_code("a \t b".to_string()), "a b");
    assert_eq!(clean_code("a\t\tb  c".to_string()), "a b c");
    assert_eq!(clean_code("  x".to_string()), " x");
    assert_eq!(clean_code("a \u{a0}\u{2003}b".to_string()), "a b");
}

#[test]
fn lone_white_space_stays_as_it_is() {
    assert_eq!(clean_code("a\tb".to_string()), "a\tb");
    assert_eq!(clean_code("a b".to_string()), "a b");
}

#[test]
fn blanks_round_punctuation_go() {
    assert_eq!(tidy("f { x; }"), "f {x;}");
    assert_eq!(tidy("g( a )"), "g( a)");
    assert_eq!(tidy(";  x"), "; x");
    assert_eq!(tidy("{ }"), "{}");
    assert_eq!(tidy("; }"), ";}");
}

#[test]
fn clean_code_does_all_three() {
    assert_eq!(
        clean_code("f a b {   // start\n    mem x 5;   \n    ret x;\n}\n".to_string()),
        "f a b {mem x 5;ret x;}"
    );
    assert_eq!(clean_code("loop { brk; }".to_string()), "loop {brk;}");
    assert_eq!(clean_code(String::new()), "");
}
