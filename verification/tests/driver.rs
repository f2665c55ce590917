use tinyasm::decimal::{push_decimal, push_signed_decimal};
use tinyasm::driver::{parse, select_target, translate, translate_strict, Target};
use tinyasm::error::TranslateError;
use tinyasm::text::{chars_of, same_text, spells, text_of};

fn args(list: &[&str]) -> Vec<String> {
    list.iter().map(|s| s.to_string()).collect()
}

const SOURCE: &str = "f a b {\n    mem x 5;   // the local\n    ret x;\n}\n";

const WIDE: &str = "f:\n    push rbp\n    mov rbp, rsp\n    ; arg a at [rbp-8]\n    ; arg b at [rbp-16]\n    mov rax, 5\n    mov [rbp-24], rax\n    mov rax, [rbp-24]\n    leave\n    ret\n";

const NARROW: &str = "f:\n    push rbp\n    mov rbp, rsp\n    ; arg a at [rbp-4]\n    ; arg b at [rbp-8]\n    mov rax, 5\n    mov [rbp-12], rax\n    mov rax, [rbp-12]\n    leave\n    ret\n";

#[test]
fn translate_example_function() {
    assert_eq!(translate("f a b { mem x 5; ret x; }", true), Ok(WIDE.to_string()));
    assert_eq!(translate(SOURCE, true), Ok(WIDE.to_string()));
    assert_eq!(translate(SOURCE, false), Ok(NARROW.to_string()));
}

#[test]
fn translate_example_loop() {
    assert_eq!(
        translate("loop { brk; }", true),
        Ok(".loop_start0:\n    jmp .loop_end0\n.loop_end0:\n".to_string())
    );
}

#[test]
fn translate_example_conditional() {
    assert_eq!(
        translate("a == b -> { ret 1; } !-> { ret 0; }", true),
        Ok("    cmp rax, rbx\n    sete al\n    movzx rax, al\n    cmp rax, 0\n    je .if_end0\n    mov rax, 1\n    leave\n    ret\n.if_end0:\n    mov rax, 0\n    leave\n    ret\n".to_string())
    );
}

#[test]
fn translate_unterminated_string() {
    assert_eq!(translate("\"abc", true), Err(TranslateError::MalformedInput));
    assert_eq!(translate("mem x 5; \"abc", false), Err(TranslateError::MalformedInput));
}

#[test]
fn translate_is_fresh_for_every_call() {
    let first = translate("loop { \"s\"; }", true);
    let second = translate("loop { \"s\"; }", true);
    assert_eq!(first, second);
    assert_eq!(first, Ok(".loop_start0:\n.str1: db 's', 0\n.loop_end0:\n".to_string()));
}

#[test]
fn translate_strict_names_both_errors() {
    assert_eq!(translate_strict("ret y;", true), Err(TranslateError::UnboundIdentifier));
    assert_eq!(translate_strict("\"abc", true), Err(TranslateError::MalformedInput));
    assert_eq!(translate_strict(SOURCE, true), Ok(WIDE.to_string()));
}

#[test]
fn target_follows_the_flags() {
    assert_eq!(select_target(&args(&["prog", "in.src"])), Target::Native);
    assert_eq!(select_target(&args(&["prog", "in.src", "-compat"])), Target::Compat);
    assert_eq!(select_target(&args(&["prog", "in.src", "-fmbyas"])), Target::Fmbyas);
    assert_eq!(select_target(&args(&["prog", "-fmbyas", "-compat"])), Target::Compat);
    assert_eq!(select_target(&args(&["prog", "-compatible"])), Target::Native);
    assert_eq!(select_target(&args(&[])), Target::Native);
}

#[test]
fn parse_builds_what_the_flags_ask() {
    assert_eq!(parse(SOURCE.to_string(), args(&["prog", "in.src"])), Ok(WIDE.to_string()));
    assert_eq!(
        parse(SOURCE.to_string(), args(&["prog", "in.src", "-compat"])),
        Ok(NARROW.to_string())
    );
    assert_eq!(
        parse(SOURCE.to_string(), args(&["prog", "in.src", "-fmbyas"])),
        Ok("f a b {mem x 5;ret x;}".to_string())
    );
}

#[test]
fn parse_refuses_malformed_source_whatever_the_target() {
    for flag in ["-compat", "-fmbyas", "-other"] {
        assert_eq!(
            parse("x = \"abc".to_string(), args(&["prog", "in.src", flag])),
            Err(TranslateError::MalformedInput)
        );
    }
}

#[test]
fn errors_describe_themselves() {
    assert_eq!(
        TranslateError::MalformedInput.describe(),
        "malformed input: the source ends inside a token"
    );
    assert_eq!(
        TranslateError::UnboundIdentifier.describe(),
        "unbound identifier: a name is read before it is bound"
    );
}

#[test]
fn decimal_numerals() {
    let mut out = String::from("n=");
    push_decimal(&mut out, 0);
    out.push(',');
    push_decimal(&mut out, 7);
    out.push(',');
    push_decimal(&mut out, 10);
    out.push(',');
    push_decimal(&mut out, 1234567890);
    out.push(',');
    push_decimal(&mut out, u128::MAX);
    assert_eq!(out, "n=0,7,10,1234567890,340282366920938463463374607431768211455");
}

#[test]
fn signed_decimal_numerals() {
    let mut out = String::new();
    push_signed_decimal(&mut out, -8);
    out.push(' ');
    push_signed_decimal(&mut out, 0);
    out.push(' ');
    push_signed_decimal(&mut out, 16);
    out.push(' ');
    push_signed_decimal(&mut out, i128::MIN);
    out.push(' ');
    push_signed_decimal(&mut out, i128::MAX);
    assert_eq!(
        out,
        "-8 0 16 -170141183460469231731687303715884105728 170141183460469231731687303715884105727"
    );
}

#[test]
fn text_helpers() {
    assert_eq!(chars_of("a\u{e9}b"), vec!['a', '\u{e9}', 'b']);
    assert_eq!(chars_of(""), Vec::<char>::new());
    assert!(spells(&vec!['r', 'e', 't'], "ret"));
    assert!(!spells(&vec!['r', 'e'], "ret"));
    assert!(!spells(&vec!['r', 'e', 't', 's'], "ret"));
    assert!(!spells(&vec!['r', 'a', 't'], "ret"));
    assert!(spells(&vec![], ""));
    assert!(same_text("loop", "loop"));
    assert!(!same_text("loop", "loops"));
    assert_eq!(text_of(&vec!['a', 'b', 'c', 'd'], 1, 3), "bc");
    assert_eq!(text_of(&vec!['a', 'b'], 2, 2), "");
}
