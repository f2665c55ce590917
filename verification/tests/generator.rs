use tinyasm::error::TranslateError;
use tinyasm::generator::{generate_asm_strict, generate_asm_target};
use tinyasm::lexer::tokenize;
use tinyasm::token::Token;

fn id(s: &str) -> Token {
    Token::Identifier(s.to_string())
}

fn op(s: &str) -> Token {
    Token::Operation(s.to_string())
}

fn num(s: &str) -> Token {
    Token::Number(s.to_string())
}

fn wide(source: &str) -> String {
    generate_asm_target(tokenize(source).unwrap(), true)
}

fn narrow(source: &str) -> String {
    generate_asm_target(tokenize(source).unwrap(), false)
}

const COMPARE_EQUAL: &str = "    cmp rax, rbx\n    sete al\n    movzx rax, al\n";

#[test]
fn function_with_parameters_and_a_local() {
    assert_eq!(
        wide("f a b {mem x 5;ret x;}"),
        "f:\n    push rbp\n    mov rbp, rsp\n    ; arg a at [rbp-8]\n    ; arg b at [rbp-16]\n    mov rax, 5\n    mov [rbp-24], rax\n    mov rax, [rbp-24]\n    leave\n    ret\n"
    );
}

#[test]
fn narrow_mode_steps_by_four() {
    assert_eq!(
        narrow("f a b {mem x 5;ret x;}"),
        "f:\n    push rbp\n    mov rbp, rsp\n    ; arg a at [rbp-4]\n    ; arg b at [rbp-8]\n    mov rax, 5\n    mov [rbp-12], rax\n    mov rax, [rbp-12]\n    leave\n    ret\n"
    );
}

#[test]
fn loop_with_break() {
    assert_eq!(wide("loop {brk;}"), ".loop_start0:\n    jmp .loop_end0\n.loop_end0:\n");
}

#[test]
fn conditional_with_else() {
    // The closing brace of the first block resolves the conditional, so the
    // else arrow finds nothing open and writes no jump.
    let expected = format!(
        "{}    cmp rax, 0\n    je .if_end0\n    mov rax, 1\n    leave\n    ret\n.if_end0:\n    mov rax, 0\n    leave\n    ret\n",
        COMPARE_EQUAL
    );
    assert_eq!(wide("a == b -> {ret 1;} !-> {ret 0;}"), expected);
}

#[test]
fn else_with_a_condition_opens_a_new_conditional() {
    // The tokens behind the else arrow go by their own rules: the comparison
    // is rendered, and the arrow behind it opens the next conditional.
    let expected = format!(
        "{}    cmp rax, 0\n    je .if_end0\n    mov rax, 1\n    leave\n    ret\n.if_end0:\n{}    cmp rax, 0\n    je .if_end1\n    mov rax, 2\n    leave\n    ret\n.if_end1:\n",
        COMPARE_EQUAL, COMPARE_EQUAL
    );
    assert_eq!(wide("a == b -> {ret 1;} !-> a == c -> {ret 2;}"), expected);
}

#[test]
fn else_arrow_jumps_to_the_open_conditional() {
    let tokens = vec![op("->"), op("!->"), Token::BraceClose];
    assert_eq!(
        generate_asm_target(tokens, true),
        "    cmp rax, 0\n    je .if_end0\n    jmp .if_end0\n"
    );
}

#[test]
fn else_arrow_takes_the_outer_conditional_when_the_inner_is_closed() {
    let tokens = vec![op("->"), op("->"), Token::BraceClose, op("!->"), Token::BraceClose];
    assert_eq!(
        generate_asm_target(tokens, true),
        "    cmp rax, 0\n    je .if_end0\n    cmp rax, 0\n    je .if_end1\n.if_end1:\n    jmp .if_end0\n"
    );
}

#[test]
fn closing_brace_resolves_loop_first_then_conditional() {
    // One closing brace closes the innermost loop and, after it, the
    // innermost conditional; the second brace finds nothing left.
    let expected = format!(
        ".loop_start0:\n{}    cmp rax, 0\n    je .if_end1\n.loop_end0:\n.if_end1:\n",
        COMPARE_EQUAL
    );
    assert_eq!(wide("loop {a == b -> {}}"), expected);
}

#[test]
fn unmatched_closing_brace_writes_nothing() {
    assert_eq!(wide("}"), "");
    assert_eq!(wide("}}}"), "");
    assert_eq!(wide("loop {}}}"), ".loop_start0:\n.loop_end0:\n");
}

#[test]
fn control_words_without_an_open_scope_write_nothing() {
    assert_eq!(wide("brk;"), "");
    assert_eq!(generate_asm_target(vec![op("!->")], true), "");
}

#[test]
fn empty_stream_gives_empty_text() {
    assert_eq!(generate_asm_target(vec![], true), "");
    assert_eq!(generate_asm_target(vec![], false), "");
}

#[test]
fn nested_loops_break_to_the_innermost() {
    assert_eq!(
        wide("loop {loop {brk;}brk;}"),
        ".loop_start0:\n.loop_start1:\n    jmp .loop_end1\n.loop_end1:\n    jmp .loop_end0\n.loop_end0:\n"
    );
}

#[test]
fn declaration_without_a_value_only_binds() {
    assert_eq!(wide("mem x;ret x;"), "    mov rax, [rbp-8]\n    leave\n    ret\n");
    assert_eq!(narrow("mem x;ret x;"), "    mov rax, [rbp-4]\n    leave\n    ret\n");
}

#[test]
fn declaring_a_known_name_again_takes_no_slot() {
    assert_eq!(
        wide("mem x 1;mem x 2;mem y 3;"),
        "    mov rax, 1\n    mov [rbp-8], rax\n    mov rax, 2\n    mov [rbp-8], rax\n    mov rax, 3\n    mov [rbp-16], rax\n"
    );
    assert_eq!(
        narrow("mem x 1;mem x 2;mem y 3;"),
        "    mov rax, 1\n    mov [rbp-4], rax\n    mov rax, 2\n    mov [rbp-4], rax\n    mov rax, 3\n    mov [rbp-8], rax\n"
    );
    assert_eq!(wide("mem x;mem y;mem x;ret x;"), "    mov rax, [rbp-8]\n    leave\n    ret\n");
}

#[test]
fn declaring_a_parameter_again_takes_no_slot() {
    assert_eq!(
        wide("f a b {mem a 7;mem c 9;}"),
        "f:\n    push rbp\n    mov rbp, rsp\n    ; arg a at [rbp-8]\n    ; arg b at [rbp-16]\n    mov rax, 7\n    mov [rbp-8], rax\n    mov rax, 9\n    mov [rbp-24], rax\n"
    );
}

#[test]
fn parameter_named_twice_has_one_slot() {
    assert_eq!(
        wide("f a a b {}"),
        "f:\n    push rbp\n    mov rbp, rsp\n    ; arg a at [rbp-8]\n    ; arg a at [rbp-8]\n    ; arg b at [rbp-16]\n"
    );
}

#[test]
fn name_of_an_earlier_function_is_new_to_the_next() {
    // The table keeps `x` from `f`, but `g` has not bound it yet: it gets
    // the next slot of the frame of `g`.
    assert_eq!(
        wide("f {mem x 1;mem y 2;}g {mem y 3;mem x 4;}"),
        "f:\n    push rbp\n    mov rbp, rsp\n    mov rax, 1\n    mov [rbp-8], rax\n    mov rax, 2\n    mov [rbp-16], rax\ng:\n    push rbp\n    mov rbp, rsp\n    mov rax, 3\n    mov [rbp-8], rax\n    mov rax, 4\n    mov [rbp-16], rax\n"
    );
}

#[test]
fn parameters_and_declarations_are_numbered_in_order() {
    let names = ["p", "q", "r", "s", "t", "u", "v", "w"];
    for width in [4i64, 8] {
        for m in 0..4usize {
            for k in 0..4usize {
                let mut tokens = vec![id("f")];
                let mut expected = String::from("f:\n    push rbp\n    mov rbp, rsp\n");
                for i in 0..m {
                    tokens.push(id(names[i]));
                    expected += &format!(
                        "    ; arg {} at [rbp-{}]\n",
                        names[i],
                        (i as i64 + 1) * width
                    );
                }
                tokens.push(Token::BraceOpen);
                for j in 0..k {
                    tokens.push(id("mem"));
                    tokens.push(id(names[m + j]));
                    tokens.push(num("5"));
                    tokens.push(Token::SemiColon);
                    expected += &format!(
                        "    mov rax, 5\n    mov [rbp-{}], rax\n",
                        ((m + j) as i64 + 1) * width
                    );
                }
                assert_eq!(generate_asm_target(tokens, width == 8), expected);
            }
        }
    }
}

#[test]
fn slots_go_down_one_word_at_a_time() {
    assert_eq!(
        wide("mem a 1;mem b 2;mem c 3;"),
        "    mov rax, 1\n    mov [rbp-8], rax\n    mov rax, 2\n    mov [rbp-16], rax\n    mov rax, 3\n    mov [rbp-24], rax\n"
    );
}

#[test]
fn new_function_starts_its_frame_anew_and_keeps_old_names() {
    assert_eq!(
        wide("f a {}g b {ret a;}"),
        "f:\n    push rbp\n    mov rbp, rsp\n    ; arg a at [rbp-8]\ng:\n    push rbp\n    mov rbp, rsp\n    ; arg b at [rbp-8]\n    mov rax, [rbp-8]\n    leave\n    ret\n"
    );
}

#[test]
fn function_without_parameters() {
    assert_eq!(wide("main {ret 0;}"), "main:\n    push rbp\n    mov rbp, rsp\n    mov rax, 0\n    leave\n    ret\n");
}

#[test]
fn identifier_without_a_brace_is_passed_over() {
    assert_eq!(wide("a b c;"), "");
    assert_eq!(wide("x"), "");
}

#[test]
fn ret_without_a_value_only_leaves() {
    assert_eq!(wide("ret;"), "    leave\n    ret\n");
    assert_eq!(generate_asm_target(vec![id("ret")], true), "    leave\n    ret\n");
}

#[test]
fn ret_passes_over_the_token_behind_it() {
    // The brace behind `ret` is not seen, so the loop stays open.
    assert_eq!(wide("loop {ret}}"), ".loop_start0:\n    leave\n    ret\n.loop_end0:\n");
}

#[test]
fn ret_of_an_unbound_name_loads_nothing() {
    assert_eq!(wide("ret y;"), "    leave\n    ret\n");
}

#[test]
fn ref_loads_the_slot() {
    assert_eq!(
        wide("mem x 7;ref x;"),
        "    mov rax, 7\n    mov [rbp-8], rax\n    mov rax, [rbp-8]\n"
    );
    assert_eq!(wide("ref y;"), "");
    assert_eq!(wide("ref 5;"), "    mov rax, 5\n");
}

#[test]
fn arithmetic_accumulates_into_the_left_name() {
    assert_eq!(
        wide("mem x 1;x + 2;"),
        "    mov rax, 1\n    mov [rbp-8], rax\n    mov rax, [rbp-8]\n    mov rbx, 2\n    add rax, rbx\n    mov [rbp-8], rax\n"
    );
    assert_eq!(
        wide("mem x 1;mem y 2;x - y;"),
        "    mov rax, 1\n    mov [rbp-8], rax\n    mov rax, 2\n    mov [rbp-16], rax\n    mov rax, [rbp-8]\n    mov rbx, [rbp-16]\n    sub rax, rbx\n    mov [rbp-8], rax\n"
    );
}

#[test]
fn arithmetic_on_numbers_stores_nothing() {
    assert_eq!(
        wide("6 / 3;"),
        "    mov rax, 6\n    mov rax, 6\n    mov rbx, 3\n    cqo\n    idiv rbx\n"
    );
    assert_eq!(
        wide("2 * 4;"),
        "    mov rax, 2\n    mov rax, 2\n    mov rbx, 4\n    imul rax, rbx\n"
    );
}

#[test]
fn comparison_loads_both_operands_and_stores_nothing() {
    assert_eq!(
        wide("mem x 1;x >= 2;"),
        "    mov rax, 1\n    mov [rbp-8], rax\n    mov rax, [rbp-8]\n    mov rbx, 2\n    cmp rax, rbx\n    setge al\n    movzx rax, al\n"
    );
}

#[test]
fn each_comparison_has_its_own_flag() {
    let cases = [
        ("==", "sete"),
        ("!=", "setne"),
        ("<", "setl"),
        (">", "setg"),
        ("<=", "setle"),
        (">=", "setge"),
    ];
    for (text, flag) in cases {
        let tokens = vec![id("a"), op(text), id("b")];
        assert_eq!(
            generate_asm_target(tokens, true),
            format!("    cmp rax, rbx\n    {} al\n    movzx rax, al\n", flag)
        );
    }
}

#[test]
fn operator_at_either_end_is_passed_over() {
    assert_eq!(generate_asm_target(vec![op("+"), num("1")], true), "    mov rax, 1\n");
    assert_eq!(generate_asm_target(vec![num("1"), op("+")], true), "    mov rax, 1\n");
    assert_eq!(generate_asm_target(vec![op("==")], true), "");
}

#[test]
fn other_operators_write_nothing() {
    for text in ["=", "+=", "-=", "*=", "/=", "&&", "||", ":=", "&", "|"] {
        assert_eq!(generate_asm_target(vec![id("a"), op(text), id("b")], true), "");
    }
}

#[test]
fn bare_number_is_loaded() {
    assert_eq!(wide("42;"), "    mov rax, 42\n");
}

#[test]
fn jump_and_import() {
    assert_eq!(wide("jump done;"), "    jmp done\n");
    assert_eq!(wide("imp io;"), "    ; import io\n");
    assert_eq!(wide("imp <io.h>;"), "    ; import <io.h>\n");
    assert_eq!(wide("jump;"), "");
    assert_eq!(wide("imp 5;"), "    mov rax, 5\n");
}

#[test]
fn declaration_without_a_name_is_passed_over() {
    assert_eq!(wide("mem;"), "");
    assert_eq!(wide("mem 5;"), "    mov rax, 5\n");
    assert_eq!(generate_asm_target(vec![id("mem")], true), "");
}

#[test]
fn assembly_escape_copies_words_up_to_the_semicolon() {
    assert_eq!(wide("asm mov rax 60;ret;"), "mov rax 60 \n    leave\n    ret\n");
    assert_eq!(wide("asm add rax + rbx;"), "add rax rbx \n");
    assert_eq!(wide("asm;"), "\n");
    assert_eq!(wide("asm nop"), "nop \n");
}

#[test]
fn string_literal_gets_a_data_label() {
    assert_eq!(wide("\"hi\";"), ".str0: db 'hi', 0\n");
    assert_eq!(wide("\"a\";\"b\";"), ".str0: db 'a', 0\n.str1: db 'b', 0\n");
}

#[test]
fn labels_share_one_counter() {
    assert_eq!(
        wide("loop {\"s\";a == b -> {}}"),
        format!(
            ".loop_start0:\n.str1: db 's', 0\n{}    cmp rax, 0\n    je .if_end2\n.loop_end0:\n.if_end2:\n",
            COMPARE_EQUAL
        )
    );
}

#[test]
fn label_numbers_are_written_in_decimal() {
    let mut tokens = Vec::new();
    for _ in 0..12 {
        tokens.push(Token::StringLiteral("x".to_string()));
    }
    let text = generate_asm_target(tokens, true);
    let lines: Vec<&str> = text.lines().collect();
    assert_eq!(lines.len(), 12);
    assert_eq!(lines[9], ".str9: db 'x', 0");
    assert_eq!(lines[10], ".str10: db 'x', 0");
    assert_eq!(lines[11], ".str11: db 'x', 0");
    for i in 0..lines.len() {
        for j in (i + 1)..lines.len() {
            assert_ne!(lines[i], lines[j]);
        }
    }
}

#[test]
fn deep_frames_are_written_in_decimal() {
    let mut tokens = Vec::new();
    for name in ["a", "b", "c", "d", "e", "f", "g", "h", "i", "j", "k", "l", "m"] {
        tokens.push(id("mem"));
        tokens.push(id(name));
    }
    tokens.push(id("ret"));
    tokens.push(id("m"));
    assert_eq!(generate_asm_target(tokens, true), "    mov rax, [rbp-104]\n    leave\n    ret\n");
}

#[test]
fn other_tokens_write_nothing() {
    let tokens = vec![
        Token::ParenOpen,
        Token::ParenClose,
        Token::BraceOpen,
        Token::SemiColon,
        Token::SquareOpen,
        Token::SquareClose,
        Token::Symbol('@'),
        Token::CharLiteral('c'),
    ];
    assert_eq!(generate_asm_target(tokens, true), "");
}

#[test]
fn strict_mode_refuses_unbound_names() {
    assert_eq!(
        generate_asm_strict(tokenize("ret y;").unwrap(), true),
        Err(TranslateError::UnboundIdentifier)
    );
    assert_eq!(
        generate_asm_strict(tokenize("ref y;").unwrap(), true),
        Err(TranslateError::UnboundIdentifier)
    );
    assert_eq!(
        generate_asm_strict(tokenize("a == b -> {}").unwrap(), true),
        Err(TranslateError::UnboundIdentifier)
    );
    assert_eq!(
        generate_asm_strict(tokenize("mem x 1;x + y;").unwrap(), true),
        Err(TranslateError::UnboundIdentifier)
    );
}

#[test]
fn strict_mode_agrees_where_every_name_is_bound() {
    let source = "f a b {mem x 5;x + a;a == b -> {ret x;}ret 0;}";
    assert_eq!(
        generate_asm_strict(tokenize(source).unwrap(), true),
        Ok(generate_asm_target(tokenize(source).unwrap(), true))
    );
    assert_eq!(generate_asm_strict(vec![], false), Ok(String::new()));
}

#[test]
fn label_definitions_are_distinct_and_never_outnumber_their_opens() {
    let sources = [
        "loop {loop {a == b -> {brk;}}}}}",
        "a == b -> {\"s\";} !-> {loop {\"t\";}}",
        "}}} loop {} a -> -> -> }}}} loop {brk;}",
        "f a {loop {a == a -> {ret a;} !-> a == b -> {brk;}}}",
    ];
    for source in sources {
        let text = generate_asm_target(tokenize(source).unwrap(), true);
        let mut defined: Vec<&str> = Vec::new();
        let mut loop_starts = 0;
        let mut loop_ends = 0;
        let mut if_opens = 0;
        let mut if_ends = 0;
        for line in text.lines() {
            if line.starts_with('.') {
                let name = line.split(':').next().unwrap();
                assert!(!defined.contains(&name), "{} defined twice in {}", name, source);
                defined.push(name);
                if name.starts_with(".loop_start") {
                    loop_starts += 1;
                } else if name.starts_with(".loop_end") {
                    loop_ends += 1;
                } else if name.starts_with(".if_end") {
                    if_ends += 1;
                }
            } else if line.starts_with("    je ") {
                if_opens += 1;
            }
            assert!(loop_ends <= loop_starts, "{}", source);
            assert!(if_ends <= if_opens, "{}", source);
        }
    }
}
