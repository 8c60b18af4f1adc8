use bfc::symbols::{Symbol, SymbolCount};
use bfc::lexer::lex;
use bfc::pipeline::{reduce_symbols, normalise_symbols, compile_source};
use bfc::fold::fold_symbols;
use bfc::codegen::{generate_body, render_asm, CompileError};
use bfc::text::{dec_string, find_marker};

fn canonical_of(src: &str) -> Vec<SymbolCount> {
    let symbols = lex(src);
    let reduced = reduce_symbols(&symbols);
    let folded = fold_symbols(reduced);
    normalise_symbols(&folded)
}

const TEMPLATE: &str = "head tape=<CALCULATED_TAPE_LENGTH>;\n<GENERATED_CODE_HERE>tail\n";

#[test]
fn dec_string_renders_decimal() {
    assert_eq!(dec_string(0), "0");
    assert_eq!(dec_string(7), "7");
    assert_eq!(dec_string(12), "12");
    assert_eq!(dec_string(120), "120");
    assert_eq!(dec_string(98041), "98041");
}

#[test]
fn find_marker_first_occurrence() {
    assert_eq!(find_marker("abcabc", "bc"), Some(1));
    assert_eq!(find_marker("abcabc", "ca"), Some(2));
    assert_eq!(find_marker("abcabc", "zz"), None);
    assert_eq!(find_marker("ab", "abc"), None);
}

#[test]
fn generate_simple_statements() {
    let body = generate_body(&canonical_of(">.")).unwrap();
    assert_eq!(body, "add rbx, 1\ncall print\n");
    let body = generate_body(&canonical_of("<,")).unwrap();
    assert_eq!(body, "sub rbx, 1\ncall read\n");
}

#[test]
fn generate_counted_statements() {
    let body = generate_body(&canonical_of("++++++++++++")).unwrap();
    assert_eq!(body, "add byte [d + rbx], 12\n");
    let body = generate_body(&canonical_of("---")).unwrap();
    assert_eq!(body, "sub byte [d + rbx], 3\n");
}

#[test]
fn generate_simple_loop() {
    let body = generate_body(&canonical_of("[-]")).unwrap();
    assert_eq!(
        body,
        "loop_start_0:\ncmp byte [d + rbx], 0\nje loop_end_0\n\
         sub byte [d + rbx], 1\n\
         jmp loop_start_0\nloop_end_0:\n"
    );
}

#[test]
fn generate_nested_loop_labels_pair_innermost_first() {
    let body = generate_body(&canonical_of("[[]]")).unwrap();
    assert_eq!(
        body,
        "loop_start_0:\ncmp byte [d + rbx], 0\nje loop_end_0\n\
         loop_start_1:\ncmp byte [d + rbx], 0\nje loop_end_1\n\
         jmp loop_start_1\nloop_end_1:\n\
         jmp loop_start_0\nloop_end_0:\n"
    );
}

#[test]
fn generate_sequential_loops_count_up() {
    let body = generate_body(&canonical_of("[][]")).unwrap();
    assert_eq!(
        body,
        "loop_start_0:\ncmp byte [d + rbx], 0\nje loop_end_0\n\
         jmp loop_start_0\nloop_end_0:\n\
         loop_start_1:\ncmp byte [d + rbx], 0\nje loop_end_1\n\
         jmp loop_start_1\nloop_end_1:\n"
    );
}

#[test]
fn unmatched_end_loop_fails() {
    assert_eq!(generate_body(&canonical_of("]")), Err(CompileError::UnmatchedEndLoop));
    assert_eq!(compile_source("]", TEMPLATE), Err(CompileError::UnmatchedEndLoop));
    assert_eq!(compile_source("[]]", TEMPLATE), Err(CompileError::UnmatchedEndLoop));
}

#[test]
fn unmatched_begin_loop_fails() {
    assert_eq!(generate_body(&canonical_of("[")), Err(CompileError::UnmatchedBeginLoop));
    assert_eq!(compile_source("[[]", TEMPLATE), Err(CompileError::UnmatchedBeginLoop));
}

#[test]
fn missing_markers_are_invalid_boilerplate() {
    assert_eq!(compile_source("+", "no markers at all"), Err(CompileError::InvalidBoilerplate));
    assert_eq!(
        compile_source("+", "tape=<CALCULATED_TAPE_LENGTH>; but no code slot"),
        Err(CompileError::InvalidBoilerplate),
    );
    assert_eq!(
        compile_source("+", "code: <GENERATED_CODE_HERE> but no tape slot"),
        Err(CompileError::InvalidBoilerplate),
    );
}

#[test]
fn error_messages() {
    assert_eq!(CompileError::InvalidBoilerplate.message(), "Boilerplate code invalid");
    assert_eq!(CompileError::UnmatchedEndLoop.message(), "Unmatched ']'");
    assert_eq!(CompileError::UnmatchedBeginLoop.message(), "Unmatched '['");
}

#[test]
fn empty_source_round_trip() {
    assert_eq!(canonical_of(""), vec![]);
    let out = compile_source("", TEMPLATE).unwrap();
    assert_eq!(out, "head tape=1;\ntail\n");
}

#[test]
fn compile_worked_example() {
    let out = compile_source("++>+<", TEMPLATE).unwrap();
    assert_eq!(
        out,
        "head tape=2;\n\
         add byte [d + rbx], 2\n\
         add rbx, 1\n\
         add byte [d + rbx], 1\n\
         sub rbx, 1\n\
         tail\n"
    );
}

#[test]
fn render_substitutes_tape_length() {
    let canonical: Vec<SymbolCount> = vec![SymbolCount { symbol: Symbol::Out, count: 1 }];
    let out = render_asm(TEMPLATE, 42, &canonical).unwrap();
    assert_eq!(out, "head tape=42;\ncall print\ntail\n");
}

#[test]
fn compile_small_program() {
    let out = compile_source("+++[->+<].", TEMPLATE).unwrap();
    assert_eq!(
        out,
        "head tape=2;\n\
         add byte [d + rbx], 3\n\
         loop_start_0:\ncmp byte [d + rbx], 0\nje loop_end_0\n\
         sub byte [d + rbx], 1\n\
         add rbx, 1\n\
         add byte [d + rbx], 1\n\
         sub rbx, 1\n\
         jmp loop_start_0\nloop_end_0:\n\
         call print\n\
         tail\n"
    );
}
