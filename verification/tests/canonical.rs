use bfc::symbols::{Symbol, SymbolCount, ReducedSymbolCount};
use bfc::lexer::lex;
use bfc::pipeline::{reduce_symbols, normalise_symbols};
use bfc::fold::fold_symbols;
use bfc::tape::estimate_tape_size;

fn canonical_of(src: &str) -> Vec<SymbolCount> {
    let symbols = lex(src);
    let reduced = reduce_symbols(&symbols);
    let folded = fold_symbols(reduced);
    normalise_symbols(&folded)
}

fn sc(symbol: Symbol, count: isize) -> SymbolCount {
    SymbolCount { symbol, count }
}

#[test]
fn lex_filters_comments() {
    let out = lex("a+b+ c>d");
    assert_eq!(out, vec![sc(Symbol::Incr, 1), sc(Symbol::Incr, 1), sc(Symbol::Right, 1)]);
}

#[test]
fn lex_worked_example() {
    let out = lex("++>+<");
    assert_eq!(
        out,
        vec![
            sc(Symbol::Incr, 1),
            sc(Symbol::Incr, 1),
            sc(Symbol::Right, 1),
            sc(Symbol::Incr, 1),
            sc(Symbol::Left, 1),
        ]
    );
}

#[test]
fn lex_empty_source() {
    assert_eq!(lex(""), vec![]);
    assert_eq!(lex("no instructions at all"), vec![]);
}

#[test]
fn lex_count_matches_glyph_count() {
    let with_comments = lex("+ comment . [more], <>");
    let bare = lex("+.[],<>");
    assert_eq!(with_comments.len(), 7);
    assert_eq!(with_comments, bare);
}

#[test]
fn symbol_glyph_round_trip() {
    for (c, sym) in [
        ('>', Symbol::Right),
        ('<', Symbol::Left),
        ('+', Symbol::Incr),
        ('-', Symbol::Decr),
        ('.', Symbol::Out),
        (',', Symbol::In),
        ('[', Symbol::StartLoop),
        (']', Symbol::EndLoop),
    ] {
        assert_eq!(Symbol::get(c), Some(sym));
        assert_eq!(sym.as_char(), c);
    }
    assert_eq!(Symbol::get('x'), None);
    assert_eq!(Symbol::get(' '), None);
}

#[test]
fn reduce_folds_signs() {
    let r = sc(Symbol::Left, 3).reduce();
    assert_eq!(r, ReducedSymbolCount { symbol: Symbol::Right, count: -3 });
    let r = sc(Symbol::Decr, 2).reduce();
    assert_eq!(r, ReducedSymbolCount { symbol: Symbol::Incr, count: -2 });
    let r = sc(Symbol::Out, 1).reduce();
    assert_eq!(r, ReducedSymbolCount { symbol: Symbol::Out, count: 1 });
}

#[test]
fn normalise_flips_negative_counts() {
    let n = ReducedSymbolCount { symbol: Symbol::Right, count: -3 }.normalise();
    assert_eq!(n, sc(Symbol::Left, 3));
    let n = ReducedSymbolCount { symbol: Symbol::Incr, count: -1 }.normalise();
    assert_eq!(n, sc(Symbol::Decr, 1));
    let n = ReducedSymbolCount { symbol: Symbol::Right, count: 4 }.normalise();
    assert_eq!(n, sc(Symbol::Right, 4));
    let n = ReducedSymbolCount { symbol: Symbol::Incr, count: 0 }.normalise();
    assert_eq!(n, sc(Symbol::Incr, 0));
}

#[test]
fn fold_worked_example() {
    let canonical = canonical_of("++>+<");
    assert_eq!(
        canonical,
        vec![
            sc(Symbol::Incr, 2),
            sc(Symbol::Right, 1),
            sc(Symbol::Incr, 1),
            sc(Symbol::Left, 1),
        ]
    );
}

#[test]
fn fold_is_idempotent_on_a_mixed_stream() {
    let reduced = reduce_symbols(&lex("++>><-->>[+.+]<<"));
    let once = fold_symbols(reduced);
    let twice = fold_symbols(once.clone());
    assert_eq!(twice, once);
}

#[test]
fn fold_keeps_output_entries_apart() {
    let canonical = canonical_of("..");
    assert_eq!(canonical, vec![sc(Symbol::Out, 1), sc(Symbol::Out, 1)]);
}

#[test]
fn fold_keeps_input_and_loop_entries_apart() {
    let canonical = canonical_of(",,");
    assert_eq!(canonical, vec![sc(Symbol::In, 1), sc(Symbol::In, 1)]);
    let canonical = canonical_of("[[");
    assert_eq!(canonical, vec![sc(Symbol::StartLoop, 1), sc(Symbol::StartLoop, 1)]);
}

#[test]
fn fold_movement_net_positive() {
    assert_eq!(canonical_of(">>><<"), vec![sc(Symbol::Right, 1)]);
}

#[test]
fn fold_movement_net_negative() {
    assert_eq!(canonical_of("<<<>"), vec![sc(Symbol::Left, 2)]);
}

#[test]
fn fold_arithmetic_net() {
    assert_eq!(canonical_of("++---"), vec![sc(Symbol::Decr, 1)]);
    assert_eq!(canonical_of("--+++"), vec![sc(Symbol::Incr, 1)]);
}

#[test]
fn fold_keeps_zero_count_residual() {
    assert_eq!(canonical_of("+-"), vec![sc(Symbol::Incr, 0)]);
}

#[test]
fn estimate_empty_stream_is_one() {
    let empty: Vec<SymbolCount> = vec![];
    assert_eq!(estimate_tape_size(&empty), 1);
}

#[test]
fn estimate_worked_example() {
    let canonical = canonical_of("++>+<");
    assert_eq!(estimate_tape_size(&canonical), 2);
}

#[test]
fn estimate_is_max_prefix_plus_one() {
    let stream = vec![sc(Symbol::Right, 3), sc(Symbol::Left, 2), sc(Symbol::Right, 1)];
    assert_eq!(estimate_tape_size(&stream), 4);
    let stream = vec![sc(Symbol::Left, 5)];
    assert_eq!(estimate_tape_size(&stream), 1);
}
