//! The whole translation pipeline: lex, reduce, fold, normalise, estimate
//! the tape, and render the assembly text.

use vstd::prelude::*;
use vstd::math::abs;
use crate::symbols::{Run, Symbol, SymbolCount, ReducedSymbolCount, reduce_run, normalise_run,
    flip};
use crate::lexer::{spec_lex, lex};
use crate::fold::{sum_abs, sum_counts, fold_runs, fold_symbols, lemma_sum_abs_bounds_each,
    is_mergeable, lemma_fold_uniform_run};
use crate::tape::{max_right_excursion, estimate_tape_size};
use crate::codegen::{CompileError, spec_render, render_asm, result_chars};

verus! {

/// Every entry put through the reduce conversion.
pub open spec fn reduce_all(s: Seq<Run>) -> Seq<Run> {
    s.map_values(|r: Run| reduce_run(r))
}

/// Every entry put through the normalise conversion.
pub open spec fn normalise_all(s: Seq<Run>) -> Seq<Run> {
    s.map_values(|r: Run| normalise_run(r))
}

/// The canonical stream of a source text: lexed, sign-folded, run-length
/// merged, and sign-normalised.
pub open spec fn spec_canonical(src: Seq<char>) -> Seq<Run> {
    normalise_all(fold_runs(reduce_all(spec_lex(src))))
}

/// The tape length estimated for a source text.
pub open spec fn spec_tape_len(src: Seq<char>) -> int {
    max_right_excursion(spec_canonical(src)) + 1
}

/// The full compiler at the spec level: the rendered assembly text, or
/// the error the source or template forces.
pub open spec fn spec_compile(src: Seq<char>, template: Seq<char>) -> Result<
    Seq<char>,
    CompileError,
> {
    spec_render(template, spec_tape_len(src) as nat, spec_canonical(src))
}

/// Lexed entries all carry count 1, so their budget is their number.
pub proof fn lemma_lex_sum_abs(s: Seq<char>)
    ensures
        0 <= sum_abs(spec_lex(s)) <= s.len(),
    decreases s.len(),
{
    if s.len() > 0 {
        lemma_lex_sum_abs(s.drop_last());
        let init = spec_lex(s.drop_last());
        if spec_lex(s).len() > init.len() {
            assert(spec_lex(s).drop_last() =~= init);
        }
    }
}

/// Reduction only moves signs around: the budget is unchanged.
pub proof fn lemma_reduce_sum_abs(s: Seq<Run>)
    ensures
        sum_abs(reduce_all(s)) == sum_abs(s),
    decreases s.len(),
{
    if s.len() > 0 {
        lemma_reduce_sum_abs(s.drop_last());
        assert(reduce_all(s).drop_last() =~= reduce_all(s.drop_last()));
        assert(reduce_all(s).last() == reduce_run(s.last()));
    }
}

/// Normalisation only moves signs around: the budget is unchanged.
pub proof fn lemma_normalise_sum_abs(s: Seq<Run>)
    ensures
        sum_abs(normalise_all(s)) == sum_abs(s),
    decreases s.len(),
{
    if s.len() > 0 {
        lemma_normalise_sum_abs(s.drop_last());
        assert(normalise_all(s).drop_last() =~= normalise_all(s.drop_last()));
        assert(normalise_all(s).last() == normalise_run(s.last()));
    }
}

/// The net count of a stretch made of one symbol and its paired opposite:
/// occurrences of the symbol count positively, of its opposite negatively.
pub open spec fn signed_net(s: Seq<Run>, sym: Symbol) -> int
    decreases s.len(),
{
    if s.len() == 0 {
        0
    } else {
        signed_net(s.drop_last(), sym) + (if s.last().sym == sym {
            s.last().count
        } else {
            -s.last().count
        })
    }
}

proof fn lemma_reduce_signed_net(s: Seq<Run>, sym: Symbol)
    requires
        is_mergeable(sym),
        forall|i: int|
            0 <= i < s.len() ==> ((#[trigger] s[i]).sym == sym || s[i].sym == flip(sym)),
    ensures
        sum_counts(reduce_all(s)) == signed_net(s, sym),
        forall|i: int| 0 <= i < reduce_all(s).len() ==> (#[trigger] reduce_all(s)[i]).sym
            == sym,
    decreases s.len(),
{
    if s.len() > 0 {
        lemma_reduce_signed_net(s.drop_last(), sym);
        assert(reduce_all(s).drop_last() =~= reduce_all(s.drop_last()));
        assert(reduce_all(s).last() == reduce_run(s.last()));
        assert(s.last() == s[s.len() - 1]);
    }
}

/// Folding correctness: a stretch of entries that all carry one mergeable
/// symbol or its paired opposite — forward and backward movement, or
/// increment and decrement, in any interleaving — collapses through the
/// reduce, fold and normalise passes to a single entry whose effect is
/// the arithmetic net of the stretch, sign-normalised onto the concrete
/// symbol pair.
pub proof fn lemma_fold_opposites_net(s: Seq<Run>, sym: Symbol)
    requires
        s.len() > 0,
        is_mergeable(sym),
        forall|i: int|
            0 <= i < s.len() ==> ((#[trigger] s[i]).sym == sym || s[i].sym == flip(sym)),
    ensures
        normalise_all(fold_runs(reduce_all(s))) == seq![
            normalise_run(Run { sym: sym, count: signed_net(s, sym) }),
        ],
{
    lemma_reduce_signed_net(s, sym);
    lemma_fold_uniform_run(reduce_all(s), sym);
    assert(normalise_all(seq![Run { sym: sym, count: signed_net(s, sym) }]) =~= seq![
        normalise_run(Run { sym: sym, count: signed_net(s, sym) }),
    ]);
}

/// Put every entry through the reduce conversion.
pub fn reduce_symbols(symbols: &Vec<SymbolCount>) -> (out: Vec<ReducedSymbolCount>)
    requires
        sum_abs(symbols.deep_view()) <= isize::MAX as int,
    ensures
        out.deep_view() == reduce_all(symbols.deep_view()),
{
    let ghost s = symbols.deep_view();
    proof {
        lemma_sum_abs_bounds_each(s);
    }
    let mut out: Vec<ReducedSymbolCount> = Vec::new();
    let n = symbols.len();
    let mut i: usize = 0;
    proof {
        assert(out.deep_view() =~= reduce_all(s.take(0)));
    }
    while i < n
        invariant
            i <= n,
            n == s.len(),
            s == symbols.deep_view(),
            sum_abs(s) <= isize::MAX as int,
            forall|k: int| 0 <= k < s.len() ==> abs((#[trigger] s[k]).count) <= sum_abs(s),
            out.deep_view() == reduce_all(s.take(i as int)),
        decreases n - i,
    {
        let sym = symbols[i];
        proof {
            assert(sym@ == s[i as int]);
            assert(abs(s[i as int].count) <= isize::MAX as int);
        }
        let ghost prev = out.deep_view();
        out.push(sym.reduce());
        proof {
            assert(out.deep_view() =~= prev.push(reduce_run(s[i as int])));
            assert(reduce_all(s.take(i + 1)) =~= reduce_all(s.take(i as int)).push(
                reduce_run(s[i as int]),
            ));
        }
        i = i + 1;
    }
    proof {
        assert(s.take(n as int) =~= s);
    }
    out
}

/// Put every entry through the normalise conversion, back to the
/// non-negative external form.
pub fn normalise_symbols(symbols: &Vec<ReducedSymbolCount>) -> (out: Vec<SymbolCount>)
    requires
        sum_abs(symbols.deep_view()) <= isize::MAX as int,
    ensures
        out.deep_view() == normalise_all(symbols.deep_view()),
        forall|k: int| 0 <= k < out.deep_view().len() ==> (#[trigger] out.deep_view()[k]).count
            >= 0,
{
    let ghost s = symbols.deep_view();
    proof {
        lemma_sum_abs_bounds_each(s);
    }
    let mut out: Vec<SymbolCount> = Vec::new();
    let n = symbols.len();
    let mut i: usize = 0;
    proof {
        assert(out.deep_view() =~= normalise_all(s.take(0)));
    }
    while i < n
        invariant
            i <= n,
            n == s.len(),
            s == symbols.deep_view(),
            sum_abs(s) <= isize::MAX as int,
            forall|k: int| 0 <= k < s.len() ==> abs((#[trigger] s[k]).count) <= sum_abs(s),
            out.deep_view() == normalise_all(s.take(i as int)),
            forall|k: int|
                0 <= k < out.deep_view().len() ==> (#[trigger] out.deep_view()[k]).count >= 0,
        decreases n - i,
    {
        let sym = symbols[i];
        proof {
            assert(sym@ == s[i as int]);
            assert(abs(s[i as int].count) <= isize::MAX as int);
        }
        let ghost prev = out.deep_view();
        out.push(sym.normalise());
        proof {
            assert(out.deep_view() =~= prev.push(normalise_run(s[i as int])));
            assert(normalise_all(s.take(i + 1)) =~= normalise_all(s.take(i as int)).push(
                normalise_run(s[i as int]),
            ));
        }
        i = i + 1;
    }
    proof {
        assert(s.take(n as int) =~= s);
    }
    out
}

/// Compile one source text against a boilerplate template: the complete
/// pipeline, from raw characters to the final assembly text or the error
/// the input forces. The length bound is a machine limit: it keeps every
/// folded count within the machine's signed range.
pub fn compile_source(src: &str, template: &str) -> (r: Result<String, CompileError>)
    requires
        src@.len() < isize::MAX as int,
    ensures
        result_chars(r) == spec_compile(src@, template@),
{
    let symbols = lex(src);
    proof {
        lemma_lex_sum_abs(src@);
    }
    let reduced = reduce_symbols(&symbols);
    proof {
        lemma_reduce_sum_abs(symbols.deep_view());
    }
    let folded = fold_symbols(reduced);
    let canonical = normalise_symbols(&folded);
    proof {
        lemma_normalise_sum_abs(folded.deep_view());
        assert(canonical.deep_view() == spec_canonical(src@));
    }
    let tape_length = estimate_tape_size(&canonical);
    let tape_usize = tape_length as usize;
    proof {
        assert(tape_usize as nat == spec_tape_len(src@) as nat);
    }
    render_asm(template, tape_usize, &canonical)
}

} // verus!
