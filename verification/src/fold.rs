//! The canonicalization pass: adjacent runs of the two mergeable canonical
//! symbols are collapsed arithmetically; every other entry is appended as is.

use vstd::prelude::*;
use vstd::math::abs;
use crate::symbols::{Run, Symbol, ReducedSymbolCount};

verus! {

/// The two canonical symbols whose adjacent runs the fold pass merges.
/// After reduction, backward movement and decrement only occur as negative
/// counts of these, so no other symbol ever needs merging.
pub open spec fn is_mergeable(s: Symbol) -> bool {
    s == Symbol::Right || s == Symbol::Incr
}

/// One step of the fold: merge the entry into the last emitted entry when
/// both carry the same mergeable symbol, append it otherwise.
pub open spec fn fold_step(acc: Seq<Run>, r: Run) -> Seq<Run> {
    if is_mergeable(r.sym) && acc.len() > 0 && acc.last().sym == r.sym {
        acc.update(acc.len() - 1, Run { sym: r.sym, count: acc.last().count + r.count })
    } else {
        acc.push(r)
    }
}

/// The fold pass run left to right from an accumulator.
pub open spec fn fold_runs_from(acc: Seq<Run>, s: Seq<Run>) -> Seq<Run>
    decreases s.len(),
{
    if s.len() == 0 {
        acc
    } else {
        fold_runs_from(fold_step(acc, s.first()), s.drop_first())
    }
}

/// The fold pass over a whole stream.
pub open spec fn fold_runs(s: Seq<Run>) -> Seq<Run> {
    fold_runs_from(Seq::empty(), s)
}

/// A stream is canonical when no two adjacent entries share a mergeable
/// symbol: such a stream has nothing left for the fold pass to do.
pub open spec fn is_canonical(s: Seq<Run>) -> bool {
    forall|i: int|
        0 <= i && i + 1 < s.len() ==> !(is_mergeable(#[trigger] s[i].sym) && s[i].sym == s[i
            + 1].sym)
}

/// The sum of the absolute counts of a stream: the budget that bounds every
/// intermediate count the fold pass can produce.
pub open spec fn sum_abs(s: Seq<Run>) -> int
    decreases s.len(),
{
    if s.len() == 0 {
        0
    } else {
        sum_abs(s.drop_last()) + abs(s.last().count)
    }
}

/// The sum of the signed counts of a stream: its net arithmetic effect.
pub open spec fn sum_counts(s: Seq<Run>) -> int
    decreases s.len(),
{
    if s.len() == 0 {
        0
    } else {
        sum_counts(s.drop_last()) + s.last().count
    }
}

pub proof fn lemma_sum_abs_nonneg(s: Seq<Run>)
    ensures
        sum_abs(s) >= 0,
    decreases s.len(),
{
    if s.len() > 0 {
        lemma_sum_abs_nonneg(s.drop_last());
    }
}

pub proof fn lemma_sum_abs_take_succ(s: Seq<Run>, i: int)
    requires
        0 <= i < s.len(),
    ensures
        sum_abs(s.take(i + 1)) == sum_abs(s.take(i)) + abs(s[i].count),
{
    assert(s.take(i + 1).drop_last() =~= s.take(i));
    assert(s.take(i + 1).last() == s[i]);
}

/// A prefix never exceeds the whole stream's budget.
pub proof fn lemma_sum_abs_take_le(s: Seq<Run>, i: int)
    requires
        0 <= i <= s.len(),
    ensures
        sum_abs(s.take(i)) <= sum_abs(s),
    decreases s.len() - i,
{
    if i == s.len() {
        assert(s.take(i) =~= s);
    } else {
        lemma_sum_abs_take_succ(s, i);
        lemma_sum_abs_take_le(s, i + 1);
    }
}

/// Every count in a stream is bounded by the stream's budget.
pub proof fn lemma_sum_abs_bounds_each(s: Seq<Run>)
    ensures
        forall|i: int| 0 <= i < s.len() ==> abs(#[trigger] s[i].count) <= sum_abs(s),
    decreases s.len(),
{
    if s.len() > 0 {
        lemma_sum_abs_bounds_each(s.drop_last());
        lemma_sum_abs_nonneg(s.drop_last());
        assert forall|i: int| 0 <= i < s.len() implies abs(#[trigger] s[i].count) <= sum_abs(
            s,
        ) by {
            if i < s.len() - 1 {
                assert(s.drop_last()[i] == s[i]);
            }
        }
    }
}

/// Processing one more entry at the tail of the input.
pub proof fn lemma_fold_from_push(acc: Seq<Run>, s: Seq<Run>, r: Run)
    ensures
        fold_runs_from(acc, s.push(r)) == fold_step(fold_runs_from(acc, s), r),
    decreases s.len(),
{
    if s.len() == 0 {
        assert(s.push(r).first() == r);
        assert(s.push(r).drop_first() =~= Seq::<Run>::empty());
        assert(fold_runs_from(fold_step(acc, r), Seq::<Run>::empty()) == fold_step(acc, r));
        assert(fold_runs_from(acc, s) == acc);
    } else {
        assert(s.push(r).first() == s.first());
        assert(s.push(r).drop_first() =~= s.drop_first().push(r));
        lemma_fold_from_push(fold_step(acc, s.first()), s.drop_first(), r);
    }
}

/// One fold step keeps the accumulator canonical.
proof fn lemma_fold_step_canonical(acc: Seq<Run>, r: Run)
    requires
        is_canonical(acc),
    ensures
        is_canonical(fold_step(acc, r)),
{
    if is_mergeable(r.sym) && acc.len() > 0 && acc.last().sym == r.sym {
        let u = fold_step(acc, r);
        assert forall|i: int|
            0 <= i && i + 1 < u.len() implies !(is_mergeable(#[trigger] u[i].sym) && u[i].sym
            == u[i + 1].sym) by {
            assert(u[i].sym == acc[i].sym);
            assert(u[i + 1].sym == acc[i + 1].sym);
        }
    }
}

/// The fold pass always yields a canonical stream.
pub proof fn lemma_fold_from_canonical(acc: Seq<Run>, s: Seq<Run>)
    requires
        is_canonical(acc),
    ensures
        is_canonical(fold_runs_from(acc, s)),
    decreases s.len(),
{
    if s.len() > 0 {
        lemma_fold_step_canonical(acc, s.first());
        lemma_fold_from_canonical(fold_step(acc, s.first()), s.drop_first());
    }
}

/// On a canonical continuation the fold pass only appends: it is the
/// identity beyond the accumulator.
pub proof fn lemma_fold_from_identity(acc: Seq<Run>, s: Seq<Run>)
    requires
        is_canonical(acc + s),
    ensures
        fold_runs_from(acc, s) == acc + s,
    decreases s.len(),
{
    if s.len() == 0 {
        assert(acc + s =~= acc);
    } else {
        let r = s.first();
        let whole = acc + s;
        if acc.len() > 0 {
            let i = acc.len() - 1;
            assert(whole[i].sym == acc.last().sym);
            assert(whole[i + 1].sym == r.sym);
            assert(!(is_mergeable(whole[i].sym) && whole[i].sym == whole[i + 1].sym));
        }
        assert(fold_step(acc, r) == acc.push(r));
        assert(acc.push(r) + s.drop_first() =~= acc + s);
        lemma_fold_from_identity(acc.push(r), s.drop_first());
    }
}

/// Folding an already-canonical stream is a no-op.
pub proof fn lemma_fold_canonical_identity(s: Seq<Run>)
    requires
        is_canonical(s),
    ensures
        fold_runs(s) == s,
{
    assert(Seq::<Run>::empty() + s =~= s);
    lemma_fold_from_identity(Seq::empty(), s);
}

/// Folding idempotence: applying the fold pass twice yields the same
/// canonical stream as applying it once.
pub proof fn lemma_fold_idempotent(s: Seq<Run>)
    ensures
        fold_runs(fold_runs(s)) == fold_runs(s),
{
    lemma_fold_from_canonical(Seq::empty(), s);
    lemma_fold_canonical_identity(fold_runs(s));
}

/// Entries that are not mergeable are never merged with a neighbor, even
/// one carrying the same symbol: on a stream of loop and I/O entries the
/// fold pass changes nothing.
pub proof fn lemma_fold_keeps_unmergeable_apart(s: Seq<Run>)
    requires
        forall|i: int| 0 <= i < s.len() ==> !is_mergeable((#[trigger] s[i]).sym),
    ensures
        fold_runs(s) == s,
{
    lemma_fold_canonical_identity(s);
}

/// Folding correctness for a uniform run: a sequence of entries that all
/// carry one mergeable symbol collapses to a single entry whose count is
/// the arithmetic sum of the counts.
pub proof fn lemma_fold_uniform_run(s: Seq<Run>, sym: Symbol)
    requires
        s.len() > 0,
        is_mergeable(sym),
        forall|i: int| 0 <= i < s.len() ==> (#[trigger] s[i]).sym == sym,
    ensures
        fold_runs(s) == seq![Run { sym: sym, count: sum_counts(s) }],
    decreases s.len(),
{
    let s0 = s.drop_last();
    let r = s.last();
    assert(s0.push(r) =~= s);
    lemma_fold_from_push(Seq::empty(), s0, r);
    if s0.len() == 0 {
        assert(fold_runs(s) == fold_step(fold_runs_from(Seq::empty(), s0), r));
        assert(fold_runs_from(Seq::empty(), s0) == Seq::<Run>::empty());
        assert(fold_runs(s) == Seq::<Run>::empty().push(r));
        assert(Seq::<Run>::empty().push(r) =~= seq![Run { sym: sym, count: sum_counts(s) }]);
    } else {
        lemma_fold_uniform_run(s0, sym);
        let folded0 = seq![Run { sym: sym, count: sum_counts(s0) }];
        assert(folded0.last().sym == sym);
        assert(fold_runs(s) == fold_step(folded0, r));
        assert(fold_step(folded0, r) =~= seq![Run { sym: sym, count: sum_counts(s) }]);
    }
}

/// The executable fold pass. The budget bound rules out overflow while
/// counts are added together.
pub fn fold_symbols(reduced_symbols: Vec<ReducedSymbolCount>) -> (out: Vec<ReducedSymbolCount>)
    requires
        sum_abs(reduced_symbols.deep_view()) <= isize::MAX as int,
    ensures
        out.deep_view() == fold_runs(reduced_symbols.deep_view()),
        sum_abs(out.deep_view()) <= sum_abs(reduced_symbols.deep_view()),
{
    let ghost input = reduced_symbols.deep_view();
    let mut collapsed: Vec<ReducedSymbolCount> = Vec::new();
    let n = reduced_symbols.len();
    let mut i: usize = 0;
    while i < n
        invariant
            i <= n,
            n == input.len(),
            input == reduced_symbols.deep_view(),
            sum_abs(input) <= isize::MAX as int,
            collapsed.deep_view() == fold_runs_from(Seq::empty(), input.take(i as int)),
            sum_abs(collapsed.deep_view()) <= sum_abs(input.take(i as int)),
        decreases n - i,
    {
        let sym = reduced_symbols[i];
        proof {
            assert(sym@ == input[i as int]);
            lemma_sum_abs_take_succ(input, i as int);
            lemma_sum_abs_take_le(input, i + 1);
            lemma_sum_abs_nonneg(input.take(i as int));
        }
        let ghost acc = collapsed.deep_view();
        let m = collapsed.len();
        let mergeable = match sym.symbol {
            Symbol::Right | Symbol::Incr => true,
            _ => false,
        };
        if mergeable && m > 0 && collapsed[m - 1].symbol == sym.symbol {
            let last = collapsed[m - 1];
            proof {
                assert(acc.last() == last@);
                assert(acc.drop_last().push(acc.last()) =~= acc);
                assert(sum_abs(acc) == sum_abs(acc.drop_last()) + abs(last@.count));
                lemma_sum_abs_nonneg(acc.drop_last());
            }
            let merged = ReducedSymbolCount {
                symbol: last.symbol,
                count: last.count + sym.count,
            };
            collapsed[m - 1] = merged;
            proof {
                assert(collapsed.deep_view() =~= acc.update(
                    acc.len() - 1,
                    Run { sym: sym@.sym, count: acc.last().count + sym@.count },
                ));
                assert(collapsed.deep_view() == fold_step(acc, input[i as int]));
                assert(collapsed.deep_view().drop_last() =~= acc.drop_last());
                assert(sum_abs(collapsed.deep_view()) == sum_abs(acc.drop_last()) + abs(
                    merged@.count,
                ));
            }
        } else {
            collapsed.push(sym);
            proof {
                assert(collapsed.deep_view() =~= acc.push(input[i as int]));
                assert(collapsed.deep_view() == fold_step(acc, input[i as int]));
                assert(collapsed.deep_view().drop_last() =~= acc);
                assert(sum_abs(collapsed.deep_view()) == sum_abs(acc) + abs(sym@.count));
            }
        }
        proof {
            assert(input.take(i as int).push(input[i as int]) =~= input.take(i + 1));
            lemma_fold_from_push(Seq::empty(), input.take(i as int), input[i as int]);
        }
        i = i + 1;
    }
    proof {
        assert(input.take(n as int) =~= input);
    }
    collapsed
}

} // verus!
