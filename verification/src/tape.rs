//! Tape-size estimation: a single static pass over the canonical stream
//! tracking the pointer's maximum rightward excursion.

use vstd::prelude::*;
use vstd::math::{abs, max};
use crate::symbols::{Run, Symbol, SymbolCount};
use crate::fold::{sum_abs, lemma_sum_abs_nonneg, lemma_sum_abs_take_succ, lemma_sum_abs_take_le};

verus! {

/// The pointer displacement an entry contributes: forward movement adds its
/// count, backward movement subtracts it, everything else moves nothing.
pub open spec fn move_delta(r: Run) -> int {
    if r.sym == Symbol::Right {
        r.count
    } else if r.sym == Symbol::Left {
        -r.count
    } else {
        0
    }
}

/// The pointer position after a stream, starting from cell 0.
pub open spec fn ptr_after(s: Seq<Run>) -> int
    decreases s.len(),
{
    if s.len() == 0 {
        0
    } else {
        ptr_after(s.drop_last()) + move_delta(s.last())
    }
}

/// The running maximum the estimator tracks: it is updated only after a
/// forward-movement entry, exactly as the pass walks the stream.
pub open spec fn max_right_excursion(s: Seq<Run>) -> int
    decreases s.len(),
{
    if s.len() == 0 {
        0
    } else {
        let m = max_right_excursion(s.drop_last());
        if s.last().sym == Symbol::Right {
            max(m, ptr_after(s))
        } else {
            m
        }
    }
}

/// The maximum over all prefixes of the pointer position.
pub open spec fn prefix_max(s: Seq<Run>) -> int
    decreases s.len(),
{
    if s.len() == 0 {
        0
    } else {
        max(prefix_max(s.drop_last()), ptr_after(s))
    }
}

/// Tightness of the estimate: for a stream of non-negative counts — which
/// every canonical stream has — the tracked maximum equals the maximum
/// prefix sum of the signed movement contributions.
pub proof fn lemma_estimate_is_max_prefix(s: Seq<Run>)
    requires
        forall|i: int| 0 <= i < s.len() ==> (#[trigger] s[i]).count >= 0,
    ensures
        max_right_excursion(s) == prefix_max(s),
    decreases s.len(),
{
    if s.len() > 0 {
        let s0 = s.drop_last();
        assert(forall|i: int| 0 <= i < s0.len() ==> (#[trigger] s0[i]).count >= 0);
        lemma_estimate_is_max_prefix(s0);
        if s.last().sym == Symbol::Right {
        } else {
            assert(s.last() == s[s.len() - 1]);
            assert(move_delta(s.last()) <= 0);
            lemma_prefix_max_ge_ptr(s0);
        }
    }
}

/// The pointer position after a stream never exceeds the prefix maximum.
proof fn lemma_prefix_max_ge_ptr(s: Seq<Run>)
    ensures
        ptr_after(s) <= prefix_max(s),
        0 <= prefix_max(s),
    decreases s.len(),
{
    if s.len() > 0 {
        lemma_prefix_max_ge_ptr(s.drop_last());
    }
}

/// Simulate the pointer-moving entries of the canonical stream and return
/// the minimum tape length that covers the highest visited offset: one more
/// than the maximum rightward excursion, and at least 1.
pub fn estimate_tape_size(symbols: &Vec<SymbolCount>) -> (r: isize)
    requires
        sum_abs(symbols.deep_view()) < isize::MAX as int,
    ensures
        r as int == max_right_excursion(symbols.deep_view()) + 1,
        r >= 1,
{
    let ghost s = symbols.deep_view();
    let mut ptr: isize = 0;
    let mut max_ptr: isize = 0;
    let n = symbols.len();
    let mut i: usize = 0;
    proof {
        assert(s.take(0) =~= Seq::<Run>::empty());
        lemma_sum_abs_nonneg(s);
    }
    while i < n
        invariant
            i <= n,
            n == s.len(),
            s == symbols.deep_view(),
            sum_abs(s) < isize::MAX as int,
            ptr as int == ptr_after(s.take(i as int)),
            max_ptr as int == max_right_excursion(s.take(i as int)),
            -sum_abs(s.take(i as int)) <= ptr as int <= sum_abs(s.take(i as int)),
            0 <= max_ptr as int <= sum_abs(s.take(i as int)),
            sum_abs(s.take(i as int)) <= sum_abs(s),
        decreases n - i,
    {
        let sym = symbols[i];
        proof {
            assert(sym@ == s[i as int]);
            lemma_sum_abs_take_succ(s, i as int);
            lemma_sum_abs_take_le(s, i + 1);
            assert(s.take(i + 1).drop_last() =~= s.take(i as int));
            assert(s.take(i + 1).last() == s[i as int]);
            assert(abs(s[i as int].count) >= 0);
        }
        match sym.symbol {
            Symbol::Right => {
                ptr = ptr + sym.count;
                if ptr > max_ptr {
                    max_ptr = ptr;
                }
            },
            Symbol::Left => {
                ptr = ptr - sym.count;
            },
            _ => {},
        }
        i = i + 1;
    }
    proof {
        assert(s.take(n as int) =~= s);
    }
    max_ptr + 1
}

} // verus!
