//! Lexical filtering: every recognized glyph becomes a single-count entry,
//! every other character is a comment and is discarded.

use vstd::prelude::*;
use vstd::string::StrSliceExecFns;
use crate::symbols::{Run, Symbol, SymbolCount, symbol_of_char};

verus! {

/// The entries the lexer owes for a character sequence: one count-1 entry
/// per recognized glyph, in source order, nothing for any other character.
pub open spec fn spec_lex(s: Seq<char>) -> Seq<Run>
    decreases s.len(),
{
    if s.len() == 0 {
        Seq::empty()
    } else {
        let init = spec_lex(s.drop_last());
        match symbol_of_char(s.last()) {
            Some(sym) => init.push(Run { sym: sym, count: 1 }),
            None => init,
        }
    }
}

/// The number of recognized glyphs in a character sequence.
pub open spec fn glyph_count(s: Seq<char>) -> nat
    decreases s.len(),
{
    if s.len() == 0 {
        0
    } else {
        glyph_count(s.drop_last()) + (if symbol_of_char(s.last()) is Some {
            1nat
        } else {
            0nat
        })
    }
}

/// Lexing is a pure filter: it yields exactly one entry per recognized
/// glyph, each with count 1.
pub proof fn lemma_lex_counts(s: Seq<char>)
    ensures
        spec_lex(s).len() == glyph_count(s),
        forall|i: int| 0 <= i < spec_lex(s).len() ==> (#[trigger] spec_lex(s)[i]).count == 1,
    decreases s.len(),
{
    if s.len() > 0 {
        lemma_lex_counts(s.drop_last());
    }
}

/// Lexing distributes over concatenation.
pub proof fn lemma_lex_append(a: Seq<char>, b: Seq<char>)
    ensures
        spec_lex(a + b) == spec_lex(a) + spec_lex(b),
    decreases b.len(),
{
    if b.len() == 0 {
        assert(a + b =~= a);
        assert(spec_lex(a) + spec_lex(b) =~= spec_lex(a));
    } else {
        lemma_lex_append(a, b.drop_last());
        assert((a + b).drop_last() =~= a + b.drop_last());
        assert((a + b).last() == b.last());
        match symbol_of_char(b.last()) {
            Some(sym) => {
                assert(spec_lex(a) + spec_lex(b.drop_last()).push(Run { sym: sym, count: 1 })
                    =~= (spec_lex(a) + spec_lex(b.drop_last())).push(Run { sym: sym, count: 1 }));
            },
            None => {},
        }
    }
}

/// The lexer's output does not depend on interleaved comment characters:
/// inserting a non-glyph character anywhere leaves the output unchanged.
pub proof fn lemma_lex_skips_comments(a: Seq<char>, c: char, b: Seq<char>)
    requires
        symbol_of_char(c) is None,
    ensures
        spec_lex(a + seq![c] + b) == spec_lex(a + b),
{
    lemma_lex_append(a + seq![c], b);
    lemma_lex_append(a, seq![c]);
    lemma_lex_append(a, b);
    assert(seq![c].drop_last() =~= Seq::<char>::empty());
    assert(seq![c].last() == c);
    assert(spec_lex(Seq::<char>::empty()) =~= Seq::<Run>::empty());
    assert(spec_lex(seq![c]) =~= Seq::<Run>::empty());
    assert(spec_lex(a) + spec_lex(seq![c]) =~= spec_lex(a));
}

/// Filter the source text down to the recognized glyphs, one count-1 entry
/// per glyph, in source order.
pub fn lex(src: &str) -> (out: Vec<SymbolCount>)
    ensures
        out.deep_view() == spec_lex(src@),
{
    let n = src.unicode_len();
    let mut out: Vec<SymbolCount> = Vec::new();
    let mut i: usize = 0;
    while i < n
        invariant
            i <= n,
            n == src@.len(),
            out.deep_view() == spec_lex(src@.take(i as int)),
        decreases n - i,
    {
        let c = src.get_char(i);
        let ghost prev = out.deep_view();
        match Symbol::get(c) {
            Some(sym) => {
                out.push(SymbolCount::new(sym));
                proof {
                    assert(out.deep_view() =~= prev.push(
                        Run { sym: symbol_of_char(src@[i as int]).unwrap(), count: 1 },
                    ));
                }
            },
            None => {},
        }
        proof {
            assert(src@.take(i + 1).drop_last() =~= src@.take(i as int));
            assert(src@.take(i + 1).last() == src@[i as int]);
        }
        i = i + 1;
    }
    proof {
        assert(src@.take(n as int) =~= src@);
    }
    out
}

} // verus!
