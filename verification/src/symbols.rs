//! The eight instruction symbols and their counted-run representations.

use vstd::prelude::*;

verus! {

/// One of the eight primitive instruction tags of the source language.
#[derive(Clone, Copy, PartialEq, Eq, Debug, Structural)]
pub enum Symbol {
    Right,
    Left,
    Incr,
    Decr,
    Out,
    In,
    StartLoop,
    EndLoop,
}

/// Mathematical model of a counted entry: `count` consecutive applications
/// of `sym`. The count is a plain integer so that the signed, reduced form
/// and the non-negative, normalised form share one model.
pub ghost struct Run {
    pub sym: Symbol,
    pub count: int,
}

/// The source glyph that a symbol stands for.
pub open spec fn char_of(s: Symbol) -> char {
    match s {
        Symbol::Right => '>',
        Symbol::Left => '<',
        Symbol::Incr => '+',
        Symbol::Decr => '-',
        Symbol::Out => '.',
        Symbol::In => ',',
        Symbol::StartLoop => '[',
        Symbol::EndLoop => ']',
    }
}

/// The symbol a glyph stands for; `None` for every other character,
/// which the lexer treats as a comment.
pub open spec fn symbol_of_char(c: char) -> Option<Symbol> {
    if c == '>' {
        Some(Symbol::Right)
    } else if c == '<' {
        Some(Symbol::Left)
    } else if c == '+' {
        Some(Symbol::Incr)
    } else if c == '-' {
        Some(Symbol::Decr)
    } else if c == '.' {
        Some(Symbol::Out)
    } else if c == ',' {
        Some(Symbol::In)
    } else if c == '[' {
        Some(Symbol::StartLoop)
    } else if c == ']' {
        Some(Symbol::EndLoop)
    } else {
        None
    }
}

/// The paired opposite of a movement or arithmetic symbol; identity on the
/// loop and I/O symbols, which never acquire negative counts.
pub open spec fn flip(s: Symbol) -> Symbol {
    match s {
        Symbol::Right => Symbol::Left,
        Symbol::Left => Symbol::Right,
        Symbol::Incr => Symbol::Decr,
        Symbol::Decr => Symbol::Incr,
        other => other,
    }
}

/// Sign-folding: backward movement and decrement become negative counts of
/// forward movement and increment; the other six symbols are unchanged.
pub open spec fn reduce_run(r: Run) -> Run {
    if r.sym == Symbol::Left {
        Run { sym: Symbol::Right, count: -r.count }
    } else if r.sym == Symbol::Decr {
        Run { sym: Symbol::Incr, count: -r.count }
    } else {
        r
    }
}

/// Sign-normalisation: identity on a non-negative count; a negative count
/// flips the symbol to its paired opposite and takes the absolute value.
pub open spec fn normalise_run(r: Run) -> Run {
    if r.count >= 0 {
        r
    } else {
        Run { sym: flip(r.sym), count: -r.count }
    }
}

impl Symbol {
    /// The glyph this symbol stands for.
    pub fn as_char(self) -> (c: char)
        ensures
            c == char_of(self),
    {
        match self {
            Symbol::Right => '>',
            Symbol::Left => '<',
            Symbol::Incr => '+',
            Symbol::Decr => '-',
            Symbol::Out => '.',
            Symbol::In => ',',
            Symbol::StartLoop => '[',
            Symbol::EndLoop => ']',
        }
    }

    /// The symbol a glyph stands for, or `None` for a comment character.
    pub fn get(c: char) -> (r: Option<Symbol>)
        ensures
            r == symbol_of_char(c),
    {
        match c {
            '>' => Some(Symbol::Right),
            '<' => Some(Symbol::Left),
            '+' => Some(Symbol::Incr),
            '-' => Some(Symbol::Decr),
            '.' => Some(Symbol::Out),
            ',' => Some(Symbol::In),
            '[' => Some(Symbol::StartLoop),
            ']' => Some(Symbol::EndLoop),
            _ => None,
        }
    }
}

/// A symbol with a non-negative repeat count: the external representation
/// before and after the fold pass.
#[derive(Clone, Copy, PartialEq, Eq, Debug, Structural)]
pub struct SymbolCount {
    pub symbol: Symbol,
    pub count: isize,
}

/// A symbol with a signed repeat count: the internal working representation
/// during folding.
#[derive(Clone, Copy, PartialEq, Eq, Debug, Structural)]
pub struct ReducedSymbolCount {
    pub symbol: Symbol,
    pub count: isize,
}

impl View for SymbolCount {
    type V = Run;

    open spec fn view(&self) -> Run {
        Run { sym: self.symbol, count: self.count as int }
    }
}

impl DeepView for SymbolCount {
    type V = Run;

    open spec fn deep_view(&self) -> Run {
        self@
    }
}

impl View for ReducedSymbolCount {
    type V = Run;

    open spec fn view(&self) -> Run {
        Run { sym: self.symbol, count: self.count as int }
    }
}

impl DeepView for ReducedSymbolCount {
    type V = Run;

    open spec fn deep_view(&self) -> Run {
        self@
    }
}

impl SymbolCount {
    /// A single occurrence of a symbol, as the lexer produces it.
    pub fn new(sym: Symbol) -> (r: Self)
        ensures
            r@ == (Run { sym: sym, count: 1int }),
    {
        SymbolCount { symbol: sym, count: 1 }
    }

    /// Sign-folding conversion into the reduced working form.
    pub fn reduce(self) -> (r: ReducedSymbolCount)
        requires
            self.count != isize::MIN,
        ensures
            r@ == reduce_run(self@),
    {
        match self.symbol {
            Symbol::Left => ReducedSymbolCount { symbol: Symbol::Right, count: -self.count },
            Symbol::Decr => ReducedSymbolCount { symbol: Symbol::Incr, count: -self.count },
            _ => ReducedSymbolCount { symbol: self.symbol, count: self.count },
        }
    }
}

impl ReducedSymbolCount {
    /// Sign-normalisation back to the non-negative external form.
    pub fn normalise(self) -> (r: SymbolCount)
        requires
            self.count != isize::MIN,
        ensures
            r@ == normalise_run(self@),
    {
        if self.count >= 0 {
            return SymbolCount { symbol: self.symbol, count: self.count };
        }

        let flipped_symbol = match self.symbol {
            Symbol::Left => Symbol::Right,
            Symbol::Right => Symbol::Left,
            Symbol::Incr => Symbol::Decr,
            Symbol::Decr => Symbol::Incr,
            other => other,
        };

        SymbolCount { symbol: flipped_symbol, count: -self.count }
    }
}

/// Reduction then normalisation preserves the semantic effect of an entry:
/// reducing the normalised form gives back the reduced form. Stated for the
/// non-negative counts that every entry carries before reduction.
pub proof fn lemma_reduce_normalise_effect(r: Run)
    requires
        r.count >= 0,
    ensures
        reduce_run(normalise_run(reduce_run(r))) == reduce_run(r),
{
}

} // verus!
