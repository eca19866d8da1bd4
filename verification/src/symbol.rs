//! The model's alphabet and the fixed-width context windows built from it.

use vstd::prelude::*;

verus! {

/// One unit of the model's alphabet: a concrete character, or one of the
/// three structural sentinels.  Only `Char` values ever appear in generated
/// output; `Start`, `End` and `Null` are markers invisible to the caller.
#[derive(Clone, Copy, PartialEq, Eq, Structural, Debug)]
pub enum Symbol {
    /// Marks the position before the first character of a sequence.
    Start,
    /// Marks the position after the last character of a sequence.
    End,
    /// Pads a window that extends before the true start of a sequence.
    Null,
    /// A concrete character of the sequence.
    Char(char),
}

impl Symbol {
    /// The character carried by a `Char` symbol, and `None` for a sentinel.
    pub fn char(self) -> (r: Option<char>)
        ensures
            r == (match self {
                Symbol::Char(c) => Some(c),
                _ => None::<char>,
            }),
    {
        if let Symbol::Char(c) = self {
            Some(c)
        } else {
            None
        }
    }
}

/// The symbol that carries the character `c`.
pub open spec fn sym_of(c: char) -> Symbol {
    Symbol::Char(c)
}

/// Each character of `s` in order, as a `Char` symbol.
pub open spec fn chars_as_symbols(s: Seq<char>) -> Seq<Symbol>
    decreases s.len(),
{
    if s.len() == 0 {
        Seq::empty()
    } else {
        chars_as_symbols(s.drop_last()).push(sym_of(s.last()))
    }
}

/// The symbol sequence that a digested string contributes transitions over:
/// `Start`, then each character in order, then `End`.
pub open spec fn symbols_of(s: Seq<char>) -> Seq<Symbol> {
    seq![Symbol::Start] + chars_as_symbols(s) + seq![Symbol::End]
}

/// Relies on str::chars, which yields the characters of the string in
/// order: gathering them gives exactly the string's character sequence.
#[verifier::external_body]
fn chars_of(input: &str) -> (v: Vec<char>)
    ensures
        v@ == input@,
{
    let mut v = Vec::new();
    for c in input.chars() {
        v.push(c);
    }
    v
}

/// The symbol sequence of `input`: `Start`, its characters, `End`.
pub(crate) fn to_symbols(input: &str) -> (v: Vec<Symbol>)
    ensures
        v@ == symbols_of(input@),
        v@.len() == input@.len() + 2,
{
    let cs = chars_of(input);
    let mut v: Vec<Symbol> = Vec::new();
    v.push(Symbol::Start);
    let mut i: usize = 0;
    proof {
        assert(cs@.take(0) =~= Seq::<char>::empty());
        assert(v@ =~= seq![Symbol::Start] + chars_as_symbols(cs@.take(0)));
    }
    while i < cs.len()
        invariant
            cs@ == input@,
            0 <= i <= cs@.len(),
            v@ == seq![Symbol::Start] + chars_as_symbols(cs@.take(i as int)),
            chars_as_symbols(cs@.take(i as int)).len() == i,
        decreases cs@.len() - i,
    {
        let c = cs[i];
        v.push(Symbol::Char(c));
        proof {
            assert(cs@.take(i + 1).drop_last() =~= cs@.take(i as int));
            assert(cs@.take(i + 1).last() == c);
            assert(sym_of(c) == Symbol::Char(c));
            assert(chars_as_symbols(cs@.take(i + 1)) == chars_as_symbols(
                cs@.take(i as int),
            ).push(sym_of(c)));
            assert(v@ =~= seq![Symbol::Start] + chars_as_symbols(cs@.take(i + 1)));
        }
        i = i + 1;
    }
    proof {
        assert(cs@.take(cs@.len() as int) =~= cs@);
    }
    v.push(Symbol::End);
    proof {
        assert(v@ =~= symbols_of(input@));
    }
    v
}

/// The window of the last `n` symbols of `context`, left-padded with `Null`
/// when fewer than `n` symbols of real context exist.
pub open spec fn window_of(context: Seq<Symbol>, n: nat) -> Seq<Symbol> {
    if context.len() >= n {
        context.subrange(context.len() - n, context.len() as int)
    } else {
        Seq::new((n - context.len()) as nat, |i: int| Symbol::Null) + context
    }
}

/// The window used as the lookup key for position `i` of `syms`: the last
/// `n` symbols before `i`, padded as needed.
pub open spec fn window_before(syms: Seq<Symbol>, n: nat, i: int) -> Seq<Symbol> {
    window_of(syms.take(i), n)
}

/// A fixed-width ordered window of symbols, used as the lookup key for
/// transition statistics.  Two tokens are equal iff every position matches,
/// padding included.
#[derive(Clone, Debug)]
pub struct Token {
    symbols: Vec<Symbol>,
}

impl View for Token {
    type V = Seq<Symbol>;

    closed spec fn view(&self) -> Seq<Symbol> {
        self.symbols@
    }
}

impl Token {
    /// Builds the window of the last `n` symbols of `context[..end]`,
    /// left-padded with `Null` up to width `n`.
    pub fn new(context: &Vec<Symbol>, end: usize, n: usize) -> (t: Token)
        requires
            end <= context@.len(),
        ensures
            t@ == window_of(context@.take(end as int), n as nat),
            t@.len() == n,
    {
        let mut symbols: Vec<Symbol> = Vec::new();
        let pad = if end >= n {
            0
        } else {
            n - end
        };
        let mut j: usize = 0;
        while j < pad
            invariant
                j <= pad,
                pad <= n,
                symbols@ =~= Seq::new(j as nat, |i: int| Symbol::Null),
            decreases pad - j,
        {
            symbols.push(Symbol::Null);
            j += 1;
        }
        let start = end - (n - pad);
        let mut k: usize = start;
        while k < end
            invariant
                start <= k <= end,
                end <= context@.len(),
                symbols@ =~= Seq::new(pad as nat, |i: int| Symbol::Null) + context@.subrange(
                    start as int,
                    k as int,
                ),
            decreases end - k,
        {
            symbols.push(context[k]);
            k += 1;
        }
        proof {
            assert(symbols@ =~= window_of(context@.take(end as int), n as nat));
        }
        Token { symbols }
    }

    /// Whether two tokens hold the same window, position for position.
    pub fn same_window(&self, other: &Token) -> (r: bool)
        ensures
            r <==> self@ == other@,
    {
        if self.symbols.len() != other.symbols.len() {
            proof {
                assert(self@.len() != other@.len());
            }
            return false;
        }
        let mut i: usize = 0;
        while i < self.symbols.len()
            invariant
                i <= self.symbols@.len(),
                self.symbols@.len() == other.symbols@.len(),
                forall|j: int| 0 <= j < i ==> self.symbols@[j] == other.symbols@[j],
            decreases self.symbols@.len() - i,
        {
            if self.symbols[i] != other.symbols[i] {
                return false;
            }
            i += 1;
        }
        proof {
            assert(self@ =~= other@);
        }
        true
    }
}

} // verus!
