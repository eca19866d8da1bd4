//! Transition statistics and the Markov chain that owns them.
//!
//! The whole table is modelled as a multiset of observations, one
//! observation being a pair of a context window and the symbol that
//! followed it.  Digesting a string adds its observations, undigesting
//! subtracts them; the table owned by a well-formed chain always equals
//! the superposition of the observations of the strings currently held in
//! its history queue.

use vstd::prelude::*;
use vstd::multiset::Multiset;

use crate::rng::draw_in_range;
use crate::rng::fresh_rng;
use crate::symbol::sym_of;
use crate::symbol::symbols_of;
use crate::symbol::to_symbols;
use crate::symbol::window_before;
use crate::symbol::Symbol;
use crate::symbol::Token;

verus! {

/// One observation: a context window and the symbol that followed it.
pub type Obs = (Seq<Symbol>, Symbol);

/// Multiset holding `k` copies of the symbol `sym`.
pub open spec fn repeat_sym(sym: Symbol, k: nat) -> Multiset<Symbol>
    decreases k,
{
    if k == 0 {
        Multiset::empty()
    } else {
        repeat_sym(sym, (k - 1) as nat).insert(sym)
    }
}

/// The multiset of next-symbol observations described by a count list.
pub open spec fn counts_ms(s: Seq<(Symbol, usize)>) -> Multiset<Symbol>
    decreases s.len(),
{
    if s.len() == 0 {
        Multiset::empty()
    } else {
        counts_ms(s.drop_last()).add(repeat_sym(s.last().0, s.last().1 as nat))
    }
}

/// The number of copies of `x` that a count list describes.
pub open spec fn count_in(s: Seq<(Symbol, usize)>, x: Symbol) -> nat
    decreases s.len(),
{
    if s.len() == 0 {
        0
    } else {
        count_in(s.drop_last(), x) + if s.last().0 == x {
            s.last().1 as nat
        } else {
            0
        }
    }
}

/// The sum of all counts in a count list.
pub open spec fn sum_counts(s: Seq<(Symbol, usize)>) -> nat
    decreases s.len(),
{
    if s.len() == 0 {
        0
    } else {
        sum_counts(s.drop_last()) + s.last().1 as nat
    }
}

/// No two positions of the count list name the same symbol.
pub open spec fn unique_symbols(s: Seq<(Symbol, usize)>) -> bool {
    forall|i: int, j: int| 0 <= i < j < s.len() ==> s[i].0 != s[j].0
}

proof fn lemma_repeat_sym_count(sym: Symbol, k: nat, x: Symbol)
    ensures
        repeat_sym(sym, k).count(x) == if x == sym {
            k
        } else {
            0
        },
    decreases k,
{
    if k > 0 {
        lemma_repeat_sym_count(sym, (k - 1) as nat, x);
    }
}

proof fn lemma_repeat_sym_len(sym: Symbol, k: nat)
    ensures
        repeat_sym(sym, k).len() == k,
    decreases k,
{
    if k > 0 {
        lemma_repeat_sym_len(sym, (k - 1) as nat);
    }
}

proof fn lemma_counts_ms_count(s: Seq<(Symbol, usize)>, x: Symbol)
    ensures
        counts_ms(s).count(x) == count_in(s, x),
    decreases s.len(),
{
    if s.len() > 0 {
        lemma_counts_ms_count(s.drop_last(), x);
        lemma_repeat_sym_count(s.last().0, s.last().1 as nat, x);
    }
}

proof fn lemma_counts_ms_len(s: Seq<(Symbol, usize)>)
    ensures
        counts_ms(s).len() == sum_counts(s),
    decreases s.len(),
{
    if s.len() > 0 {
        lemma_counts_ms_len(s.drop_last());
        lemma_repeat_sym_len(s.last().0, s.last().1 as nat);
    }
}

proof fn lemma_count_in_absent(s: Seq<(Symbol, usize)>, x: Symbol)
    requires
        forall|i: int| 0 <= i < s.len() ==> (#[trigger] s[i]).0 != x,
    ensures
        count_in(s, x) == 0,
    decreases s.len(),
{
    if s.len() > 0 {
        lemma_count_in_absent(s.drop_last(), x);
    }
}

proof fn lemma_count_in_at(s: Seq<(Symbol, usize)>, i: int)
    requires
        unique_symbols(s),
        0 <= i < s.len(),
    ensures
        count_in(s, s[i].0) == s[i].1,
    decreases s.len(),
{
    if i == s.len() - 1 {
        assert(forall|j: int|
            0 <= j < s.drop_last().len() ==> (#[trigger] s.drop_last()[j]).0 != s[i].0);
        lemma_count_in_absent(s.drop_last(), s[i].0);
    } else {
        lemma_count_in_at(s.drop_last(), i);
    }
}

proof fn lemma_count_in_remove(s: Seq<(Symbol, usize)>, i: int, x: Symbol)
    requires
        0 <= i < s.len(),
    ensures
        count_in(s.remove(i), x) + (if s[i].0 == x {
            s[i].1 as nat
        } else {
            0
        }) == count_in(s, x),
    decreases s.len(),
{
    if i == s.len() - 1 {
        assert(s.remove(i) =~= s.drop_last());
    } else {
        assert(s.remove(i).drop_last() =~= s.drop_last().remove(i));
        assert(s.remove(i).last() == s.last());
        lemma_count_in_remove(s.drop_last(), i, x);
    }
}

proof fn lemma_count_in_push(s: Seq<(Symbol, usize)>, p: (Symbol, usize), x: Symbol)
    ensures
        count_in(s.push(p), x) == count_in(s, x) + (if p.0 == x {
            p.1 as nat
        } else {
            0
        }),
{
    assert(s.push(p).drop_last() =~= s);
}

proof fn lemma_sum_counts_take_step(s: Seq<(Symbol, usize)>, i: int)
    requires
        0 <= i < s.len(),
    ensures
        sum_counts(s.take(i + 1)) == sum_counts(s.take(i)) + s[i].1,
{
    assert(s.take(i + 1).drop_last() =~= s.take(i));
    assert(s.take(i + 1).last() == s[i]);
}

/// The symbol selected from the count list `s` by the draw `w`: counts
/// are subtracted from `w` in storage order, and the first symbol whose
/// count brings the running value to zero or below is chosen.
pub open spec fn picked(s: Seq<(Symbol, usize)>, w: int) -> Symbol
    decreases s.len(),
{
    if s.len() == 0 {
        Symbol::Null
    } else if w <= s.first().1 {
        s.first().0
    } else {
        picked(s.drop_first(), w - s.first().1)
    }
}

/// For a given token, the multiset of next-symbol observations with
/// per-symbol counts and a running total, supporting weighted sampling
/// proportional to observed frequency.
pub struct MarkovEntry {
    total: usize,
    counts: Vec<(Symbol, usize)>,
}

impl View for MarkovEntry {
    type V = Multiset<Symbol>;

    closed spec fn view(&self) -> Multiset<Symbol> {
        counts_ms(self.counts@)
    }
}

impl MarkovEntry {
    /// Every stored count is at least one, no symbol is stored twice, and
    /// `total` equals the sum of all stored counts.
    pub closed spec fn wf(&self) -> bool {
        &&& forall|i: int| 0 <= i < self.counts@.len() ==> (#[trigger] self.counts@[i]).1 >= 1
        &&& unique_symbols(self.counts@)
        &&& self.total as nat == counts_ms(self.counts@).len()
    }

    /// The stored (symbol, count) pairs, in the entry's own storage order:
    /// the order that weighted sampling walks.
    pub closed spec fn stored_counts(&self) -> Seq<(Symbol, usize)> {
        self.counts@
    }

    /// An entry with no observations.
    pub fn new() -> (e: MarkovEntry)
        ensures
            e.wf(),
            e@ == Multiset::<Symbol>::empty(),
    {
        MarkovEntry { total: 0, counts: Vec::new() }
    }

    /// How many observations the entry holds in all.
    pub fn total(&self) -> (t: usize)
        requires
            self.wf(),
        ensures
            t == self@.len(),
    {
        self.total
    }

    /// How often `symbol` has been observed.
    pub fn count(&self, symbol: Symbol) -> (c: usize)
        requires
            self.wf(),
        ensures
            c == self@.count(symbol),
    {
        match find_symbol(&self.counts, symbol) {
            Some(i) => {
                proof {
                    lemma_count_in_at(self.counts@, i as int);
                    lemma_counts_ms_count(self.counts@, symbol);
                }
                self.counts[i].1
            },
            None => {
                proof {
                    lemma_count_in_absent(self.counts@, symbol);
                    lemma_counts_ms_count(self.counts@, symbol);
                }
                0
            },
        }
    }

    /// Records one more observation of `symbol`.
    pub fn insert(&mut self, symbol: Symbol)
        requires
            old(self).wf(),
            old(self)@.len() < usize::MAX,
        ensures
            final(self).wf(),
            final(self)@ == old(self)@.insert(symbol),
    {
        proof {
            assert(self.total as nat == self@.len());
        }
        match find_symbol(&self.counts, symbol) {
            Some(i) => {
                proof {
                    lemma_count_in_at(self.counts@, i as int);
                    lemma_counts_ms_count(self.counts@, symbol);
                    vstd::multiset::axiom_count_le_len(self@, symbol);
                }
                let pair = self.counts.remove(i);
                self.counts.push((symbol, pair.1 + 1));
                self.total = self.total + 1;
                proof {
                    let s0 = old(self).counts@;
                    let s1 = self.counts@;
                    assert forall|x: Symbol|
                        counts_ms(s1).count(x) == old(self)@.insert(symbol).count(x) by {
                        lemma_counts_ms_count(s1, x);
                        lemma_counts_ms_count(s0, x);
                        lemma_count_in_remove(s0, i as int, x);
                        lemma_count_in_push(s0.remove(i as int), (symbol, (pair.1 + 1) as usize), x);
                    }
                    assert(self@ =~= old(self)@.insert(symbol));
                    assert forall|a: int, b: int| 0 <= a < b < s1.len() implies s1[a].0 != s1[b].0 by {
                        if b == s1.len() - 1 {
                            assert(s1[a] == s0.remove(i as int)[a]);
                        }
                    }
                }
            },
            None => {
                self.counts.push((symbol, 1));
                self.total = self.total + 1;
                proof {
                    let s0 = old(self).counts@;
                    let s1 = self.counts@;
                    assert forall|x: Symbol|
                        counts_ms(s1).count(x) == old(self)@.insert(symbol).count(x) by {
                        lemma_counts_ms_count(s1, x);
                        lemma_counts_ms_count(s0, x);
                        lemma_count_in_push(s0, (symbol, 1usize), x);
                    }
                    assert(self@ =~= old(self)@.insert(symbol));
                }
            },
        }
    }

    /// Forgets one observation of `symbol`.  If the symbol was never
    /// observed this is a no-op; a count never drops below zero, and a
    /// symbol whose last observation goes is removed entirely.
    pub fn remove(&mut self, symbol: Symbol)
        requires
            old(self).wf(),
        ensures
            final(self).wf(),
            final(self)@ == old(self)@.remove(symbol),
    {
        match find_symbol(&self.counts, symbol) {
            Some(i) => {
                proof {
                    lemma_count_in_at(self.counts@, i as int);
                    lemma_counts_ms_count(self.counts@, symbol);
                    vstd::multiset::axiom_count_le_len(self@, symbol);
                }
                let pair = self.counts.remove(i);
                if pair.1 > 1 {
                    self.counts.push((symbol, pair.1 - 1));
                }
                self.total = self.total - 1;
                proof {
                    let s0 = old(self).counts@;
                    let s1 = self.counts@;
                    assert forall|x: Symbol|
                        counts_ms(s1).count(x) == old(self)@.remove(symbol).count(x) by {
                        lemma_counts_ms_count(s1, x);
                        lemma_counts_ms_count(s0, x);
                        lemma_count_in_remove(s0, i as int, x);
                        if pair.1 > 1 {
                            lemma_count_in_push(
                                s0.remove(i as int),
                                (symbol, (pair.1 - 1) as usize),
                                x,
                            );
                        }
                    }
                    assert(self@ =~= old(self)@.remove(symbol));
                    assert forall|a: int, b: int| 0 <= a < b < s1.len() implies s1[a].0 != s1[b].0 by {
                        if pair.1 > 1 && b == s1.len() - 1 {
                            assert(s1[a] == s0.remove(i as int)[a]);
                        }
                    }
                    assert(old(self)@.count(symbol) >= 1);
                    assert(self@.len() == old(self)@.len() - 1) by {
                        assert(Multiset::singleton(symbol).subset_of(old(self)@));
                    }
                }
            },
            None => {
                proof {
                    lemma_count_in_absent(self.counts@, symbol);
                    lemma_counts_ms_count(self.counts@, symbol);
                    assert(self@ =~= self@.remove(symbol));
                }
            },
        }
    }

    /// The symbol chosen by the draw `w` out of `[1, total]`: counts are
    /// subtracted from `w` in storage order and the first symbol at which
    /// the running value drops to zero or below is returned.
    pub fn pick(&self, w: usize) -> (r: Symbol)
        requires
            self.wf(),
            1 <= w <= self@.len(),
        ensures
            self@.count(r) >= 1,
            r == picked(self.stored_counts(), w as int),
    {
        proof {
            lemma_counts_ms_len(self.counts@);
            assert(self.counts@.take(0) =~= Seq::<(Symbol, usize)>::empty());
            assert(self.counts@.skip(0) =~= self.counts@);
        }
        let mut rest = w;
        let mut i: usize = 0;
        while i < self.counts.len()
            invariant
                self.wf(),
                i <= self.counts@.len(),
                1 <= rest,
                rest + sum_counts(self.counts@.take(i as int)) == w,
                w <= sum_counts(self.counts@),
                picked(self.counts@.skip(i as int), rest as int) == picked(
                    self.counts@,
                    w as int,
                ),
            decreases self.counts@.len() - i,
        {
            let pair = self.counts[i];
            proof {
                lemma_sum_counts_take_step(self.counts@, i as int);
                assert(self.counts@.skip(i as int).first() == self.counts@[i as int]);
            }
            if rest <= pair.1 {
                proof {
                    lemma_count_in_at(self.counts@, i as int);
                    lemma_counts_ms_count(self.counts@, pair.0);
                    assert(picked(self.counts@.skip(i as int), rest as int) == pair.0);
                }
                return pair.0;
            }
            proof {
                assert(self.counts@.skip(i as int).drop_first() =~= self.counts@.skip(i + 1));
            }
            rest = rest - pair.1;
            i = i + 1;
        }
        proof {
            assert(self.counts@.take(self.counts@.len() as int) =~= self.counts@);
            assert(false);
        }
        Symbol::Null
    }

    /// A weighted random choice among the observed symbols, each drawn
    /// with probability proportional to its count: a uniform draw out of
    /// `[1, total]` is handed to `pick`, whose selection rule is exact.
    pub fn weighted_random(&self) -> (r: Symbol)
        requires
            self.wf(),
            self@.len() >= 1,
        ensures
            self@.count(r) >= 1,
            exists|w: int|
                1 <= w <= self@.len() && r == #[trigger] picked(self.stored_counts(), w),
    {
        let mut rng = fresh_rng();
        let w = draw_in_range(&mut rng, 1, self.total);
        let r = self.pick(w);
        proof {
            assert(r == picked(self.stored_counts(), w as int));
        }
        r
    }
}

/// The position of `symbol` in the count list, if it is present.
fn find_symbol(counts: &Vec<(Symbol, usize)>, symbol: Symbol) -> (r: Option<usize>)
    ensures
        match r {
            Some(i) => i < counts@.len() && counts@[i as int].0 == symbol,
            None => forall|j: int| 0 <= j < counts@.len() ==> (#[trigger] counts@[j]).0 != symbol,
        },
{
    let mut i: usize = 0;
    while i < counts.len()
        invariant
            i <= counts@.len(),
            forall|j: int| 0 <= j < i ==> (#[trigger] counts@[j]).0 != symbol,
        decreases counts@.len() - i,
    {
        if counts[i].0 == symbol {
            return Some(i);
        }
        i = i + 1;
    }
    None
}

/// Multiset holding `k` copies of the observation `(key, sym)`.
pub open spec fn repeat_obs(key: Seq<Symbol>, sym: Symbol, k: nat) -> Multiset<Obs>
    decreases k,
{
    if k == 0 {
        Multiset::empty()
    } else {
        repeat_obs(key, sym, (k - 1) as nat).insert((key, sym))
    }
}

/// The observations contributed by one count list under the window `key`.
pub open spec fn pair_obs(key: Seq<Symbol>, counts: Seq<(Symbol, usize)>) -> Multiset<Obs>
    decreases counts.len(),
{
    if counts.len() == 0 {
        Multiset::empty()
    } else {
        pair_obs(key, counts.drop_last()).add(
            repeat_obs(key, counts.last().0, counts.last().1 as nat),
        )
    }
}

/// The observations contributed by one table row.
spec fn row_obs(row: (Token, MarkovEntry)) -> Multiset<Obs> {
    pair_obs(row.0@, row.1.counts@)
}

/// The observations held by a whole table.
spec fn table_obs(rows: Seq<(Token, MarkovEntry)>) -> Multiset<Obs>
    decreases rows.len(),
{
    if rows.len() == 0 {
        Multiset::empty()
    } else {
        table_obs(rows.drop_last()).add(row_obs(rows.last()))
    }
}

/// No two table rows are keyed by the same window.
spec fn unique_keys(rows: Seq<(Token, MarkovEntry)>) -> bool {
    forall|i: int, j: int| 0 <= i < j < rows.len() ==> rows[i].0@ != rows[j].0@
}

/// Every row holds a well-formed, non-empty entry, and no window is
/// stored twice.
spec fn rows_inv(rows: Seq<(Token, MarkovEntry)>) -> bool {
    &&& forall|i: int| 0 <= i < rows.len() ==> (#[trigger] rows[i]).1.wf()
    &&& forall|i: int| 0 <= i < rows.len() ==> (#[trigger] rows[i]).1.counts@.len() >= 1
    &&& unique_keys(rows)
}

proof fn lemma_repeat_obs_count(key: Seq<Symbol>, sym: Symbol, k: nat, p: Obs)
    ensures
        repeat_obs(key, sym, k).count(p) == if p.0 == key && p.1 == sym {
            k
        } else {
            0
        },
    decreases k,
{
    if k > 0 {
        lemma_repeat_obs_count(key, sym, (k - 1) as nat, p);
    }
}

proof fn lemma_repeat_obs_len(key: Seq<Symbol>, sym: Symbol, k: nat)
    ensures
        repeat_obs(key, sym, k).len() == k,
    decreases k,
{
    if k > 0 {
        lemma_repeat_obs_len(key, sym, (k - 1) as nat);
    }
}

proof fn lemma_pair_obs_count(key: Seq<Symbol>, counts: Seq<(Symbol, usize)>, p: Obs)
    ensures
        pair_obs(key, counts).count(p) == if p.0 == key {
            count_in(counts, p.1)
        } else {
            0
        },
    decreases counts.len(),
{
    if counts.len() > 0 {
        lemma_pair_obs_count(key, counts.drop_last(), p);
        lemma_repeat_obs_count(key, counts.last().0, counts.last().1 as nat, p);
    }
}

proof fn lemma_pair_obs_len(key: Seq<Symbol>, counts: Seq<(Symbol, usize)>)
    ensures
        pair_obs(key, counts).len() == sum_counts(counts),
    decreases counts.len(),
{
    if counts.len() > 0 {
        lemma_pair_obs_len(key, counts.drop_last());
        lemma_repeat_obs_len(key, counts.last().0, counts.last().1 as nat);
    }
}

proof fn lemma_table_obs_remove(rows: Seq<(Token, MarkovEntry)>, i: int, p: Obs)
    requires
        0 <= i < rows.len(),
    ensures
        table_obs(rows.remove(i)).count(p) + row_obs(rows[i]).count(p) == table_obs(rows).count(
            p,
        ),
    decreases rows.len(),
{
    if i == rows.len() - 1 {
        assert(rows.remove(i) =~= rows.drop_last());
    } else {
        assert(rows.remove(i).drop_last() =~= rows.drop_last().remove(i));
        assert(rows.remove(i).last() == rows.last());
        lemma_table_obs_remove(rows.drop_last(), i, p);
    }
}

proof fn lemma_table_obs_push(rows: Seq<(Token, MarkovEntry)>, row: (Token, MarkovEntry), p: Obs)
    ensures
        table_obs(rows.push(row)).count(p) == table_obs(rows).count(p) + row_obs(row).count(p),
{
    assert(rows.push(row).drop_last() =~= rows);
}

proof fn lemma_table_obs_absent(rows: Seq<(Token, MarkovEntry)>, p: Obs)
    requires
        forall|j: int| 0 <= j < rows.len() ==> (#[trigger] rows[j]).0@ != p.0,
    ensures
        table_obs(rows).count(p) == 0,
    decreases rows.len(),
{
    if rows.len() > 0 {
        lemma_table_obs_absent(rows.drop_last(), p);
        lemma_pair_obs_count(rows.last().0@, rows.last().1.counts@, p);
    }
}

proof fn lemma_table_obs_at(rows: Seq<(Token, MarkovEntry)>, i: int, p: Obs)
    requires
        unique_keys(rows),
        0 <= i < rows.len(),
        rows[i].0@ == p.0,
    ensures
        table_obs(rows).count(p) == row_obs(rows[i]).count(p),
    decreases rows.len(),
{
    if i == rows.len() - 1 {
        assert(forall|j: int|
            0 <= j < rows.drop_last().len() ==> (#[trigger] rows.drop_last()[j]).0@ != p.0);
        lemma_table_obs_absent(rows.drop_last(), p);
    } else {
        lemma_table_obs_at(rows.drop_last(), i, p);
        lemma_pair_obs_count(rows.last().0@, rows.last().1.counts@, p);
    }
}

proof fn lemma_table_obs_len_ge(rows: Seq<(Token, MarkovEntry)>, i: int)
    requires
        0 <= i < rows.len(),
    ensures
        table_obs(rows).len() >= row_obs(rows[i]).len(),
    decreases rows.len(),
{
    if i < rows.len() - 1 {
        lemma_table_obs_len_ge(rows.drop_last(), i);
    }
}

/// How many observations a table holds for the window `key`, over all next
/// symbols: the running total of that window\'s entry.
pub open spec fn key_total(obs: Multiset<Obs>, key: Seq<Symbol>) -> nat {
    obs.filter(|p: Obs| p.0 == key).len()
}

/// The position of the row keyed by `token`, if the table holds one.
fn find_row(rows: &Vec<(Token, MarkovEntry)>, token: &Token) -> (r: Option<usize>)
    ensures
        match r {
            Some(i) => i < rows@.len() && rows@[i as int].0@ == token@,
            None => forall|j: int| 0 <= j < rows@.len() ==> (#[trigger] rows@[j]).0@ != token@,
        },
{
    let mut i: usize = 0;
    while i < rows.len()
        invariant
            i <= rows@.len(),
            forall|j: int| 0 <= j < i ==> (#[trigger] rows@[j]).0@ != token@,
        decreases rows@.len() - i,
    {
        if rows[i].0.same_window(token) {
            return Some(i);
        }
        i = i + 1;
    }
    None
}

/// The views of a queue of strings, oldest first.
spec fn views_of(h: Seq<String>) -> Seq<Seq<char>>
    decreases h.len(),
{
    if h.len() == 0 {
        Seq::empty()
    } else {
        views_of(h.drop_last()).push(h.last()@)
    }
}

proof fn lemma_views_of_len(h: Seq<String>)
    ensures
        views_of(h).len() == h.len(),
    decreases h.len(),
{
    if h.len() > 0 {
        lemma_views_of_len(h.drop_last());
    }
}

proof fn lemma_views_of_at(h: Seq<String>, i: int)
    requires
        0 <= i < h.len(),
    ensures
        views_of(h)[i] == h[i]@,
    decreases h.len(),
{
    lemma_views_of_len(h.drop_last());
    if i < h.len() - 1 {
        lemma_views_of_at(h.drop_last(), i);
        assert(h.drop_last()[i] == h[i]);
    }
}

/// The string-observation model: the symbol sequence of a digested string
/// contributes one observation per position, keyed by the window before it.
pub open spec fn obs_at(syms: Seq<Symbol>, n: nat, i: int) -> Obs {
    (window_before(syms, n, i), syms[i])
}

/// The observations contributed by positions `1 .. i` of `syms`.
pub open spec fn obs_upto(syms: Seq<Symbol>, n: nat, i: int) -> Multiset<Obs>
    decreases i,
{
    if i <= 1 {
        Multiset::empty()
    } else {
        obs_upto(syms, n, i - 1).insert(obs_at(syms, n, i - 1))
    }
}

/// All observations contributed by digesting the string `s` at order `n`.
pub open spec fn string_obs(s: Seq<char>, n: nat) -> Multiset<Obs> {
    obs_upto(symbols_of(s), n, symbols_of(s).len() as int)
}

/// The superposition of the observations of every string in `h`, in order.
pub open spec fn history_obs(h: Seq<Seq<char>>, n: nat) -> Multiset<Obs>
    decreases h.len(),
{
    if h.len() == 0 {
        Multiset::empty()
    } else {
        history_obs(h.drop_last(), n).add(string_obs(h.last(), n))
    }
}

proof fn lemma_history_obs_push(h: Seq<Seq<char>>, s: Seq<char>, n: nat)
    ensures
        history_obs(h.push(s), n) == history_obs(h, n).add(string_obs(s, n)),
{
    assert(h.push(s).drop_last() =~= h);
}

proof fn lemma_history_obs_first(h: Seq<Seq<char>>, n: nat)
    requires
        h.len() > 0,
    ensures
        history_obs(h, n) == string_obs(h[0], n).add(history_obs(h.drop_first(), n)),
    decreases h.len(),
{
    if h.len() == 1 {
        assert(h.drop_last() =~= Seq::<Seq<char>>::empty());
        assert(h.drop_first() =~= Seq::<Seq<char>>::empty());
        assert(h.last() == h[0]);
        assert(history_obs(h, n) =~= string_obs(h[0], n).add(history_obs(h.drop_first(), n)));
    } else {
        lemma_history_obs_first(h.drop_last(), n);
        assert(h.drop_last()[0] == h[0]);
        assert(h.drop_last().drop_first() =~= h.drop_first().drop_last());
        assert(h.drop_first().last() == h.last());
        assert(history_obs(h, n) =~= string_obs(h[0], n).add(history_obs(h.drop_first(), n)));
    }
}

/// A bounded, reversible, order-N Markov model: a table of transition
/// statistics keyed by context windows, together with a first-in-first-out
/// history of the raw strings whose observations the table currently holds.
pub struct MarkovChain {
    order: usize,
    cache_size: usize,
    obs_total: usize,
    rows: Vec<(Token, MarkovEntry)>,
    history: Vec<String>,
}

impl MarkovChain {
    /// The multiset of all observations the table currently holds.
    pub closed spec fn obs(&self) -> Multiset<Obs> {
        table_obs(self.rows@)
    }

    /// The strings currently held in the history queue, oldest first.
    pub closed spec fn hist(&self) -> Seq<Seq<char>> {
        views_of(self.history@)
    }

    /// The lookbehind order: how many preceding symbols form a window.
    pub closed spec fn order(&self) -> nat {
        self.order as nat
    }

    /// The retention bound: how many strings the history queue may hold.
    pub closed spec fn cache_limit(&self) -> nat {
        self.cache_size as nat
    }

    /// The structural invariant of the table alone.
    pub closed spec fn tbl_inv(&self) -> bool {
        &&& rows_inv(self.rows@)
        &&& self.order >= 1
        &&& self.cache_size >= 1
        &&& self.obs_total as nat == table_obs(self.rows@).len()
    }

    /// Full well-formedness: the table equals the superposition of the
    /// observations of exactly the strings in the history queue, and the
    /// queue respects the retention bound.
    pub open spec fn wf(&self) -> bool {
        &&& self.tbl_inv()
        &&& self.obs() == history_obs(self.hist(), self.order())
        &&& self.hist().len() <= self.cache_limit()
    }

    /// An empty chain with the default retention bound of 1000 strings.
    pub fn new(order: usize) -> (c: MarkovChain)
        requires
            order >= 1,
        ensures
            c.wf(),
            c.obs() == Multiset::<Obs>::empty(),
            c.hist() == Seq::<Seq<char>>::empty(),
            c.order() == order,
            c.cache_limit() == 1000,
    {
        Self::with_cache_size(order, 1000)
    }

    /// An empty chain that retains at most `cache_size` strings.
    pub fn with_cache_size(order: usize, cache_size: usize) -> (c: MarkovChain)
        requires
            order >= 1,
            cache_size >= 1,
        ensures
            c.wf(),
            c.obs() == Multiset::<Obs>::empty(),
            c.hist() == Seq::<Seq<char>>::empty(),
            c.order() == order,
            c.cache_limit() == cache_size,
    {
        let c = MarkovChain {
            order,
            cache_size,
            obs_total: 0,
            rows: Vec::new(),
            history: Vec::new(),
        };
        proof {
            assert(c.hist() =~= Seq::<Seq<char>>::empty());
        }
        c
    }

    /// The retention bound this chain was built with.
    pub fn cache_size(&self) -> (s: usize)
        ensures
            s == self.cache_limit(),
    {
        self.cache_size
    }

    /// How many observations the whole table currently holds.
    pub fn observation_count(&self) -> (n: usize)
        requires
            self.tbl_inv(),
        ensures
            n == self.obs().len(),
    {
        self.obs_total
    }

    /// How many strings the history queue currently holds.
    pub fn history_len(&self) -> (l: usize)
        ensures
            l == self.hist().len(),
    {
        proof {
            lemma_views_of_len(self.history@);
        }
        self.history.len()
    }

    /// The `i`-th oldest string in the history queue.
    pub fn history_at(&self, i: usize) -> (s: &String)
        requires
            i < self.hist().len(),
        ensures
            s@ == self.hist()[i as int],
    {
        proof {
            lemma_views_of_len(self.history@);
            lemma_views_of_at(self.history@, i as int);
        }
        &self.history[i]
    }

    /// Adds one observation of `symbol` after the window `token`.
    fn insert_obs(&mut self, token: Token, symbol: Symbol)
        requires
            old(self).tbl_inv(),
            old(self).obs().len() < usize::MAX,
        ensures
            final(self).tbl_inv(),
            final(self).obs() == old(self).obs().insert((token@, symbol)),
            final(self).history@ == old(self).history@,
            final(self).order == old(self).order,
            final(self).cache_size == old(self).cache_size,
    {
        let ghost rows0 = self.rows@;
        self.obs_total = self.obs_total + 1;
        match find_row(&self.rows, &token) {
            Some(i) => {
                proof {
                    lemma_counts_ms_len(rows0[i as int].1.counts@);
                    lemma_pair_obs_len(rows0[i as int].0@, rows0[i as int].1.counts@);
                    lemma_table_obs_len_ge(rows0, i as int);
                }
                let row = self.rows.remove(i);
                let tok = row.0;
                let mut ent = row.1;
                ent.insert(symbol);
                self.rows.push((tok, ent));
                proof {
                    let rows1 = self.rows@;
                    let key = rows0[i as int].0@;
                    let c0 = rows0[i as int].1.counts@;
                    let c1 = rows1.last().1.counts@;
                    assert(counts_ms(c1) == counts_ms(c0).insert(symbol));
                    assert forall|p: Obs|
                        table_obs(rows1).count(p) == old(self).obs().insert(
                            (token@, symbol),
                        ).count(p) by {
                        lemma_table_obs_remove(rows0, i as int, p);
                        lemma_table_obs_push(rows0.remove(i as int), rows1.last(), p);
                        lemma_pair_obs_count(key, c0, p);
                        lemma_pair_obs_count(key, c1, p);
                        lemma_counts_ms_count(c0, p.1);
                        lemma_counts_ms_count(c1, p.1);
                    }
                    assert(table_obs(rows1) =~= old(self).obs().insert((token@, symbol)));
                    assert(c1.len() >= 1) by {
                        if c1.len() == 0 {
                            assert(counts_ms(c1).len() == 0);
                            assert(counts_ms(c0).insert(symbol).len() >= 1);
                        }
                    }
                    assert forall|a: int, b: int|
                        0 <= a < b < rows1.len() implies rows1[a].0@ != rows1[b].0@ by {
                        if b == rows1.len() - 1 {
                            assert(rows1[a] == rows0.remove(i as int)[a]);
                        }
                    }
                }
            },
            None => {
                let mut ent = MarkovEntry::new();
                ent.insert(symbol);
                self.rows.push((token, ent));
                proof {
                    let rows1 = self.rows@;
                    let c1 = rows1.last().1.counts@;
                    assert(counts_ms(c1) == Multiset::<Symbol>::empty().insert(symbol));
                    assert forall|p: Obs|
                        table_obs(rows1).count(p) == old(self).obs().insert(
                            (token@, symbol),
                        ).count(p) by {
                        lemma_table_obs_push(rows0, rows1.last(), p);
                        lemma_pair_obs_count(token@, c1, p);
                        lemma_counts_ms_count(c1, p.1);
                        if p.0 == token@ && table_obs(rows0).count(p) != 0 {
                            lemma_table_obs_absent(rows0, p);
                        }
                    }
                    assert(table_obs(rows1) =~= old(self).obs().insert((token@, symbol)));
                    assert(c1.len() >= 1) by {
                        if c1.len() == 0 {
                            assert(counts_ms(c1).len() == 0);
                        }
                    }
                    assert forall|a: int, b: int|
                        0 <= a < b < rows1.len() implies rows1[a].0@ != rows1[b].0@ by {
                        if b == rows1.len() - 1 {
                            assert(rows1[b].0@ == token@);
                        }
                    }
                }
            },
        }
    }

    /// Forgets one observation of `symbol` after the window `token`.  If
    /// the table holds no such observation this is a no-op; a row whose
    /// last observation goes is pruned from the table.
    fn remove_obs(&mut self, token: &Token, symbol: Symbol)
        requires
            old(self).tbl_inv(),
        ensures
            final(self).tbl_inv(),
            final(self).obs() == old(self).obs().remove((token@, symbol)),
            final(self).history@ == old(self).history@,
            final(self).order == old(self).order,
            final(self).cache_size == old(self).cache_size,
    {
        let ghost rows0 = self.rows@;
        match find_row(&self.rows, token) {
            Some(i) => {
                let row = self.rows.remove(i);
                let tok = row.0;
                let mut ent = row.1;
                let ghost key = rows0[i as int].0@;
                let ghost c0 = rows0[i as int].1.counts@;
                let had = ent.count(symbol) > 0;
                ent.remove(symbol);
                let keep = ent.total() > 0;
                if keep {
                    self.rows.push((tok, ent));
                }
                proof {
                    lemma_table_obs_at(rows0, i as int, (token@, symbol));
                    lemma_pair_obs_count(key, c0, (token@, symbol));
                    lemma_counts_ms_count(c0, symbol);
                    vstd::multiset::axiom_count_le_len(old(self).obs(), (token@, symbol));
                }
                if had {
                    self.obs_total = self.obs_total - 1;
                }
                proof {
                    let rows1 = self.rows@;
                    let ghost c1 = ent.counts@;
                    assert(counts_ms(c1) == counts_ms(c0).remove(symbol));
                    if keep {
                        assert(c1.len() >= 1) by {
                            if c1.len() == 0 {
                                assert(counts_ms(c1).len() == 0);
                            }
                        }
                    }
                    assert forall|p: Obs|
                        table_obs(rows1).count(p) == old(self).obs().remove(
                            (token@, symbol),
                        ).count(p) by {
                        lemma_table_obs_remove(rows0, i as int, p);
                        lemma_pair_obs_count(key, c0, p);
                        lemma_pair_obs_count(key, c1, p);
                        lemma_counts_ms_count(c0, p.1);
                        lemma_counts_ms_count(c1, p.1);
                        if p.0 == key {
                            lemma_table_obs_at(rows0, i as int, p);
                        }
                        if keep {
                            lemma_table_obs_push(rows0.remove(i as int), (tok, ent), p);
                        }
                    }
                    assert(table_obs(rows1) =~= old(self).obs().remove((token@, symbol)));
                    if had {
                        assert(Multiset::singleton((token@, symbol)).subset_of(old(self).obs()));
                    } else {
                        assert(old(self).obs() =~= old(self).obs().remove((token@, symbol)));
                    }
                    assert forall|a: int, b: int|
                        0 <= a < b < rows1.len() implies rows1[a].0@ != rows1[b].0@ by {
                        if keep && b == rows1.len() - 1 {
                            assert(rows1[a] == rows0.remove(i as int)[a]);
                        }
                    }
                }
            },
            None => {
                proof {
                    lemma_table_obs_absent(rows0, (token@, symbol));
                    assert(old(self).obs() =~= old(self).obs().remove((token@, symbol)));
                }
            },
        }
    }

    /// How often the table has seen `next` follow the window `window`.
    pub fn count_of(&self, window: &Token, next: Symbol) -> (c: usize)
        requires
            self.tbl_inv(),
        ensures
            c == self.obs().count((window@, next)),
    {
        match find_row(&self.rows, window) {
            Some(i) => {
                proof {
                    lemma_table_obs_at(self.rows@, i as int, (window@, next));
                    lemma_pair_obs_count(
                        self.rows@[i as int].0@,
                        self.rows@[i as int].1.counts@,
                        (window@, next),
                    );
                    lemma_counts_ms_count(self.rows@[i as int].1.counts@, next);
                }
                self.rows[i].1.count(next)
            },
            None => {
                proof {
                    lemma_table_obs_absent(self.rows@, (window@, next));
                }
                0
            },
        }
    }

    /// The running total of the entry for `window`: how many observations
    /// the table holds for that window over all next symbols.
    pub fn total_of(&self, window: &Token) -> (t: usize)
        requires
            self.tbl_inv(),
        ensures
            t == key_total(self.obs(), window@),
    {
        let ghost f = |p: Obs| p.0 == window@;
        match find_row(&self.rows, window) {
            Some(i) => {
                proof {
                    let key = self.rows@[i as int].0@;
                    let c0 = self.rows@[i as int].1.counts@;
                    assert forall|p: Obs|
                        self.obs().filter(f).count(p) == pair_obs(key, c0).count(p) by {
                        lemma_pair_obs_count(key, c0, p);
                        if p.0 == key {
                            lemma_table_obs_at(self.rows@, i as int, p);
                        }
                    }
                    assert(self.obs().filter(f) =~= pair_obs(key, c0));
                    lemma_pair_obs_len(key, c0);
                    lemma_counts_ms_len(c0);
                }
                self.rows[i].1.total()
            },
            None => {
                proof {
                    assert forall|p: Obs| self.obs().filter(f).count(p) == 0 by {
                        if p.0 == window@ {
                            lemma_table_obs_absent(self.rows@, p);
                        }
                    }
                    assert(self.obs().filter(f) =~= Multiset::<Obs>::empty());
                }
                0
            },
        }
    }
}

/// Relies on String::push: it appends one character at the end and changes
/// nothing else.
#[verifier::external_body]
fn push_char(s: &mut String, c: char)
    ensures
        final(s)@ == old(s)@.push(c),
{
    s.push(c);
}

/// Some window of the table has been observed to lead to the character `c`.
pub open spec fn char_backed(obs: Multiset<Obs>, c: char) -> bool {
    exists|key: Seq<Symbol>| #[trigger] obs.count((key, sym_of(c))) >= 1
}

/// The longest walk `generate` will take before giving up: the walk is
/// capped so that generation always terminates, even on a table whose
/// observed continuations never reach `End`.
pub const MAX_WALK: usize = 4096;

/// Position `i` of the walk `syms` is a valid step over `obs`: where the
/// table holds any observation for the trailing window, the symbol at `i`
/// was observed after that window; where it holds none, the symbol is the
/// `Null` filler.
pub open spec fn walk_step(obs: Multiset<Obs>, n: nat, syms: Seq<Symbol>, i: int) -> bool {
    if key_total(obs, window_before(syms, n, i)) > 0 {
        obs.count((window_before(syms, n, i), syms[i])) >= 1
    } else {
        syms[i] == Symbol::Null
    }
}

/// A complete generation walk over `obs` at order `n`: it starts at
/// `Start`, every later symbol is a valid step, `End` appears nowhere but
/// as the final symbol, and the walk ends with `End` unless it ran to the
/// cap.
pub open spec fn valid_walk(obs: Multiset<Obs>, n: nat, syms: Seq<Symbol>) -> bool {
    &&& syms.len() >= 1
    &&& syms[0] == Symbol::Start
    &&& forall|i: int| 1 <= i < syms.len() ==> #[trigger] walk_step(obs, n, syms, i)
    &&& forall|i: int| 1 <= i < syms.len() - 1 ==> (#[trigger] syms[i]) != Symbol::End
    &&& syms.last() == Symbol::End || syms.len() == MAX_WALK + 1
}

/// The string a walk produces: its `Char` symbols one for one, in order,
/// with the sentinels discarded.
pub open spec fn walk_output(syms: Seq<Symbol>) -> Seq<char>
    decreases syms.len(),
{
    if syms.len() == 0 {
        Seq::empty()
    } else {
        match syms.last() {
            Symbol::Char(c) => walk_output(syms.drop_last()).push(c),
            _ => walk_output(syms.drop_last()),
        }
    }
}

impl MarkovChain {
    /// Learns from one string: every transition of its symbol sequence is
    /// added to the table and the string joins the history queue.  If the
    /// queue then exceeds the retention bound, the oldest string is popped
    /// and its exact contribution is subtracted again.
    pub fn digest(&mut self, input: &str)
        requires
            old(self).tbl_inv(),
            old(self).obs().len() + input@.len() + 1 <= usize::MAX,
        ensures
            final(self).tbl_inv(),
            final(self).order() == old(self).order(),
            final(self).cache_limit() == old(self).cache_limit(),
            old(self).hist().len() < old(self).cache_limit() ==> final(self).hist() == old(
                self,
            ).hist().push(input@),
            old(self).hist().len() >= old(self).cache_limit() ==> final(self).hist() == old(
                self,
            ).hist().push(input@).drop_first(),
            old(self).hist().len() < old(self).cache_limit() ==> final(self).obs() == old(
                self,
            ).obs().add(string_obs(input@, old(self).order())),
            old(self).hist().len() >= old(self).cache_limit() ==> final(self).obs() == old(
                self,
            ).obs().add(string_obs(input@, old(self).order())).sub(
                string_obs(old(self).hist()[0], old(self).order()),
            ),
            old(self).wf() ==> final(self).wf(),
            old(self).wf() ==> final(self).hist().len() <= old(self).cache_limit(),
    {
        let ghost n = self.order as nat;
        let symbols = to_symbols(input);
        let mut i: usize = 1;
        proof {
            assert(self.obs().add(obs_upto(symbols@, n, 1)) =~= self.obs());
        }
        while i < symbols.len()
            invariant
                self.tbl_inv(),
                1 <= i <= symbols@.len(),
                symbols@ == symbols_of(input@),
                symbols@.len() == input@.len() + 2,
                n == self.order as nat,
                self.order == old(self).order,
                self.cache_size == old(self).cache_size,
                self.history@ == old(self).history@,
                self.obs() == old(self).obs().add(obs_upto(symbols@, n, i as int)),
                self.obs().len() == old(self).obs().len() + (i - 1),
                old(self).obs().len() + input@.len() + 1 <= usize::MAX,
            decreases symbols@.len() - i,
        {
            let token = Token::new(&symbols, i, self.order);
            let sym = symbols[i];
            self.insert_obs(token, sym);
            proof {
                assert(self.obs() =~= old(self).obs().add(obs_upto(symbols@, n, i + 1)));
            }
            i = i + 1;
        }
        proof {
            assert(obs_upto(symbols@, n, symbols@.len() as int) == string_obs(input@, n));
        }
        let ghost hist0 = self.hist();
        let ghost obs_mid = self.obs();
        let ghost hpush = self.history@;
        self.history.push(input.to_owned());
        proof {
            lemma_views_of_len(hpush);
            lemma_views_of_len(self.history@);
            assert(self.history@.drop_last() =~= hpush);
            assert(self.hist() =~= hist0.push(input@));
        }
        if self.history.len() > self.cache_size {
            let ghost hist1 = self.hist();
            let ghost hpre = self.history@;
            let oldest = self.history.remove(0);
            proof {
                lemma_views_of_len(hpre);
                lemma_views_of_len(self.history@);
                assert forall|j: int|
                    0 <= j < self.hist().len() implies self.hist()[j] == hist1.drop_first()[j] by {
                    lemma_views_of_at(self.history@, j);
                    lemma_views_of_at(hpre, j + 1);
                    assert(self.history@[j] == hpre[j + 1]);
                }
                assert(self.hist() =~= hist1.drop_first());
                lemma_views_of_at(hpre, 0);
                assert(oldest@ == hist1[0]);
                assert(hist1[0] == hist0[0]);
            }
            self.undigest(oldest.as_str());
        }
        proof {
            lemma_views_of_len(old(self).history@);
            lemma_views_of_len(self.history@);
            if old(self).wf() {
                lemma_history_obs_push(hist0, input@, n);
                if hist0.len() < old(self).cache_limit() {
                } else {
                    lemma_history_obs_first(hist0, n);
                    assert(hist0.push(input@).drop_first() =~= hist0.drop_first().push(input@));
                    lemma_history_obs_push(hist0.drop_first(), input@, n);
                    assert(self.obs() =~= history_obs(self.hist(), n));
                }
            }
        }
    }

    /// Forgets one string: every transition of its symbol sequence is
    /// subtracted from the table, exactly reversing `digest`'s additions.
    /// A transition the table does not hold is skipped; no count ever
    /// drops below zero.  The history queue is not touched.
    pub fn undigest(&mut self, input: &str)
        requires
            old(self).tbl_inv(),
        ensures
            final(self).tbl_inv(),
            final(self).obs() == old(self).obs().sub(string_obs(input@, old(self).order())),
            final(self).hist() == old(self).hist(),
            final(self).order() == old(self).order(),
            final(self).cache_limit() == old(self).cache_limit(),
    {
        let ghost n = self.order as nat;
        let symbols = to_symbols(input);
        let mut i: usize = 1;
        proof {
            assert(self.obs().sub(obs_upto(symbols@, n, 1)) =~= self.obs());
        }
        while i < symbols.len()
            invariant
                self.tbl_inv(),
                1 <= i <= symbols@.len(),
                symbols@ == symbols_of(input@),
                n == self.order as nat,
                self.order == old(self).order,
                self.cache_size == old(self).cache_size,
                self.history@ == old(self).history@,
                self.obs() == old(self).obs().sub(obs_upto(symbols@, n, i as int)),
            decreases symbols@.len() - i,
        {
            let token = Token::new(&symbols, i, self.order);
            let sym = symbols[i];
            self.remove_obs(&token, sym);
            proof {
                assert(self.obs() =~= old(self).obs().sub(obs_upto(symbols@, n, i + 1)));
            }
            i = i + 1;
        }
        proof {
            assert(obs_upto(symbols@, n, symbols@.len() as int) == string_obs(input@, n));
        }
    }

    /// Samples one string: starting from `Start`, the walk repeatedly
    /// looks up the window of the last symbols seen and draws the next
    /// symbol with probability proportional to its observed count,
    /// appending `Null` where the window was never observed, until `End`
    /// is drawn or the walk cap is reached.  The output is exactly the
    /// in-order `Char` projection of such a walk; the sentinels are
    /// discarded.
    pub fn generate(&self) -> (out: String)
        requires
            self.tbl_inv(),
        ensures
            self.obs().len() == 0 ==> out@.len() == 0,
            forall|i: int| 0 <= i < out@.len() ==> char_backed(self.obs(), #[trigger] out@[i]),
            exists|syms: Seq<Symbol>|
                #[trigger] valid_walk(self.obs(), self.order(), syms) && out@ == walk_output(
                    syms,
                ),
    {
        let mut symbols: Vec<Symbol> = Vec::new();
        symbols.push(Symbol::Start);
        let mut out = String::new();
        let mut steps: usize = 0;
        let mut done = false;
        proof {
            assert(symbols@.drop_last() =~= Seq::<Symbol>::empty());
            assert(walk_output(Seq::<Symbol>::empty()) =~= Seq::<char>::empty());
            assert(walk_output(symbols@) =~= Seq::<char>::empty());
        }
        while !done && steps < MAX_WALK
            invariant
                self.tbl_inv(),
                steps <= MAX_WALK,
                symbols@.len() == steps + 1,
                symbols@[0] == Symbol::Start,
                done <==> symbols@.last() == Symbol::End,
                forall|i: int|
                    1 <= i < symbols@.len() ==> #[trigger] walk_step(
                        self.obs(),
                        self.order(),
                        symbols@,
                        i,
                    ),
                forall|i: int| 1 <= i < symbols@.len() - 1 ==> (#[trigger] symbols@[i])
                    != Symbol::End,
                out@ == walk_output(symbols@),
                self.obs().len() == 0 ==> out@.len() == 0,
                forall|i: int|
                    0 <= i < out@.len() ==> char_backed(self.obs(), #[trigger] out@[i]),
            decreases MAX_WALK - steps + (if done {
                0int
            } else {
                1int
            }),
        {
            let ghost syms0 = symbols@;
            let token = Token::new(&symbols, symbols.len(), self.order);
            let ghost f = (|p: Obs| p.0 == token@);
            proof {
                assert(syms0.take(syms0.len() as int) =~= syms0);
            }
            let next = match find_row(&self.rows, &token) {
                Some(r) => {
                    proof {
                        let c0 = self.rows@[r as int].1.counts@;
                        assert(c0.last() == c0[c0.len() - 1]);
                        assert(sum_counts(c0) >= 1);
                        lemma_counts_ms_len(c0);
                    }
                    let sym = self.rows[r].1.weighted_random();
                    proof {
                        let key = self.rows@[r as int].0@;
                        let c0 = self.rows@[r as int].1.counts@;
                        lemma_table_obs_remove(self.rows@, r as int, (key, sym));
                        lemma_pair_obs_count(key, c0, (key, sym));
                        lemma_counts_ms_count(c0, sym);
                        assert(self.obs().count((key, sym)) >= 1);
                        vstd::multiset::axiom_count_le_len(self.obs(), (key, sym));
                        assert forall|p: Obs|
                            self.obs().filter(f).count(p) == pair_obs(key, c0).count(p) by {
                            lemma_pair_obs_count(key, c0, p);
                            if p.0 == key {
                                lemma_table_obs_at(self.rows@, r as int, p);
                            }
                        }
                        assert(self.obs().filter(f) =~= pair_obs(key, c0));
                        lemma_pair_obs_len(key, c0);
                        assert(key_total(self.obs(), token@) >= 1);
                    }
                    sym
                },
                None => {
                    proof {
                        assert forall|p: Obs| self.obs().filter(f).count(p) == 0 by {
                            if p.0 == token@ {
                                lemma_table_obs_absent(self.rows@, p);
                            }
                        }
                        assert(self.obs().filter(f) =~= Multiset::<Obs>::empty());
                        assert(key_total(self.obs(), token@) == 0);
                    }
                    Symbol::Null
                },
            };
            match next {
                Symbol::Char(c) => {
                    let ghost out0 = out@;
                    push_char(&mut out, c);
                    proof {
                        assert(sym_of(c) == Symbol::Char(c));
                        assert(self.obs().count((token@, sym_of(c))) >= 1);
                        assert(char_backed(self.obs(), c));
                        assert forall|i: int|
                            0 <= i < out@.len() implies char_backed(self.obs(), #[trigger] out@[i]) by {
                            if i < out0.len() {
                                assert(out@[i] == out0[i]);
                            } else {
                                assert(out@[i] == c);
                            }
                        }
                    }
                },
                Symbol::End => {
                    done = true;
                },
                _ => {},
            }
            symbols.push(next);
            steps = steps + 1;
            proof {
                assert(symbols@.drop_last() =~= syms0);
                assert(symbols@.last() == next);
                assert(symbols@.take(symbols@.len() - 1) =~= syms0);
                assert forall|i: int|
                    1 <= i < symbols@.len() implies #[trigger] walk_step(
                    self.obs(),
                    self.order(),
                    symbols@,
                    i,
                ) by {
                    if i < symbols@.len() - 1 {
                        assert(symbols@.take(i) =~= syms0.take(i));
                        assert(symbols@[i] == syms0[i]);
                        assert(walk_step(self.obs(), self.order(), syms0, i));
                    } else {
                        assert(symbols@.take(i) =~= syms0);
                    }
                }
                assert forall|i: int|
                    1 <= i < symbols@.len() - 1 implies (#[trigger] symbols@[i])
                    != Symbol::End by {
                    if i < symbols@.len() - 2 {
                        assert(symbols@[i] == syms0[i]);
                    } else {
                        assert(symbols@[i] == syms0.last());
                    }
                }
                match next {
                    Symbol::Char(c) => {
                        assert(walk_output(symbols@) == walk_output(syms0).push(c));
                    },
                    _ => {
                        assert(walk_output(symbols@) == walk_output(syms0));
                    },
                }
            }
        }
        proof {
            assert(valid_walk(self.obs(), self.order(), symbols@));
        }
        out
    }
}

/// Exact reversibility: adding every observation of a string to a table
/// and then subtracting them again restores every count exactly, whatever
/// else the table holds.
pub proof fn lemma_digest_undigest_exact(table: Multiset<Obs>, s: Seq<char>, n: nat)
    ensures
        table.add(string_obs(s, n)).sub(string_obs(s, n)) == table,
{
    assert(table.add(string_obs(s, n)).sub(string_obs(s, n)) =~= table);
}

/// Superposition is additive: digesting the same string twice contributes
/// exactly twice the counts of digesting it once.
pub proof fn lemma_superposition_doubles(table: Multiset<Obs>, s: Seq<char>, n: nat, p: Obs)
    ensures
        table.add(string_obs(s, n)).add(string_obs(s, n)).count(p) == table.count(p) + 2
            * string_obs(s, n).count(p),
{
}

} // verus!
