use markov::MarkovChain;
use markov::MarkovEntry;
use markov::Symbol;
use markov::Token;

/// A token whose window is exactly `window`.
fn tok(window: Vec<Symbol>) -> Token {
    let n = window.len();
    Token::new(&window, n, n)
}

#[test]
fn symbol_char_extraction() {
    assert_eq!(Symbol::Char('x').char(), Some('x'));
    assert_eq!(Symbol::Start.char(), None);
    assert_eq!(Symbol::End.char(), None);
    assert_eq!(Symbol::Null.char(), None);
}

#[test]
fn token_padding_and_equality() {
    let context = vec![Symbol::Start, Symbol::Char('a')];
    let full = Token::new(&context, 2, 2);
    assert!(full.same_window(&tok(vec![Symbol::Start, Symbol::Char('a')])));
    let padded = Token::new(&context, 1, 3);
    assert!(padded.same_window(&tok(vec![Symbol::Null, Symbol::Null, Symbol::Start])));
    assert!(!padded.same_window(&full));
}

#[test]
fn entry_total_tracks_sum_of_counts() {
    let mut e = MarkovEntry::new();
    assert_eq!(e.total(), 0);
    e.insert(Symbol::Char('a'));
    e.insert(Symbol::Char('a'));
    e.insert(Symbol::Char('b'));
    assert_eq!(e.count(Symbol::Char('a')), 2);
    assert_eq!(e.count(Symbol::Char('b')), 1);
    assert_eq!(e.total(), e.count(Symbol::Char('a')) + e.count(Symbol::Char('b')));
    e.remove(Symbol::Char('a'));
    assert_eq!(e.count(Symbol::Char('a')), 1);
    assert_eq!(e.total(), 2);
    e.remove(Symbol::Char('b'));
    assert_eq!(e.count(Symbol::Char('b')), 0);
    // removing an absent symbol is a no-op and never drops a count below zero
    e.remove(Symbol::Char('b'));
    assert_eq!(e.count(Symbol::Char('b')), 0);
    assert_eq!(e.total(), 1);
}

#[test]
fn entry_weighted_random_returns_observed_symbol() {
    let mut e = MarkovEntry::new();
    e.insert(Symbol::Char('q'));
    for _ in 0..20 {
        assert_eq!(e.weighted_random(), Symbol::Char('q'));
    }
}

#[test]
fn digest_single_string_order_two() {
    let mut chain = MarkovChain::new(2);
    chain.digest("ab");
    let t0 = tok(vec![Symbol::Null, Symbol::Start]);
    let t1 = tok(vec![Symbol::Start, Symbol::Char('a')]);
    let t2 = tok(vec![Symbol::Char('a'), Symbol::Char('b')]);
    assert_eq!(chain.count_of(&t0, Symbol::Char('a')), 1);
    assert_eq!(chain.total_of(&t0), 1);
    assert_eq!(chain.count_of(&t1, Symbol::Char('b')), 1);
    assert_eq!(chain.total_of(&t1), 1);
    assert_eq!(chain.count_of(&t2, Symbol::End), 1);
    assert_eq!(chain.total_of(&t2), 1);
    // only one path exists, so generation is deterministic
    assert_eq!(chain.generate(), "ab");
}

#[test]
fn digest_branching_order_two() {
    let mut chain = MarkovChain::new(2);
    chain.digest("ab");
    chain.digest("ac");
    let t1 = tok(vec![Symbol::Start, Symbol::Char('a')]);
    assert_eq!(chain.total_of(&t1), 2);
    assert_eq!(chain.count_of(&t1, Symbol::Char('b')), 1);
    assert_eq!(chain.count_of(&t1, Symbol::Char('c')), 1);
    let mut saw_ab = false;
    let mut saw_ac = false;
    for _ in 0..200 {
        let g = chain.generate();
        assert!(g == "ab" || g == "ac");
        if g == "ab" {
            saw_ab = true;
        }
        if g == "ac" {
            saw_ac = true;
        }
    }
    assert!(saw_ab);
    assert!(saw_ac);
}

#[test]
fn fresh_chain_generates_empty_string() {
    let chain = MarkovChain::new(1);
    assert_eq!(chain.generate(), "");
    let chain5 = MarkovChain::new(5);
    assert_eq!(chain5.generate(), "");
}

#[test]
fn empty_string_contributes_start_to_end() {
    let mut chain = MarkovChain::new(1);
    chain.digest("");
    let t = tok(vec![Symbol::Start]);
    assert_eq!(chain.count_of(&t, Symbol::End), 1);
    assert_eq!(chain.total_of(&t), 1);
    assert_eq!(chain.generate(), "");
}

#[test]
fn digest_twice_doubles_every_count() {
    let mut once = MarkovChain::new(2);
    once.digest("ab");
    let mut twice = MarkovChain::new(2);
    twice.digest("ab");
    twice.digest("ab");
    let windows = vec![
        tok(vec![Symbol::Null, Symbol::Start]),
        tok(vec![Symbol::Start, Symbol::Char('a')]),
        tok(vec![Symbol::Char('a'), Symbol::Char('b')]),
    ];
    let nexts = vec![Symbol::Char('a'), Symbol::Char('b'), Symbol::End];
    for w in &windows {
        for n in &nexts {
            assert_eq!(twice.count_of(w, *n), 2 * once.count_of(w, *n));
        }
        assert_eq!(twice.total_of(w), 2 * once.total_of(w));
    }
}

#[test]
fn undigest_exactly_reverses_digest() {
    let mut chain = MarkovChain::new(2);
    chain.digest("abc");
    let windows = vec![
        tok(vec![Symbol::Null, Symbol::Start]),
        tok(vec![Symbol::Start, Symbol::Char('a')]),
        tok(vec![Symbol::Char('a'), Symbol::Char('b')]),
        tok(vec![Symbol::Char('b'), Symbol::Char('c')]),
        tok(vec![Symbol::Start, Symbol::Char('x')]),
        tok(vec![Symbol::Char('x'), Symbol::Char('y')]),
    ];
    let nexts = vec![
        Symbol::Char('a'),
        Symbol::Char('b'),
        Symbol::Char('c'),
        Symbol::Char('x'),
        Symbol::Char('y'),
        Symbol::End,
    ];
    let mut before = Vec::new();
    for w in &windows {
        for n in &nexts {
            before.push(chain.count_of(w, *n));
        }
        before.push(chain.total_of(w));
    }
    chain.digest("xy");
    chain.undigest("xy");
    let mut after = Vec::new();
    for w in &windows {
        for n in &nexts {
            after.push(chain.count_of(w, *n));
        }
        after.push(chain.total_of(w));
    }
    assert_eq!(before, after);
}

#[test]
fn eviction_forgets_oldest_string_exactly() {
    let mut chain = MarkovChain::with_cache_size(2, 1);
    chain.digest("x");
    chain.digest("y");
    assert_eq!(chain.history_len(), 1);
    assert_eq!(chain.history_at(0), "y");
    let t0 = tok(vec![Symbol::Null, Symbol::Start]);
    assert_eq!(chain.count_of(&t0, Symbol::Char('x')), 0);
    assert_eq!(chain.count_of(&t0, Symbol::Char('y')), 1);
    let tx = tok(vec![Symbol::Start, Symbol::Char('x')]);
    assert_eq!(chain.total_of(&tx), 0);
    let ty = tok(vec![Symbol::Start, Symbol::Char('y')]);
    assert_eq!(chain.count_of(&ty, Symbol::End), 1);
    assert_eq!(chain.total_of(&ty), 1);
}

#[test]
fn history_never_exceeds_cache_size() {
    let mut chain = MarkovChain::with_cache_size(3, 3);
    let inputs = vec!["one", "two", "three", "four", "five", "six", "seven"];
    for s in &inputs {
        chain.digest(s);
        assert!(chain.history_len() <= 3);
    }
    assert_eq!(chain.history_len(), 3);
    assert_eq!(chain.history_at(0), "five");
    assert_eq!(chain.history_at(1), "six");
    assert_eq!(chain.history_at(2), "seven");
}

#[test]
fn default_cache_size_is_one_thousand() {
    let chain = MarkovChain::new(4);
    assert_eq!(chain.cache_size(), 1000);
}

#[test]
fn unicode_input_round_trips() {
    let mut chain = MarkovChain::new(3);
    chain.digest("héllo ☃");
    assert_eq!(chain.generate(), "héllo ☃");
    chain.undigest("héllo ☃");
    let t0 = tok(vec![Symbol::Null, Symbol::Null, Symbol::Start]);
    assert_eq!(chain.total_of(&t0), 0);
}

#[test]
fn observation_count_tracks_table_size() {
    let mut chain = MarkovChain::new(2);
    assert_eq!(chain.observation_count(), 0);
    chain.digest("ab");
    // three transitions: to 'a', to 'b', and to the end marker
    assert_eq!(chain.observation_count(), 3);
    chain.undigest("ab");
    assert_eq!(chain.observation_count(), 0);
}

#[test]
fn order_one_accumulates_repeated_characters() {
    let mut chain = MarkovChain::new(1);
    chain.digest("aa");
    let ta = tok(vec![Symbol::Char('a')]);
    assert_eq!(chain.count_of(&ta, Symbol::Char('a')), 1);
    assert_eq!(chain.count_of(&ta, Symbol::End), 1);
    assert_eq!(chain.total_of(&ta), 2);
    let ts = tok(vec![Symbol::Start]);
    assert_eq!(chain.count_of(&ts, Symbol::Char('a')), 1);
    let generated = chain.generate();
    assert!(generated.chars().all(|c| c == 'a'));
}
