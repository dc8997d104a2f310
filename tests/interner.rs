use str_interner::{Interner, StrId};

fn ids(interner: &mut Interner, words: &[&str]) -> Vec<u32> {
    words.iter().map(|w| interner.intern(w).index()).collect()
}

#[test]
fn concrete_scenario() {
    let mut interner = Interner::with_capacity(10);
    assert_eq!(ids(&mut interner, &["a", "bb", "a", "ccc"]), vec![0, 1, 0, 2]);
    let stats = interner.stats();
    assert_eq!(stats.uniq_count, 3);
    assert_eq!(stats.total_size, 6);
}

#[test]
fn repeated_intern_gives_same_handle() {
    let mut interner = Interner::with_capacity(4);
    let first = interner.intern("hello");
    interner.intern("world");
    for _ in 0..10 {
        assert_eq!(interner.intern("hello"), first);
    }
    assert_eq!(interner.len(), 2);
}

#[test]
fn distinct_strings_get_distinct_handles() {
    let mut interner = Interner::with_capacity(1);
    let words = ["x", "xx", "xy", "yx", "", "X", "x "];
    let handles: Vec<StrId> = words.iter().map(|w| interner.intern(w)).collect();
    for i in 0..handles.len() {
        for j in 0..handles.len() {
            assert_eq!(handles[i] == handles[j], i == j);
        }
    }
}

#[test]
fn lookup_returns_interned_text() {
    let mut interner = Interner::with_capacity(2);
    let words = ["alpha", "héllo", "日本語", "🦀 crab", "", "a\u{0}b", "alpha"];
    let handles: Vec<StrId> = words.iter().map(|w| interner.intern(w)).collect();
    for (w, h) in words.iter().zip(handles.iter()) {
        assert_eq!(interner.lookup(*h), *w);
    }
}

#[test]
fn handles_are_dense_in_first_seen_order() {
    let mut interner = Interner::with_capacity(8);
    let got = ids(&mut interner, &["q", "r", "q", "s", "r", "t", "q"]);
    assert_eq!(got, vec![0, 1, 0, 2, 1, 3, 0]);
    assert_eq!(interner.len(), 4);
}

#[test]
fn stats_count_distinct_strings_and_their_bytes() {
    let mut interner = Interner::with_capacity(16);
    for w in ["ab", "é", "ab", "日本", "é", "ab"] {
        interner.intern(w);
    }
    assert_eq!(interner.total_size(), 2 + 2 + 6);
    let stats = interner.stats();
    assert_eq!(stats.uniq_count, 3);
    assert_eq!(stats.total_size, 10);
}

#[test]
fn growth_under_pressure_keeps_every_string() {
    let mut interner = Interner::with_capacity(10);
    let mut first = Vec::new();
    for i in 0..100000 {
        let name = format!("string_{}", i % 1000);
        let id = interner.intern(name.as_str());
        if i < 1000 {
            assert_eq!(id.index(), i as u32);
            first.push(id);
        } else {
            assert_eq!(id, first[i % 1000]);
        }
    }
    for (i, id) in first.iter().enumerate() {
        assert_eq!(interner.lookup(*id), format!("string_{}", i));
    }
    let expected: usize = (0..1000).map(|i| format!("string_{}", i).len()).sum();
    let stats = interner.stats();
    assert_eq!(stats.uniq_count, 1000);
    assert_eq!(stats.total_size, expected);
}

#[test]
fn empty_string_is_interned_once() {
    let mut interner = Interner::with_capacity(0);
    let e = interner.intern("");
    assert_eq!(interner.lookup(e), "");
    for _ in 0..5 {
        assert_eq!(interner.intern(""), e);
    }
    interner.intern("z");
    assert_eq!(interner.intern(""), e);
    let stats = interner.stats();
    assert_eq!(stats.uniq_count, 2);
    assert_eq!(stats.total_size, 1);
}

#[test]
fn long_string_beyond_capacity_fits() {
    let mut interner = Interner::with_capacity(0);
    let long = "w".repeat(1000);
    let a = interner.intern("ab");
    let b = interner.intern(&long);
    let c = interner.intern("cd");
    assert_eq!(interner.lookup(a), "ab");
    assert_eq!(interner.lookup(b), long);
    assert_eq!(interner.lookup(c), "cd");
    assert_eq!(interner.total_size(), 1004);
}

#[test]
fn fresh_interner_is_empty() {
    let interner = Interner::with_capacity(100);
    assert_eq!(interner.len(), 0);
    let stats = interner.stats();
    assert_eq!(stats.uniq_count, 0);
    assert_eq!(stats.total_size, 0);
}
