use std::collections::HashSet;
use spindle_core::intern::{
    intern, intern_literal, interned_count, resolve, resolve_literal, Interner, LiteralId, SymbolId,
};

#[test]
fn test_intern_returns_same_id() {
    let mut interner = Interner::new();
    let id1 = intern(&mut interner, "hello");
    let id2 = intern(&mut interner, "hello");
    assert_eq!(id1, id2);
}

#[test]
fn test_intern_different_strings() {
    let mut interner = Interner::new();
    let id1 = intern(&mut interner, "hello");
    let id2 = intern(&mut interner, "world");
    assert_ne!(id1, id2);
}

#[test]
fn test_resolve() {
    let mut interner = Interner::new();
    let id = intern(&mut interner, "test_string");
    assert_eq!(resolve(&interner, id), "test_string");
}

#[test]
fn test_empty_symbol() {
    let mut interner = Interner::new();
    let id = intern(&mut interner, "");
    assert_eq!(id, SymbolId::from_raw(0));
    assert!(id.is_empty());
    assert_eq!(resolve(&interner, id), "");
}

#[test]
fn test_symbol_id_copy() {
    let mut interner = Interner::new();
    let id1 = intern(&mut interner, "copy_test");
    let id2 = id1;
    assert_eq!(id1, id2);
    assert_eq!(resolve(&interner, id1), resolve(&interner, id2));
}

#[test]
fn test_literal_id_positive() {
    let mut interner = Interner::new();
    let sym = intern(&mut interner, "flies");
    let lit = LiteralId::positive(sym);

    assert!(!lit.is_negated());
    assert!(lit.is_positive());
    assert_eq!(lit.symbol(), sym);
}

#[test]
fn test_literal_id_negated() {
    let mut interner = Interner::new();
    let sym = intern(&mut interner, "flies");
    let lit = LiteralId::negated(sym);

    assert!(lit.is_negated());
    assert!(!lit.is_positive());
    assert_eq!(lit.symbol(), sym);
}

#[test]
fn test_literal_id_complement() {
    let mut interner = Interner::new();
    let sym = intern(&mut interner, "bird");
    let pos = LiteralId::positive(sym);
    let neg = pos.complement();

    assert!(!pos.is_negated());
    assert!(neg.is_negated());
    assert_eq!(pos.symbol(), neg.symbol());
    assert_eq!(pos, neg.complement());
}

#[test]
fn test_intern_literal() {
    let mut interner = Interner::new();
    let pos = intern_literal(&mut interner, "flies");
    let neg = intern_literal(&mut interner, "~flies");

    assert!(!pos.is_negated());
    assert!(neg.is_negated());
    assert_eq!(pos.symbol(), neg.symbol());
}

#[test]
fn test_resolve_literal() {
    let mut interner = Interner::new();
    let pos = intern_literal(&mut interner, "bird");
    let neg = intern_literal(&mut interner, "~bird");

    assert_eq!(resolve_literal(&interner, pos), "bird");
    assert_eq!(resolve_literal(&interner, neg), "~bird");
}

#[test]
fn test_literal_id_equality() {
    let mut interner = Interner::new();
    let lit1 = intern_literal(&mut interner, "test");
    let lit2 = intern_literal(&mut interner, "test");
    let lit3 = intern_literal(&mut interner, "~test");

    assert_eq!(lit1, lit2);
    assert_ne!(lit1, lit3);
    assert_eq!(lit1.complement(), lit3);
}

#[test]
fn intern_test_display() {
    let mut interner = Interner::new();
    let pos = intern_literal(&mut interner, "bird");
    let neg = intern_literal(&mut interner, "~flies");

    assert_eq!(resolve_literal(&interner, pos), "bird");
    assert_eq!(resolve_literal(&interner, neg), "~flies");
}

#[test]
fn test_interned_count() {
    let mut interner = Interner::new();
    let before = interned_count(&interner);
    intern(&mut interner, "unique_test_string_12345");
    let after = interned_count(&interner);
    assert!(after >= before);
}

#[test]
fn test_symbol_id_from_raw_and_as_raw() {
    let mut interner = Interner::new();
    let id = intern(&mut interner, "raw_test");
    let raw = id.as_raw();
    let restored = SymbolId::from_raw(raw);
    assert_eq!(id, restored);
    assert_eq!(resolve(&interner, restored), "raw_test");
}

#[test]
fn test_literal_id_as_raw_and_from_raw() {
    let mut interner = Interner::new();
    let lit = intern_literal(&mut interner, "~raw_lit_test");
    let raw = lit.as_raw();
    let restored = LiteralId::from_raw(raw);
    assert_eq!(lit, restored);
    assert!(restored.is_negated());
}

#[test]
fn test_literal_id_is_empty() {
    let mut interner = Interner::new();
    let empty = LiteralId::from_raw(0);
    assert!(empty.is_empty());

    let non_empty = intern_literal(&mut interner, "not_empty");
    assert!(!non_empty.is_empty());
}

#[test]
fn test_batch_resolve_correctness() {
    let mut interner = Interner::new();
    let ids: Vec<SymbolId> = (0..50).map(|i| intern(&mut interner, &format!("batch_{i}"))).collect();

    let resolved: Vec<&str> = ids.iter().map(|&id| resolve(&interner, id)).collect();

    for (i, s) in resolved.iter().enumerate() {
        assert_eq!(*s, format!("batch_{i}"));
    }
}

#[test]
fn test_many_symbols() {
    let mut interner = Interner::new();
    let mut ids = Vec::new();
    for i in 0..1000 {
        ids.push(intern(&mut interner, &format!("symbol_{i}")));
    }

    let unique: HashSet<_> = ids.iter().collect();
    assert_eq!(unique.len(), 1000);

    for (i, id) in ids.iter().enumerate() {
        assert_eq!(resolve(&interner, *id), format!("symbol_{i}"));
    }
}

#[test]
fn test_literal_id_hash() {
    let mut interner = Interner::new();
    let a = intern_literal(&mut interner, "a");
    let b = intern_literal(&mut interner, "b");
    let not_a = intern_literal(&mut interner, "~a");
    let mut set = HashSet::new();
    set.insert(a);
    set.insert(b);
    set.insert(not_a);

    assert!(set.contains(&intern_literal(&mut interner, "a")));
    assert!(set.contains(&intern_literal(&mut interner, "b")));
    assert!(set.contains(&intern_literal(&mut interner, "~a")));
    assert!(!set.contains(&intern_literal(&mut interner, "c")));
}

#[test]
fn test_symbol_id_display() {
    let mut interner = Interner::new();
    let id = intern(&mut interner, "display_test");
    let display_str = id.to_text(&interner);
    assert_eq!(display_str, "display_test");
}

#[test]
fn literal_id_display_text() {
    let mut interner = Interner::new();
    let neg = intern_literal(&mut interner, "~shown");
    assert_eq!(neg.to_text(&interner), "~shown");
    let pos = intern_literal(&mut interner, "shown");
    assert_eq!(pos.to_text(&interner), "shown");
}

#[test]
fn test_symbol_id_debug() {
    let mut interner = Interner::new();
    let id = intern(&mut interner, "debug_test");
    let debug_str = id.debug_text(&interner);
    assert!(debug_str.contains("SymbolId"));
    assert!(debug_str.contains("debug_test"));
}

#[test]
fn test_literal_id_debug() {
    let mut interner = Interner::new();
    let pos = intern_literal(&mut interner, "debug_lit");
    let neg = intern_literal(&mut interner, "~debug_lit");

    let pos_debug = pos.debug_text(&interner);
    let neg_debug = neg.debug_text(&interner);

    assert!(pos_debug.contains("LiteralId"));
    assert!(pos_debug.contains("debug_lit"));
    assert!(neg_debug.contains("~"));
}

#[test]
fn symbol_debug_text_quotes_the_name() {
    let mut interner = Interner::new();
    let id = intern(&mut interner, "a\"b");
    assert_eq!(id.debug_text(&interner), format!("SymbolId({}: \"a\\\"b\")", id.0));
}

#[test]
fn resolve_literal_of_an_unknown_negated_symbol_is_a_bare_tilde() {
    let interner = Interner::new();
    let id = LiteralId::from_raw(0x8000_0005);
    assert_eq!(resolve_literal(&interner, id), "~");
}
