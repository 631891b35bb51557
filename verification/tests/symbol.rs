use typst_symbol::construct::{ConstructError, SymbolVariant};
use typst_symbol::elem::SymbolElem;
use typst_symbol::symbol::{Symbol, SymbolFunc, Variant};

fn variant(modifiers: &str, c: char) -> Variant {
    Variant { modifiers: modifiers.to_string(), c, deprecation: None }
}

fn arrow() -> Symbol {
    Symbol::list(vec![
        variant("r", '\u{2192}'),
        variant("r.long", '\u{27f6}'),
        variant("l", '\u{2190}'),
        variant("l.r", '\u{2194}'),
        variant("r.double", '\u{21d2}'),
        variant("r.double.long", '\u{27f9}'),
    ])
}

fn envelope() -> Symbol {
    Symbol::construct(vec![
        SymbolVariant::from_char('\u{1f582}'),
        SymbolVariant::new("stamped".to_string(), '\u{1f583}'),
        SymbolVariant::new("stamped.pen".to_string(), '\u{1f586}'),
        SymbolVariant::new("lightning".to_string(), '\u{1f584}'),
        SymbolVariant::new("fly".to_string(), '\u{1f585}'),
    ])
    .unwrap()
}

fn apply(s: Symbol, modifiers: &[&str]) -> Result<Symbol, String> {
    let mut s = s;
    for m in modifiers {
        s = s.modified(m)?.0;
    }
    Ok(s)
}

#[test]
fn single_symbol_shows_its_character() {
    let s = Symbol::single('x');
    assert_eq!(s.get(), 'x');
    assert_eq!(s.display(), "x");
    assert_eq!(s.repr(), "symbol(\"x\")");
    assert!(s.modifiers().is_empty());
    let vs = s.variants();
    assert_eq!(vs, vec![variant("", 'x')]);
}

#[test]
fn single_symbol_refuses_modifiers() {
    let err = Symbol::single('x').modified("a").unwrap_err();
    assert_eq!(err, "unknown symbol modifier");
}

#[test]
fn list_defaults_to_first_variant_with_fewest_modifiers() {
    assert_eq!(arrow().get(), '\u{2192}');
}

#[test]
fn modifier_selects_variant() {
    assert_eq!(apply(arrow(), &["l"]).unwrap().get(), '\u{2190}');
    assert_eq!(apply(arrow(), &["long"]).unwrap().get(), '\u{27f6}');
    assert_eq!(apply(arrow(), &["double"]).unwrap().get(), '\u{21d2}');
    assert_eq!(apply(arrow(), &["double", "long"]).unwrap().get(), '\u{27f9}');
}

#[test]
fn modifier_order_is_irrelevant() {
    let a = apply(arrow(), &["r", "l"]).unwrap().get();
    let b = apply(arrow(), &["l", "r"]).unwrap().get();
    assert_eq!(a, '\u{2194}');
    assert_eq!(a, b);
    let c = apply(arrow(), &["long", "double"]).unwrap().get();
    assert_eq!(c, '\u{27f9}');
}

#[test]
fn unknown_modifier_is_refused() {
    let err = apply(arrow(), &["up"]).unwrap_err();
    assert_eq!(err, "unknown symbol modifier");
    let err = apply(arrow(), &["l", "long"]).unwrap_err();
    assert_eq!(err, "unknown symbol modifier");
}

#[test]
fn more_modifiers_in_common_win() {
    // Both variants hold `a`; with `a.b` applied only the second is a match.
    let s = Symbol::list(vec![variant("a.c", '1'), variant("a.b", '2')]);
    assert_eq!(apply(s, &["a", "b"]).unwrap().get(), '2');
    // Among equal scores, the first one wins.
    let s = Symbol::list(vec![variant("a", '1'), variant("b", '2')]);
    assert_eq!(s.get(), '1');
}

#[test]
fn deprecation_is_reported_when_selected() {
    let s = Symbol::list(vec![
        variant("", 'a'),
        Variant { modifiers: "old".to_string(), c: 'b', deprecation: Some("use new".to_string()) },
        variant("new", 'b'),
    ]);
    let (t, d) = s.clone().modified("old").unwrap();
    assert_eq!(t.get(), 'b');
    assert_eq!(d, Some("use new".to_string()));
    let (_, d) = s.modified("new").unwrap();
    assert_eq!(d, None);
}

#[test]
fn possible_modifiers_are_sorted_and_exclude_applied() {
    assert_eq!(arrow().modifiers(), vec!["double", "l", "long", "r"]);
    let s = apply(arrow(), &["r"]).unwrap();
    assert_eq!(s.modifiers(), vec!["double", "l", "long"]);
}

#[test]
fn repr_lists_reachable_variants() {
    let s = Symbol::list(vec![variant("", 'a'), variant("x", 'b'), variant("x.y", 'c')]);
    assert_eq!(s.repr(), "symbol(\"a\", (\"x\", \"b\"), (\"x.y\", \"c\"))");
    let t = apply(s, &["x"]).unwrap();
    assert_eq!(t.repr(), "symbol(\"b\", (\"y\", \"c\"))");
}

#[test]
fn variants_are_listed_in_order() {
    let s = arrow();
    let vs = s.variants();
    assert_eq!(vs.len(), 6);
    assert_eq!(vs[1], variant("r.long", '\u{27f6}'));
}

#[test]
fn func_maps_accents_and_brackets() {
    assert_eq!(Symbol::single('^').func(), Ok(SymbolFunc::Hat));
    assert_eq!(Symbol::single('\u{2308}').func(), Ok(SymbolFunc::Ceil));
    assert_eq!(Symbol::single('\u{0307}').func(), Ok(SymbolFunc::Dot));
    assert_eq!(Symbol::single('\u{22c5}').func(), Ok(SymbolFunc::Dot));
    assert_eq!(Symbol::single('\u{21bc}').func(), Ok(SymbolFunc::HarpoonLt));
    assert_eq!(Symbol::single('a').func(), Err("symbol a is not callable".to_string()));
}

#[test]
fn constructed_symbol_from_docs() {
    let e = envelope();
    assert_eq!(e.get(), '\u{1f582}');
    assert_eq!(apply(e.clone(), &["stamped"]).unwrap().get(), '\u{1f583}');
    assert_eq!(apply(e.clone(), &["stamped", "pen"]).unwrap().get(), '\u{1f586}');
    assert_eq!(apply(e.clone(), &["pen", "stamped"]).unwrap().get(), '\u{1f586}');
    assert_eq!(apply(e.clone(), &["lightning"]).unwrap().get(), '\u{1f584}');
    assert_eq!(apply(e.clone(), &["fly"]).unwrap().get(), '\u{1f585}');
    assert_eq!(e.modifiers(), vec!["fly", "lightning", "pen", "stamped"]);
}

#[test]
fn construct_refuses_empty_list() {
    assert_eq!(Symbol::construct(vec![]).unwrap_err(), ConstructError::NoVariants);
}

#[test]
fn construct_refuses_invalid_modifier() {
    let err = Symbol::construct(vec![
        SymbolVariant::from_char('a'),
        SymbolVariant::new("ok.1bad".to_string(), 'b'),
    ])
    .unwrap_err();
    assert_eq!(err, ConstructError::InvalidModifier { index: 1, modifier: "1bad".to_string() });
    let err = Symbol::construct(vec![SymbolVariant::new("a..b".to_string(), 'b')]).unwrap_err();
    assert_eq!(err, ConstructError::InvalidModifier { index: 0, modifier: "".to_string() });
}

#[test]
fn construct_accepts_unicode_and_dashed_identifiers() {
    let s = Symbol::construct(vec![
        SymbolVariant::from_char('a'),
        SymbolVariant::new("\u{e9}t\u{e9}.x-y._z".to_string(), 'b'),
    ])
    .unwrap();
    assert_eq!(apply(s, &["_z", "\u{e9}t\u{e9}"]).unwrap().get(), 'b');
}

#[test]
fn construct_refuses_repeated_modifier() {
    let err = Symbol::construct(vec![SymbolVariant::new("z.b.a.b.z".to_string(), 'x')]).unwrap_err();
    assert_eq!(err, ConstructError::DuplicateModifier { index: 0, modifier: "b".to_string() });
}

#[test]
fn construct_refuses_duplicate_default() {
    let err = Symbol::construct(vec![SymbolVariant::from_char('a'), SymbolVariant::from_char('b')])
        .unwrap_err();
    assert_eq!(err, ConstructError::DuplicateDefault { index: 1 });
}

#[test]
fn construct_refuses_duplicate_variant() {
    let err = Symbol::construct(vec![
        SymbolVariant::new("a.b".to_string(), 'x'),
        SymbolVariant::new("c".to_string(), 'y'),
        SymbolVariant::new("a.b".to_string(), 'z'),
    ])
    .unwrap_err();
    assert_eq!(
        err,
        ConstructError::DuplicateVariant { index: 2, variant: "a.b".to_string(), same_text: true }
    );
    let err = Symbol::construct(vec![
        SymbolVariant::new("a.b".to_string(), 'x'),
        SymbolVariant::new("b.a".to_string(), 'z'),
    ])
    .unwrap_err();
    assert_eq!(
        err,
        ConstructError::DuplicateVariant { index: 1, variant: "b.a".to_string(), same_text: false }
    );
}

#[test]
fn runtime_symbol_starts_without_modifiers() {
    let s = Symbol::runtime(vec![variant("a", '1'), variant("", '2')]);
    assert_eq!(s.get(), '2');
    assert_eq!(s.repr(), "symbol((\"a\", \"1\"), \"2\")");
}

#[test]
fn symbol_elem_text_and_repr() {
    let e = SymbolElem::new('q');
    assert_eq!(e.text, 'q');
    assert_eq!(e.repr(), "[q]");
    let p = SymbolElem::packed('r');
    let mut s = String::from("ab");
    p.plain_text(&mut s);
    assert_eq!(s, "abr");
}

#[test]
fn long_repr_breaks_lines() {
    let s = Symbol::list(vec![
        variant("", 'a'),
        variant("first", 'b'),
        variant("second", 'c'),
        variant("third.fourth", 'd'),
    ]);
    assert_eq!(
        s.repr(),
        "symbol(\n  \"a\",\n  (\"first\", \"b\"),\n  (\"second\", \"c\"),\n  (\"third.fourth\", \"d\"),\n)"
    );
}

#[test]
fn repr_with_line_feed_character_is_indented() {
    let s = Symbol::list(vec![variant("", '\n'), variant("x", 'b')]);
    assert_eq!(s.repr(), "symbol(\n  \"\n  \", (\"x\", \"b\")\n)");
}

#[test]
fn repr_width_counts_bytes() {
    // 39 characters on one line, but 51 bytes: too wide.
    let x = '\u{1f600}';
    let s = Symbol::list(vec![variant("", x), variant("a", x), variant("b", x), variant("c", x)]);
    let expected = format!(
        "symbol(\n  \"{x}\",\n  (\"a\", \"{x}\"),\n  (\"b\", \"{x}\"),\n  (\"c\", \"{x}\"),\n)"
    );
    assert_eq!(s.repr(), expected);
    // With two modified variants (27 characters, 36 bytes) it stays on one line.
    let t = Symbol::list(vec![variant("", x), variant("a", x), variant("b", x)]);
    assert_eq!(t.repr(), format!("symbol(\"{x}\", (\"a\", \"{x}\"), (\"b\", \"{x}\"))"));
}

#[test]
fn dotted_modifier_applies_each_part() {
    assert_eq!(apply(arrow(), &["r.long"]).unwrap().get(), '\u{27f6}');
    assert_eq!(apply(arrow(), &["long.r"]).unwrap().get(), '\u{27f6}');
}

#[test]
fn empty_modifier_on_fresh_symbol_changes_nothing() {
    assert_eq!(apply(arrow(), &[""]).unwrap().get(), '\u{2192}');
    assert_eq!(apply(arrow(), &["l", ""]).unwrap_err(), "unknown symbol modifier");
}

#[test]
fn unknown_modifier_stays_unknown_after_more() {
    assert!(apply(arrow(), &["up"]).is_err());
    let t = apply(arrow(), &["double"]).unwrap();
    assert!(t.modified("up").is_err());
}

#[test]
fn modified_keeps_variant_list() {
    let s = arrow();
    let t = apply(s.clone(), &["l"]).unwrap();
    assert_eq!(t.variants(), s.variants());
}

#[test]
fn runtime_and_modified_list_symbols_differ() {
    let list = vec![variant("", 'a'), variant("x", 'b')];
    let fixed = Symbol::list(list.clone()).modified("x").unwrap().0;
    let built = Symbol::runtime(list).modified("x").unwrap().0;
    assert_eq!(fixed.get(), built.get());
    assert_eq!(fixed.repr(), built.repr());
    assert_ne!(fixed, built);
    assert_eq!(fixed.clone(), fixed);
}

#[test]
fn variant_from_entries() {
    let v = SymbolVariant::from_entries(vec!["a.b".to_string(), "x".to_string()]).unwrap();
    assert_eq!(v, SymbolVariant::new("a.b".to_string(), 'x'));
    assert_eq!(
        SymbolVariant::from_entries(vec!["a".to_string()]).unwrap_err(),
        "variant array must contain exactly two entries"
    );
    assert_eq!(
        SymbolVariant::from_entries(vec!["a".to_string(), "x".to_string(), "y".to_string()])
            .unwrap_err(),
        "variant array must contain exactly two entries"
    );
    assert_eq!(
        SymbolVariant::from_entries(vec!["a".to_string(), "xy".to_string()]).unwrap_err(),
        "expected exactly one character"
    );
}

#[test]
fn every_symbol_has_a_variant() {
    assert_eq!(Symbol::single('x').variants().len(), 1);
    assert_eq!(apply(arrow(), &["l"]).unwrap().variants().len(), 6);
    assert_eq!(envelope().variants().len(), 5);
}
