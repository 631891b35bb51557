//! Symbols: a single character, or a list of variants selected by modifiers.

use vstd::prelude::*;
use codex::ModifierSet;
use crate::text::push_char;
use crate::repr::{
    array_like, push_array_like, push_quoted, push_str, quoted, repr_parts, repr_variants, spec_repr,
    symbol_word,
};
use crate::modifier_set::{
    insert_sorted, list_contains, modifiers_of, set_contains, split_modifiers, strictly_sorted,
    has_match, insert_modifier, insert_raw, lemma_best_match_unique,
    is_best_match, is_superset, no_double_dot,
};

verus! {

/// One variant of a symbol: its modifiers (separated by `.`), its character
/// and, if it is deprecated, the message to emit when it is selected.
#[derive(Clone, Debug, PartialEq, Eq, Hash)]
pub struct Variant {
    pub modifiers: String,
    pub c: char,
    pub deprecation: Option<String>,
}

/// What a variant holds, as plain values.
pub struct VariantModel {
    pub modifiers: Seq<char>,
    pub c: char,
    pub deprecation: Option<Seq<char>>,
}

impl View for Variant {
    type V = VariantModel;

    open spec fn view(&self) -> VariantModel {
        VariantModel { modifiers: self.modifiers@, c: self.c, deprecation: self.deprecation.deep_view() }
    }
}

/// The models of a list of variants.
pub open spec fn models(vs: Seq<Variant>) -> Seq<VariantModel> {
    Seq::new(vs.len(), |i: int| vs[i]@)
}

/// The modifier sets of a list of variants.
pub open spec fn modifier_column(vs: Seq<VariantModel>) -> Seq<Seq<char>> {
    Seq::new(vs.len(), |i: int| vs[i].modifiers)
}

/// No variant's modifier set holds an empty modifier between two dots.
pub open spec fn sets_well_formed(vs: Seq<VariantModel>) -> bool {
    forall|i: int| 0 <= i < vs.len() ==> no_double_dot(#[trigger] vs[i].modifiers)
}

/// The model of a symbol.
pub enum SymbolModel {
    /// A symbol with one character and no named variant.
    Single(char),
    /// A symbol with named variants and no modifier applied.
    Complex(Seq<VariantModel>),
    /// A symbol with named variants and the applied modifiers (dotted).
    Modified(Seq<VariantModel>, Seq<char>, ListKind),
}

/// Where the variant list of a modified symbol comes from: a fixed list,
/// or one built at run time.
#[derive(Clone, Copy, Debug, PartialEq, Eq, Hash)]
pub enum ListKind {
    Static,
    Runtime,
}

/// The variant that stands for a single character.
pub open spec fn plain_variant(c: char) -> VariantModel {
    VariantModel { modifiers: Seq::empty(), c, deprecation: None }
}

impl SymbolModel {
    /// The variants that the symbol covers.
    pub open spec fn variant_list(self) -> Seq<VariantModel> {
        match self {
            SymbolModel::Single(c) => seq![plain_variant(c)],
            SymbolModel::Complex(vs) => vs,
            SymbolModel::Modified(vs, _, _) => vs,
        }
    }

    /// The modifiers applied so far (dotted).
    pub open spec fn applied(self) -> Seq<char> {
        match self {
            SymbolModel::Modified(_, a, _) => a,
            _ => Seq::empty(),
        }
    }

    /// Where the variant list comes from (a fixed list unless the symbol
    /// was built at run time).
    pub open spec fn list_kind(self) -> ListKind {
        match self {
            SymbolModel::Modified(_, _, k) => k,
            _ => ListKind::Static,
        }
    }

    /// The invariant of every symbol: a non-empty list of well-formed
    /// variants, and applied modifiers that some variant holds.
    pub open spec fn wf(self) -> bool {
        match self {
            SymbolModel::Single(_) => true,
            SymbolModel::Complex(vs) => vs.len() > 0 && sets_well_formed(vs),
            SymbolModel::Modified(vs, a, _) => {
                &&& vs.len() > 0
                &&& sets_well_formed(vs)
                &&& has_match(a, modifier_column(vs))
            },
        }
    }

    /// The index of the selected variant: the best match for the applied
    /// modifiers.
    pub open spec fn selected(self) -> int {
        choose|i: int| is_best_match(self.applied(), modifier_column(self.variant_list()), i)
    }

    /// The symbol's character: that of the selected variant.
    pub open spec fn character(self) -> char {
        self.variant_list()[self.selected()].c
    }
}

/// The result of applying the modifier `m`: the new symbol and the
/// deprecation message of the variant it now selects, or nothing when no
/// variant holds all applied modifiers (and always for a single character).
pub open spec fn spec_modified(s: SymbolModel, m: Seq<char>) -> Option<(SymbolModel, Option<Seq<char>>)> {
    match s {
        SymbolModel::Single(_) => None,
        _ => {
            let vs = s.variant_list();
            let a = insert_modifier(s.applied(), m);
            if has_match(a, modifier_column(vs)) {
                let i = choose|i: int| is_best_match(a, modifier_column(vs), i);
                Some((SymbolModel::Modified(vs, a, s.list_kind()), vs[i].deprecation))
            } else {
                None
            }
        },
    }
}

/// The function that a symbol's character stands for, when it is callable.
#[derive(Clone, Copy, Debug, PartialEq, Eq)]
pub enum SymbolFunc {
    Ceil,
    Floor,
    Dash,
    Dot,
    DotDouble,
    DotTriple,
    DotQuad,
    Tilde,
    Acute,
    AcuteDouble,
    Breve,
    Caron,
    Hat,
    Grave,
    Macron,
    Circle,
    Arrow,
    ArrowL,
    ArrowLR,
    Harpoon,
    HarpoonLt,
}

/// The function that the character `c` stands for, if any.
pub open spec fn func_of(c: char) -> Option<SymbolFunc> {
    if c == '\u{2308}' {
        Some(SymbolFunc::Ceil)
    } else if c == '\u{230a}' {
        Some(SymbolFunc::Floor)
    } else if c == '\u{2013}' {
        Some(SymbolFunc::Dash)
    } else if c == '\u{22c5}' || c == '\u{0307}' {
        Some(SymbolFunc::Dot)
    } else if c == '\u{00a8}' {
        Some(SymbolFunc::DotDouble)
    } else if c == '\u{20db}' {
        Some(SymbolFunc::DotTriple)
    } else if c == '\u{20dc}' {
        Some(SymbolFunc::DotQuad)
    } else if c == '\u{223c}' {
        Some(SymbolFunc::Tilde)
    } else if c == '\u{00b4}' {
        Some(SymbolFunc::Acute)
    } else if c == '\u{02dd}' {
        Some(SymbolFunc::AcuteDouble)
    } else if c == '\u{02d8}' {
        Some(SymbolFunc::Breve)
    } else if c == '\u{02c7}' {
        Some(SymbolFunc::Caron)
    } else if c == '^' {
        Some(SymbolFunc::Hat)
    } else if c == '`' {
        Some(SymbolFunc::Grave)
    } else if c == '\u{00af}' {
        Some(SymbolFunc::Macron)
    } else if c == '\u{25cb}' {
        Some(SymbolFunc::Circle)
    } else if c == '\u{2192}' {
        Some(SymbolFunc::Arrow)
    } else if c == '\u{2190}' {
        Some(SymbolFunc::ArrowL)
    } else if c == '\u{2194}' {
        Some(SymbolFunc::ArrowLR)
    } else if c == '\u{21c0}' {
        Some(SymbolFunc::Harpoon)
    } else if c == '\u{21bc}' {
        Some(SymbolFunc::HarpoonLt)
    } else {
        None
    }
}

/// Some of the first `n` variants holds the modifier `m`.
pub open spec fn held_by_some(vs: Seq<VariantModel>, n: int, m: Seq<char>) -> bool {
    exists|i: int| 0 <= i < n && #[trigger] set_contains(vs[i].modifiers, m)
}

/// A modifier that could still be applied: a non-empty modifier of some
/// variant that is not applied yet.
pub open spec fn is_possible_modifier(s: SymbolModel, m: Seq<char>) -> bool {
    &&& m.len() > 0
    &&& !set_contains(s.applied(), m)
    &&& held_by_some(s.variant_list(), s.variant_list().len() as int, m)
}

#[derive(Debug, PartialEq, Eq, Hash)]
enum Repr {
    Single(char),
    Complex(Vec<Variant>),
    Modified(Vec<Variant>, String, ListKind),
}

/// A Unicode symbol, possibly with named variants.
#[derive(Debug, PartialEq, Eq, Hash)]
pub struct Symbol {
    repr: Repr,
}

impl View for Symbol {
    type V = SymbolModel;

    closed spec fn view(&self) -> SymbolModel {
        match &self.repr {
            Repr::Single(c) => SymbolModel::Single(*c),
            Repr::Complex(vs) => SymbolModel::Complex(models(vs@)),
            Repr::Modified(vs, a, k) => SymbolModel::Modified(models(vs@), a@, *k),
        }
    }
}

/// The best match among the variants for the applied modifiers, by index.
///
/// Calls `ModifierSet::best_match_in` of codex. The applied set is the
/// default (empty) set after `insert_raw` of the whole dotted string, which in
/// codex's source makes a set holding exactly that string, without the
/// debug assertion of `from_raw_dotted`; each variant's set is built with
/// `ModifierSet::from_raw_dotted`, which asserts (in debug builds) that no set
/// holds two dots in a row. The source of `best_match_in` keeps the
/// candidates that hold every applied modifier and among them returns the
/// first one with the best score: most modifiers in common with the applied
/// ones, then fewest modifiers.
#[verifier::external_body]
fn best_match_index(applied: &str, variants: &Vec<Variant>) -> (r: Option<usize>)
    requires
        sets_well_formed(models(variants@)),
    ensures
        r is Some <==> has_match(applied@, modifier_column(models(variants@))),
        r matches Some(i) ==> is_best_match(applied@, modifier_column(models(variants@)), i as int),
{
    let mut set = ModifierSet::<String>::default();
    set.insert_raw(applied);
    set.best_match_in(
        variants.iter().enumerate().map(|(i, v)| (ModifierSet::from_raw_dotted(v.modifiers.as_str()), i)),
    )
}

/// A variant with the same contents.
pub fn copy_variant(v: &Variant) -> (r: Variant)
    ensures
        r@ == v@,
{
    let deprecation = match &v.deprecation {
        Some(d) => Some(d.clone()),
        None => None,
    };
    Variant { modifiers: v.modifiers.clone(), c: v.c, deprecation }
}

/// A list of variants with the same contents.
pub fn copy_variants(vs: &Vec<Variant>) -> (r: Vec<Variant>)
    ensures
        models(r@) == models(vs@),
{
    let mut r: Vec<Variant> = Vec::new();
    let mut i: usize = 0;
    while i < vs.len()
        invariant
            i <= vs.len(),
            r.len() == i,
            forall|k: int| 0 <= k < i ==> r@[k]@ == vs@[k]@,
        decreases vs.len() - i,
    {
        r.push(copy_variant(&vs[i]));
        i = i + 1;
    }
    assert(models(r@) =~= models(vs@));
    r
}

impl Clone for Symbol {
    fn clone(&self) -> (r: Symbol)
        ensures
            r@ == self@,
            r@.wf(),
    {
        proof {
            use_type_invariant(self);
        }
        let repr = match &self.repr {
            Repr::Single(c) => Repr::Single(*c),
            Repr::Complex(vs) => Repr::Complex(copy_variants(vs)),
            Repr::Modified(vs, a, k) => Repr::Modified(copy_variants(vs), a.clone(), *k),
        };
        Symbol { repr }
    }
}

impl Symbol {
    #[verifier::type_invariant]
    spec fn inv(self) -> bool {
        self@.wf()
    }

    /// Create a new symbol from a single character.
    pub fn single(c: char) -> (r: Symbol)
        ensures
            r@ == SymbolModel::Single(c),
            r@.wf(),
    {
        Symbol { repr: Repr::Single(c) }
    }

    /// Create a symbol with a fixed variant list and no modifier applied.
    pub fn list(list: Vec<Variant>) -> (r: Symbol)
        requires
            list.len() > 0,
            sets_well_formed(models(list@)),
        ensures
            r@ == SymbolModel::Complex(models(list@)),
            r@.wf(),
    {
        Symbol { repr: Repr::Complex(list) }
    }

    /// Create a symbol with a variant list built at run time.
    pub fn runtime(list: Vec<Variant>) -> (r: Symbol)
        requires
            list.len() > 0,
            sets_well_formed(models(list@)),
        ensures
            r@ == SymbolModel::Modified(models(list@), Seq::empty(), ListKind::Runtime),
            r@.wf(),
    {
        let ghost vs = models(list@);
        proof {
            assert(is_superset(Seq::empty(), modifier_column(vs)[0]));
        }
        Symbol { repr: Repr::Modified(list, String::new(), ListKind::Runtime) }
    }

    /// Get the symbol's character: that of the variant that best matches the
    /// applied modifiers.
    pub fn get(&self) -> (r: char)
        ensures
            r == self@.character(),
            self@.wf(),
    {
        proof {
            use_type_invariant(self);
        }
        match &self.repr {
            Repr::Single(c) => {
                proof {
                    let cs = modifier_column(self@.variant_list());
                    assert(is_best_match(Seq::empty(), cs, 0));
                    lemma_best_match_unique(Seq::empty(), cs, 0, self@.selected());
                }
                *c
            },
            Repr::Complex(list) => {
                let none = String::new();
                proof {
                    assert(is_superset(Seq::empty(), modifier_column(models(list@))[0]));
                }
                match best_match_index(none.as_str(), list) {
                    Some(i) => {
                        proof {
                            let cs = modifier_column(models(list@));
                            lemma_best_match_unique(Seq::empty(), cs, i as int, self@.selected());
                        }
                        list[i].c
                    },
                    None => {
                        proof {
                            assert(false);
                        }
                        list[0].c
                    },
                }
            },
            Repr::Modified(list, applied, _) => {
                match best_match_index(applied.as_str(), list) {
                    Some(i) => {
                        proof {
                            let cs = modifier_column(models(list@));
                            lemma_best_match_unique(applied@, cs, i as int, self@.selected());
                        }
                        list[i].c
                    },
                    None => {
                        proof {
                            assert(false);
                        }
                        list[0].c
                    },
                }
            },
        }
    }

    /// Apply a modifier to the symbol.
    ///
    /// On success, returns the modified symbol together with the deprecation
    /// message of the variant it now selects, which the caller emits.
    pub fn modified(self, modifier: &str) -> (r: Result<(Symbol, Option<String>), String>)
        ensures
            match r {
                Ok((s, d)) => spec_modified(self@, modifier@) == Some((s@, d.deep_view())) && s@.wf(),
                Err(e) => spec_modified(self@, modifier@) is None && e@ == "unknown symbol modifier"@,
            },
    {
        proof {
            use_type_invariant(&self);
        }
        let ghost model = self@;
        let (list, mut applied, kind) = match self.repr {
            Repr::Single(_) => {
                return Err("unknown symbol modifier".to_owned());
            },
            Repr::Complex(list) => (list, String::new(), ListKind::Static),
            Repr::Modified(list, applied, kind) => (list, applied, kind),
        };
        assert(models(list@) == model.variant_list());
        assert(applied@ == model.applied());
        assert(kind == model.list_kind());
        insert_raw(&mut applied, modifier);
        match best_match_index(applied.as_str(), &list) {
            Some(i) => {
                let deprecation = match &list[i].deprecation {
                    Some(d) => Some(d.clone()),
                    None => None,
                };
                proof {
                    let cs = modifier_column(models(list@));
                    let k = choose|k: int| is_best_match(applied@, cs, k);
                    lemma_best_match_unique(applied@, cs, i as int, k);
                }
                Ok((Symbol { repr: Repr::Modified(list, applied, kind) }, deprecation))
            },
            None => Err("unknown symbol modifier".to_owned()),
        }
    }

    /// The variants that the symbol covers.
    pub fn variants(&self) -> (r: Vec<Variant>)
        ensures
            models(r@) == self@.variant_list(),
            r.len() >= 1,
    {
        proof {
            use_type_invariant(self);
        }
        match &self.repr {
            Repr::Single(c) => {
                let r = vec![Variant { modifiers: String::new(), c: *c, deprecation: None }];
                assert(models(r@) =~= seq![plain_variant(*c)]);
                r
            },
            Repr::Complex(vs) => copy_variants(vs),
            Repr::Modified(vs, _, _) => copy_variants(vs),
        }
    }

    /// The symbol as text: its character.
    pub fn display(&self) -> (r: String)
        ensures
            r@ == seq![self@.character()],
    {
        let mut r = String::new();
        push_char(&mut r, self.get());
        assert(r@ =~= seq![self@.character()]);
        r
    }

    /// The modifiers that could still be applied, each once, in the order of
    /// `str`.
    pub fn modifiers(&self) -> (r: Vec<String>)
        ensures
            strictly_sorted(r.deep_view()),
            forall|m: Seq<char>| #[trigger] r.deep_view().contains(m) <==> is_possible_modifier(self@, m),
    {
        let vs = self.variants();
        let applied: Vec<String> = match &self.repr {
            Repr::Modified(_, a, _) => split_modifiers(a.as_str()),
            _ => Vec::new(),
        };
        assert(applied.deep_view() =~= modifiers_of(self@.applied()));
        let ghost vms = self@.variant_list();
        let mut out: Vec<String> = Vec::new();
        let mut i: usize = 0;
        while i < vs.len()
            invariant
                i <= vs.len(),
                models(vs@) == vms,
                applied.deep_view() == modifiers_of(self@.applied()),
                strictly_sorted(out.deep_view()),
                forall|m: Seq<char>| #[trigger] out.deep_view().contains(m) <==> (m.len() > 0
                    && !applied.deep_view().contains(m) && held_by_some(vms, i as int, m)),
            decreases vs.len() - i,
        {
            let ms = split_modifiers(vs[i].modifiers.as_str());
            assert(ms.deep_view() == modifiers_of(vms[i as int].modifiers));
            let mut k: usize = 0;
            while k < ms.len()
                invariant
                    i < vs.len(),
                    k <= ms.len(),
                    models(vs@) == vms,
                    ms.deep_view() == modifiers_of(vms[i as int].modifiers),
                    applied.deep_view() == modifiers_of(self@.applied()),
                    strictly_sorted(out.deep_view()),
                    forall|m: Seq<char>| #[trigger] out.deep_view().contains(m) <==> (m.len() > 0
                        && !applied.deep_view().contains(m) && (held_by_some(vms, i as int, m)
                        || ms.deep_view().take(k as int).contains(m))),
                decreases ms.len() - k,
            {
                let ghost mk = ms.deep_view()[k as int];
                if ms[k].as_str().unicode_len() > 0 && !list_contains(&applied, ms[k].as_str()) {
                    insert_sorted(&mut out, ms[k].as_str());
                }
                let ghost tk = ms.deep_view().take(k as int);
                let ghost tk1 = ms.deep_view().take(k + 1);
                assert(tk1 =~= tk.push(mk));
                assert forall|m: Seq<char>| #[trigger] out.deep_view().contains(m) <==> (m.len() > 0
                    && !applied.deep_view().contains(m) && (held_by_some(vms, i as int, m)
                    || tk1.contains(m))) by {
                    if tk.contains(m) {
                        let j = choose|j: int| 0 <= j < tk.len() && tk[j] == m;
                        assert(tk1[j] == m);
                    }
                    if tk1.contains(m) && m != mk {
                        let j = choose|j: int| 0 <= j < tk1.len() && tk1[j] == m;
                        assert(tk[j] == m);
                    }
                    if m == mk {
                        assert(tk1[k as int] == m);
                    }
                }
                k = k + 1;
            }
            assert(ms.deep_view().take(ms.len() as int) =~= ms.deep_view());
            assert forall|m: Seq<char>| #[trigger] out.deep_view().contains(m) <==> (m.len() > 0
                && !applied.deep_view().contains(m) && held_by_some(vms, i + 1, m)) by {
                if held_by_some(vms, i + 1, m) && !held_by_some(vms, i as int, m) {
                    let j = choose|j: int| 0 <= j < i + 1 && #[trigger] set_contains(vms[j].modifiers, m);
                    assert(j == i);
                }
                if held_by_some(vms, i as int, m) {
                    let j = choose|j: int| 0 <= j < i && #[trigger] set_contains(vms[j].modifiers, m);
                    assert(set_contains(vms[j].modifiers, m));
                }
                if ms.deep_view().contains(m) {
                    assert(set_contains(vms[i as int].modifiers, m));
                }
            }
            i = i + 1;
        }
        assert forall|m: Seq<char>| #[trigger] out.deep_view().contains(m) <==> is_possible_modifier(
            self@,
            m,
        ) by {
            assert(set_contains(self@.applied(), m) == applied.deep_view().contains(m));
        }
        out
    }

    /// Try to get the function associated with the symbol, if any.
    pub fn func(&self) -> (r: Result<SymbolFunc, String>)
        ensures
            match r {
                Ok(f) => func_of(self@.character()) == Some(f),
                Err(e) => func_of(self@.character()) is None && e@ == "symbol "@ + seq![
                    self@.character(),
                ] + " is not callable"@,
            },
    {
        let c = self.get();
        if c == '\u{2308}' {
            Ok(SymbolFunc::Ceil)
        } else if c == '\u{230a}' {
            Ok(SymbolFunc::Floor)
        } else if c == '\u{2013}' {
            Ok(SymbolFunc::Dash)
        } else if c == '\u{22c5}' || c == '\u{0307}' {
            Ok(SymbolFunc::Dot)
        } else if c == '\u{00a8}' {
            Ok(SymbolFunc::DotDouble)
        } else if c == '\u{20db}' {
            Ok(SymbolFunc::DotTriple)
        } else if c == '\u{20dc}' {
            Ok(SymbolFunc::DotQuad)
        } else if c == '\u{223c}' {
            Ok(SymbolFunc::Tilde)
        } else if c == '\u{00b4}' {
            Ok(SymbolFunc::Acute)
        } else if c == '\u{02dd}' {
            Ok(SymbolFunc::AcuteDouble)
        } else if c == '\u{02d8}' {
            Ok(SymbolFunc::Breve)
        } else if c == '\u{02c7}' {
            Ok(SymbolFunc::Caron)
        } else if c == '^' {
            Ok(SymbolFunc::Hat)
        } else if c == '`' {
            Ok(SymbolFunc::Grave)
        } else if c == '\u{00af}' {
            Ok(SymbolFunc::Macron)
        } else if c == '\u{25cb}' {
            Ok(SymbolFunc::Circle)
        } else if c == '\u{2192}' {
            Ok(SymbolFunc::Arrow)
        } else if c == '\u{2190}' {
            Ok(SymbolFunc::ArrowL)
        } else if c == '\u{2194}' {
            Ok(SymbolFunc::ArrowLR)
        } else if c == '\u{21c0}' {
            Ok(SymbolFunc::Harpoon)
        } else if c == '\u{21bc}' {
            Ok(SymbolFunc::HarpoonLt)
        } else {
            let mut e = "symbol ".to_owned();
            push_char(&mut e, c);
            e.append(" is not callable");
            Err(e)
        }
    }

    /// The representation of the symbol, as `spec_repr` states it.
    pub fn repr(&self) -> (r: String)
        ensures
            r@ == spec_repr(self@),
    {
        let word = "symbol";
        proof {
            reveal_strlit("symbol");
            assert(word@ =~= symbol_word());
        }
        let mut r = String::new();
        push_str(&mut r, word);
        match &self.repr {
            Repr::Single(c) => {
                let mut t = String::new();
                push_char(&mut t, *c);
                push_char(&mut r, '(');
                push_quoted(&mut r, t.as_str());
                push_char(&mut r, ')');
                assert(t@ =~= seq![*c]);
                assert(r@ =~= symbol_word() + seq!['('] + quoted(seq![*c]) + seq![')']);
            },
            Repr::Complex(vs) => {
                let none = "";
                proof {
                    reveal_strlit("");
                    assert(none@ =~= Seq::<char>::empty());
                }
                let parts = repr_variants(vs, none);
                push_array_like(&mut r, &parts);
                assert(r@ =~= symbol_word() + array_like(repr_parts(models(vs@), Seq::empty())));
            },
            Repr::Modified(vs, a, _) => {
                let parts = repr_variants(vs, a.as_str());
                push_array_like(&mut r, &parts);
                assert(r@ =~= symbol_word() + array_like(repr_parts(models(vs@), a@)));
            },
        }
        r
    }
}

} // verus!
