//! Custom symbols built from a list of variants, with the checks that the
//! list must pass.

use vstd::prelude::*;
use crate::ident::{is_ident, spec_is_ident};
use crate::modifier_set::{
    all_contained, lemma_nonempty_modifiers_no_double_dot, modifiers_of, split_modifiers,
};
use crate::modifier_set::no_double_dot;
use crate::symbol::{ListKind, models, sets_well_formed, Symbol, SymbolModel, Variant, VariantModel};
use crate::text::{lemma_lex_irreflexive, lemma_lex_total, lemma_lex_transitive, lex_less, lex_lt, str_equal};

verus! {

/// A variant given for a custom symbol: its modifiers, separated by dots
/// (empty for the variant without modifiers), and its character.
#[derive(Clone, Debug, PartialEq, Eq)]
pub struct SymbolVariant(pub String, pub char);

/// What a given variant holds, as plain values.
pub struct SymbolVariantModel {
    pub modifiers: Seq<char>,
    pub c: char,
}

impl View for SymbolVariant {
    type V = SymbolVariantModel;

    open spec fn view(&self) -> SymbolVariantModel {
        SymbolVariantModel { modifiers: self.0@, c: self.1 }
    }
}

/// The models of a list of given variants.
pub open spec fn given_models(vs: Seq<SymbolVariant>) -> Seq<SymbolVariantModel> {
    Seq::new(vs.len(), |i: int| vs[i]@)
}

impl SymbolVariant {
    /// The variant without modifiers for the character `c`.
    pub fn from_char(c: char) -> (r: SymbolVariant)
        ensures
            r@ == (SymbolVariantModel { modifiers: Seq::empty(), c }),
    {
        SymbolVariant(String::new(), c)
    }

    /// A variant given as an array of entries: exactly two, the dotted
    /// modifiers and a string of exactly one character.
    pub fn from_entries(entries: Vec<String>) -> (r: Result<SymbolVariant, String>)
        ensures
            match r {
                Ok(v) => entries.len() == 2 && entries@[1]@.len() == 1 && v@ == (SymbolVariantModel {
                    modifiers: entries@[0]@,
                    c: entries@[1]@[0],
                }),
                Err(e) => if entries.len() != 2 {
                    e@ == "variant array must contain exactly two entries"@
                } else {
                    entries@[1]@.len() != 1 && e@ == "expected exactly one character"@
                },
            },
    {
        if entries.len() != 2 {
            return Err("variant array must contain exactly two entries".to_owned());
        }
        let text = entries[1].as_str();
        if text.unicode_len() != 1 {
            return Err("expected exactly one character".to_owned());
        }
        let c = text.get_char(0);
        Ok(SymbolVariant(entries[0].clone(), c))
    }

    /// The variant with the dotted modifiers `modifiers` for `c`.
    pub fn new(modifiers: String, c: char) -> (r: SymbolVariant)
        ensures
            r@ == (SymbolVariantModel { modifiers: modifiers@, c }),
    {
        SymbolVariant(modifiers, c)
    }
}

/// Why a list of variants was refused. `index` is the position of the
/// offending variant in the list.
#[derive(Clone, Debug, PartialEq, Eq)]
pub enum ConstructError {
    /// The list is empty.
    NoVariants,
    /// A modifier is not an identifier.
    InvalidModifier { index: usize, modifier: String },
    /// A modifier occurs twice within one variant.
    DuplicateModifier { index: usize, modifier: String },
    /// A second variant without modifiers.
    DuplicateDefault { index: usize },
    /// A variant with the same modifiers as an earlier one; `same_text`
    /// tells whether they were also written in the same order.
    DuplicateVariant { index: usize, variant: String, same_text: bool },
}

/// The model of a refusal.
pub enum ConstructErrorModel {
    NoVariants,
    InvalidModifier { index: int, modifier: Seq<char> },
    DuplicateModifier { index: int, modifier: Seq<char> },
    DuplicateDefault { index: int },
    DuplicateVariant { index: int, variant: Seq<char>, same_text: bool },
}

impl View for ConstructError {
    type V = ConstructErrorModel;

    open spec fn view(&self) -> ConstructErrorModel {
        match self {
            ConstructError::NoVariants => ConstructErrorModel::NoVariants,
            ConstructError::InvalidModifier { index, modifier } => ConstructErrorModel::InvalidModifier {
                index: *index as int,
                modifier: modifier@,
            },
            ConstructError::DuplicateModifier { index, modifier } =>
                ConstructErrorModel::DuplicateModifier { index: *index as int, modifier: modifier@ },
            ConstructError::DuplicateDefault { index } => ConstructErrorModel::DuplicateDefault {
                index: *index as int,
            },
            ConstructError::DuplicateVariant { index, variant, same_text } =>
                ConstructErrorModel::DuplicateVariant {
                index: *index as int,
                variant: variant@,
                same_text: *same_text,
            },
        }
    }
}

/// Every modifier is an identifier.
pub open spec fn all_idents(mods: Seq<Seq<char>>) -> bool {
    forall|k: int| 0 <= k < mods.len() ==> spec_is_ident(#[trigger] mods[k])
}

/// `k` is the first modifier that is not an identifier.
pub open spec fn is_first_invalid(mods: Seq<Seq<char>>, k: int) -> bool {
    &&& 0 <= k < mods.len()
    &&& !spec_is_ident(mods[k])
    &&& forall|j: int| 0 <= j < k ==> spec_is_ident(#[trigger] mods[j])
}

/// `m` occurs at least twice.
pub open spec fn repeated(mods: Seq<Seq<char>>, m: Seq<char>) -> bool {
    exists|a: int, b: int| 0 <= a < b < mods.len() && #[trigger] mods[a] == m && #[trigger] mods[b] == m
}

/// Some modifier occurs at least twice.
pub open spec fn has_repeat(mods: Seq<Seq<char>>) -> bool {
    exists|m: Seq<char>| #[trigger] repeated(mods, m)
}

/// `m` is the smallest (in the order of `str`) of the repeated modifiers.
pub open spec fn is_least_repeat(mods: Seq<Seq<char>>, m: Seq<char>) -> bool {
    &&& repeated(mods, m)
    &&& forall|x: Seq<char>| #[trigger] repeated(mods, x) ==> !lex_lt(x, m)
}

/// Two lists hold the same modifiers.
pub open spec fn same_modifiers(x: Seq<Seq<char>>, y: Seq<Seq<char>>) -> bool {
    x.to_set() == y.to_set()
}

/// The modifiers of a given variant.
pub open spec fn given_modifiers(v: SymbolVariantModel) -> Seq<Seq<char>> {
    modifiers_of(v.modifiers)
}

/// Variant `j` is the first one before `i` with the same modifiers.
pub open spec fn is_first_same(vs: Seq<SymbolVariantModel>, i: int, j: int) -> bool {
    &&& 0 <= j < i
    &&& same_modifiers(given_modifiers(vs[j]), given_modifiers(vs[i]))
    &&& forall|k: int|
        0 <= k < j ==> !same_modifiers(#[trigger] given_modifiers(vs[k]), given_modifiers(vs[i]))
}

/// Some variant before `i` has the same modifiers.
pub open spec fn has_earlier_same(vs: Seq<SymbolVariantModel>, i: int) -> bool {
    exists|j: int| 0 <= j < i && same_modifiers(#[trigger] given_modifiers(vs[j]), given_modifiers(vs[i]))
}

/// The check of variant `i`: its modifiers must be identifiers, none may
/// occur twice, and no earlier variant may have the same modifiers.
pub open spec fn variant_error(vs: Seq<SymbolVariantModel>, i: int) -> Option<ConstructErrorModel> {
    let mods = given_modifiers(vs[i]);
    if !all_idents(mods) {
        Some(
            ConstructErrorModel::InvalidModifier {
                index: i,
                modifier: mods[choose|k: int| is_first_invalid(mods, k)],
            },
        )
    } else if has_repeat(mods) {
        Some(
            ConstructErrorModel::DuplicateModifier {
                index: i,
                modifier: choose|m: Seq<char>| is_least_repeat(mods, m),
            },
        )
    } else if has_earlier_same(vs, i) {
        let j = choose|j: int| is_first_same(vs, i, j);
        if vs[i].modifiers.len() == 0 {
            Some(ConstructErrorModel::DuplicateDefault { index: i })
        } else {
            Some(
                ConstructErrorModel::DuplicateVariant {
                    index: i,
                    variant: vs[i].modifiers,
                    same_text: vs[i].modifiers == vs[j].modifiers,
                },
            )
        }
    } else {
        None
    }
}

/// Variant `i` is the first that fails its check.
pub open spec fn is_first_failing(vs: Seq<SymbolVariantModel>, i: int) -> bool {
    &&& 0 <= i < vs.len()
    &&& variant_error(vs, i) is Some
    &&& forall|j: int| 0 <= j < i ==> #[trigger] variant_error(vs, j) is None
}

/// The variants of the symbol built from the given ones.
pub open spec fn runtime_models(vs: Seq<SymbolVariantModel>) -> Seq<VariantModel> {
    Seq::new(
        vs.len(),
        |i: int| VariantModel { modifiers: vs[i].modifiers, c: vs[i].c, deprecation: None },
    )
}

/// The outcome of building a symbol: refused if the list is empty, else
/// refused at the first variant that fails its check, else a symbol with
/// these variants and no modifier applied.
pub open spec fn spec_construct(vs: Seq<SymbolVariantModel>) -> Result<SymbolModel, ConstructErrorModel> {
    if vs.len() == 0 {
        Err(ConstructErrorModel::NoVariants)
    } else if exists|i: int| #[trigger] is_first_failing(vs, i) {
        Err(variant_error(vs, choose|i: int| is_first_failing(vs, i))->0)
    } else {
        Ok(SymbolModel::Modified(runtime_models(vs), Seq::empty(), ListKind::Runtime))
    }
}

/// The first modifier that is not an identifier, if any.
fn first_invalid(mods: &Vec<String>) -> (r: Option<usize>)
    ensures
        r is None <==> all_idents(mods.deep_view()),
        r matches Some(k) ==> is_first_invalid(mods.deep_view(), k as int),
{
    let mut k: usize = 0;
    while k < mods.len()
        invariant
            k <= mods.len(),
            forall|j: int| 0 <= j < k ==> spec_is_ident(#[trigger] mods.deep_view()[j]),
        decreases mods.len() - k,
    {
        if !is_ident(mods[k].as_str()) {
            assert(!spec_is_ident(mods.deep_view()[k as int]));
            assert(!all_idents(mods.deep_view()));
            return Some(k);
        }
        k = k + 1;
    }
    None
}

/// Whether the entry at `a` occurs again later.
fn occurs_later(mods: &Vec<String>, a: usize) -> (r: bool)
    requires
        a < mods.len(),
    ensures
        r == exists|b: int| a < b < mods.len() && #[trigger] mods.deep_view()[b] == mods.deep_view()[a as int],
{
    let mut b: usize = a + 1;
    while b < mods.len()
        invariant
            a < b <= mods.len(),
            forall|k: int| a < k < b ==> #[trigger] mods.deep_view()[k] != mods.deep_view()[a as int],
        decreases mods.len() - b,
    {
        if str_equal(mods[a].as_str(), mods[b].as_str()) {
            assert(mods.deep_view()[b as int] == mods.deep_view()[a as int]);
            return true;
        }
        b = b + 1;
    }
    false
}

/// The position of the smallest repeated modifier, if any.
fn least_repeat(mods: &Vec<String>) -> (r: Option<usize>)
    ensures
        r is None <==> !has_repeat(mods.deep_view()),
        r matches Some(a) ==> a < mods.len() && is_least_repeat(mods.deep_view(), mods.deep_view()[a as int]),
{
    let ghost dv = mods.deep_view();
    let mut best: Option<usize> = None;
    let mut a: usize = 0;
    while a < mods.len()
        invariant
            a <= mods.len(),
            dv == mods.deep_view(),
            best is None ==> forall|p: int, q: int|
                0 <= p < q < dv.len() && p < a ==> #[trigger] dv[p] != #[trigger] dv[q],
            best matches Some(z) ==> z < a && repeated(dv, dv[z as int]) && forall|p: int, q: int|
                0 <= p < q < dv.len() && p < a && #[trigger] dv[p] == #[trigger] dv[q] ==> !lex_lt(
                    dv[p],
                    dv[z as int],
                ),
        decreases mods.len() - a,
    {
        if occurs_later(mods, a) {
            let ghost b = choose|b: int| a < b < mods.len() && #[trigger] dv[b] == dv[a as int];
            assert(repeated(dv, dv[a as int])) by {
                assert(dv[a as int] == dv[a as int] && dv[b] == dv[a as int]);
            }
            match best {
                None => {
                    proof {
                        lemma_lex_irreflexive(dv[a as int]);
                    }
                    best = Some(a);
                },
                Some(z) => {
                    if lex_less(mods[a].as_str(), mods[z].as_str()) {
                        proof {
                            assert forall|p: int, q: int|
                                0 <= p < q < dv.len() && p < a + 1 && #[trigger] dv[p] == #[trigger] dv[q]
                                implies !lex_lt(dv[p], dv[a as int]) by {
                                if p < a {
                                    if lex_lt(dv[p], dv[a as int]) {
                                        lemma_lex_transitive(dv[p], dv[a as int], dv[z as int]);
                                    }
                                } else {
                                    lemma_lex_irreflexive(dv[a as int]);
                                }
                            }
                        }
                        best = Some(a);
                    }
                },
            }
        } else {
            proof {
                assert forall|p: int, q: int|
                    0 <= p < q < dv.len() && p == a implies #[trigger] dv[p] != #[trigger] dv[q] by {
                    if dv[p] == dv[q] {
                        assert(dv[q] == dv[a as int]);
                    }
                }
            }
        }
        a = a + 1;
    }
    proof {
        if best is None {
            if has_repeat(dv) {
                let m = choose|m: Seq<char>| #[trigger] repeated(dv, m);
                let (p, q) = choose|p: int, q: int| 0 <= p < q < dv.len() && #[trigger] dv[p] == m && #[trigger] dv[q] == m;
                assert(dv[p] == dv[q]);
            }
        } else {
            let z = best->0;
            assert(has_repeat(dv)) by {
                assert(repeated(dv, dv[z as int]));
            }
            assert forall|x: Seq<char>| #[trigger] repeated(dv, x) implies !lex_lt(x, dv[z as int]) by {
                let (p, q) = choose|p: int, q: int| 0 <= p < q < dv.len() && #[trigger] dv[p] == x && #[trigger] dv[q] == x;
                assert(dv[p] == dv[q]);
            }
        }
    }
    best
}

/// Whether two lists hold the same modifiers.
fn same_members(x: &Vec<String>, y: &Vec<String>) -> (r: bool)
    ensures
        r == same_modifiers(x.deep_view(), y.deep_view()),
{
    let xy = all_contained(x, y);
    let yx = all_contained(y, x);
    proof {
        let xs = x.deep_view();
        let ys = y.deep_view();
        if xy && yx {
            assert forall|m: Seq<char>| xs.contains(m) == ys.contains(m) by {
                if xs.contains(m) {
                    let k = choose|k: int| 0 <= k < xs.len() && xs[k] == m;
                    assert(ys.contains(xs[k]));
                }
                if ys.contains(m) {
                    let k = choose|k: int| 0 <= k < ys.len() && ys[k] == m;
                    assert(xs.contains(ys[k]));
                }
            }
            assert(xs.to_set() =~= ys.to_set());
        } else if !xy {
            let k = choose|k: int| 0 <= k < xs.len() && !ys.contains(#[trigger] xs[k]);
            assert(xs.to_set().contains(xs[k]));
            assert(!ys.to_set().contains(xs[k]));
        } else {
            let k = choose|k: int| 0 <= k < ys.len() && !xs.contains(#[trigger] ys[k]);
            assert(ys.to_set().contains(ys[k]));
            assert(!xs.to_set().contains(ys[k]));
        }
    }
    xy && yx
}

/// Only one variant is the first to fail.
proof fn lemma_first_failing_unique(vs: Seq<SymbolVariantModel>, i: int, k: int)
    requires
        is_first_failing(vs, i),
        is_first_failing(vs, k),
    ensures
        i == k,
{
    if i < k {
        assert(variant_error(vs, i) is None);
    } else if k < i {
        assert(variant_error(vs, k) is None);
    }
}

/// Only one modifier is the smallest repeated one.
proof fn lemma_least_repeat_unique(mods: Seq<Seq<char>>, m1: Seq<char>, m2: Seq<char>)
    requires
        is_least_repeat(mods, m1),
        is_least_repeat(mods, m2),
    ensures
        m1 == m2,
{
    assert(!lex_lt(m2, m1));
    assert(!lex_lt(m1, m2));
    lemma_lex_total(m1, m2);
}

impl Symbol {
    /// Create a custom symbol from its variants.
    ///
    /// Each variant gives its modifiers separated by dots (none for the
    /// default variant) and its character. The list is refused when it is
    /// empty, or at the first variant whose modifiers are not identifiers,
    /// that holds a modifier twice, or whose modifiers (in any order) are
    /// those of an earlier variant.
    pub fn construct(variants: Vec<SymbolVariant>) -> (r: Result<Symbol, ConstructError>)
        ensures
            match r {
                Ok(s) => spec_construct(given_models(variants@)) == Ok::<SymbolModel, ConstructErrorModel>(s@)
                    && s@.wf(),
                Err(e) => spec_construct(given_models(variants@)) == Err::<SymbolModel, ConstructErrorModel>(e@),
            },
    {
        let ghost vs = given_models(variants@);
        if variants.len() == 0 {
            return Err(ConstructError::NoVariants);
        }
        let mut seen: Vec<Vec<String>> = Vec::new();
        let mut i: usize = 0;
        while i < variants.len()
            invariant
                i <= variants.len(),
                vs == given_models(variants@),
                seen.len() == i,
                forall|j: int| 0 <= j < i ==> (#[trigger] seen@[j]).deep_view() == given_modifiers(vs[j]),
                forall|j: int| 0 <= j < i ==> #[trigger] variant_error(vs, j) is None,
            decreases variants.len() - i,
        {
            let mods = split_modifiers(variants[i].0.as_str());
            let ghost dv = mods.deep_view();
            assert(dv == given_modifiers(vs[i as int]));
            if let Some(k) = first_invalid(&mods) {
                let e = ConstructError::InvalidModifier { index: i, modifier: mods[k].clone() };
                proof {
                    let k2 = choose|k2: int| is_first_invalid(dv, k2);
                    assert(k2 == k as int) by {
                        if k2 < k {
                            assert(spec_is_ident(dv[k2]));
                        } else if k < k2 {
                            assert(spec_is_ident(dv[k as int]));
                        }
                    }
                    assert(is_first_failing(vs, i as int));
                    let i2 = choose|i2: int| is_first_failing(vs, i2);
                    lemma_first_failing_unique(vs, i as int, i2);
                }
                return Err(e);
            }
            if let Some(a) = least_repeat(&mods) {
                let e = ConstructError::DuplicateModifier { index: i, modifier: mods[a].clone() };
                proof {
                    let m2 = choose|m2: Seq<char>| is_least_repeat(dv, m2);
                    lemma_least_repeat_unique(dv, dv[a as int], m2);
                    assert(is_first_failing(vs, i as int));
                    let i2 = choose|i2: int| is_first_failing(vs, i2);
                    lemma_first_failing_unique(vs, i as int, i2);
                }
                return Err(e);
            }
            let mut j: usize = 0;
            while j < i
                invariant
                    j <= i,
                    i < variants.len(),
                    vs == given_models(variants@),
                    seen.len() == i,
                    dv == mods.deep_view(),
                    dv == given_modifiers(vs[i as int]),
                    forall|k: int| 0 <= k < i ==> (#[trigger] seen@[k]).deep_view() == given_modifiers(vs[k]),
                    forall|k: int|
                        0 <= k < j ==> !same_modifiers(#[trigger] given_modifiers(vs[k]), given_modifiers(vs[i as int])),
                    forall|k: int| 0 <= k < i ==> #[trigger] variant_error(vs, k) is None,
                    all_idents(dv),
                    !has_repeat(dv),
                decreases i - j,
            {
                if same_members(&seen[j], &mods) {
                    assert(is_first_same(vs, i as int, j as int));
                    let empty = variants[i].0.as_str().unicode_len() == 0;
                    let e = if empty {
                        ConstructError::DuplicateDefault { index: i }
                    } else {
                        let same_text = str_equal(variants[i].0.as_str(), variants[j].0.as_str());
                        ConstructError::DuplicateVariant { index: i, variant: variants[i].0.clone(), same_text }
                    };
                    proof {
                        let j2 = choose|j2: int| is_first_same(vs, i as int, j2);
                        assert(j2 == j as int) by {
                            if j2 < j {
                                assert(!same_modifiers(given_modifiers(vs[j2]), given_modifiers(vs[i as int])));
                            } else if j < j2 {
                                assert(!same_modifiers(given_modifiers(vs[j as int]), given_modifiers(vs[i as int])));
                            }
                        }
                        assert(has_earlier_same(vs, i as int));
                        assert(is_first_failing(vs, i as int));
                        let i2 = choose|i2: int| is_first_failing(vs, i2);
                        lemma_first_failing_unique(vs, i as int, i2);
                    }
                    return Err(e);
                }
                j = j + 1;
            }
            proof {
                if has_earlier_same(vs, i as int) {
                    let k = choose|k: int| 0 <= k < i && same_modifiers(#[trigger] given_modifiers(vs[k]), given_modifiers(vs[i as int]));
                    assert(!same_modifiers(given_modifiers(vs[k]), given_modifiers(vs[i as int])));
                }
                assert(variant_error(vs, i as int) is None);
            }
            seen.push(mods);
            i = i + 1;
        }
        let mut list: Vec<Variant> = Vec::new();
        let mut k: usize = 0;
        while k < variants.len()
            invariant
                k <= variants.len(),
                vs == given_models(variants@),
                list.len() == k,
                forall|q: int| 0 <= q < k ==> (#[trigger] list@[q])@ == runtime_models(vs)[q],
            decreases variants.len() - k,
        {
            list.push(Variant { modifiers: variants[k].0.clone(), c: variants[k].1, deprecation: None });
            k = k + 1;
        }
        assert(models(list@) =~= runtime_models(vs));
        proof {
            assert forall|q: int| 0 <= q < models(list@).len() implies no_double_dot(
                #[trigger] models(list@)[q].modifiers,
            ) by {
                assert(models(list@)[q].modifiers == vs[q].modifiers);
                assert(variant_error(vs, q) is None);
                let mods = given_modifiers(vs[q]);
                assert forall|t: int| 0 <= t < mods.len() implies (#[trigger] mods[t]).len() > 0 by {
                    assert(spec_is_ident(mods[t]));
                }
                lemma_nonempty_modifiers_no_double_dot(vs[q].modifiers);
            }
            if exists|i: int| #[trigger] is_first_failing(vs, i) {
                let i = choose|i: int| #[trigger] is_first_failing(vs, i);
                assert(variant_error(vs, i) is None);
            }
        }
        Ok(Symbol::runtime(list))
    }
}

} // verus!
