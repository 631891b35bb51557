//! Properties of symbols that span several operations.

use vstd::prelude::*;
use crate::modifier_set::{
    has_match, insert_modifier, is_best_match, is_single_modifier, is_superset,
    lemma_best_match_exists, lemma_best_match_same_members, lemma_best_match_unique,
    lemma_insert_modifier, lemma_superset_monotone, lemma_push_two_same_members, modifiers_of,
    set_contains, split_all, lemma_split_concat, lemma_split_all_nonempty, count_members, total_count, common_count, ranks_above,
};
use crate::symbol::{
    func_of, held_by_some, is_possible_modifier, modifier_column, spec_modified, ListKind,
    SymbolFunc, SymbolModel, VariantModel,
};
use crate::repr::{repr_parts, spec_repr, variant_part, without};
use crate::construct::{
    all_idents, given_modifiers, has_earlier_same, has_repeat, is_first_failing, repeated,
    runtime_models, same_modifiers, spec_construct, variant_error, ConstructErrorModel,
    SymbolVariantModel,
};

verus! {

/// Applying `m1`, then `m2`.
pub open spec fn modified_twice(s: SymbolModel, m1: Seq<char>, m2: Seq<char>) -> Option<
    (SymbolModel, Option<Seq<char>>),
> {
    match spec_modified(s, m1) {
        Some((t, _)) => spec_modified(t, m2),
        None => None,
    }
}

/// The order of the modifiers is not relevant: applying two modifiers in
/// either order succeeds in both cases or in neither, and then selects the
/// same character and reports the same deprecation.
pub proof fn law_modifier_order_irrelevant(s: SymbolModel, m1: Seq<char>, m2: Seq<char>)
    requires
        s.wf(),
        is_single_modifier(m1),
        is_single_modifier(m2),
    ensures
        modified_twice(s, m1, m2) is Some <==> modified_twice(s, m2, m1) is Some,
        modified_twice(s, m1, m2) is Some ==> {
            &&& modified_twice(s, m1, m2).unwrap().0.character() == modified_twice(
                s,
                m2,
                m1,
            ).unwrap().0.character()
            &&& modified_twice(s, m1, m2).unwrap().1 == modified_twice(s, m2, m1).unwrap().1
        },
{
    if s is Single {
        return;
    }
    let vs = s.variant_list();
    let cs = modifier_column(vs);
    let a = s.applied();
    let a1 = insert_modifier(a, m1);
    let a2 = insert_modifier(a, m2);
    let a12 = insert_modifier(a1, m2);
    let a21 = insert_modifier(a2, m1);
    lemma_insert_modifier(a, m1);
    lemma_insert_modifier(a, m2);
    lemma_insert_modifier(a1, m2);
    lemma_insert_modifier(a2, m1);
    let ma = modifiers_of(a);
    assert(modifiers_of(a12) == ma.push(m1).push(m2));
    assert(modifiers_of(a21) == ma.push(m2).push(m1));
    assert forall|m: Seq<char>| set_contains(a12, m) == set_contains(a21, m) by {
        lemma_push_two_same_members(ma, m1, m2, m);
    }
    assert forall|m: Seq<char>| set_contains(a1, m) implies set_contains(a12, m) by {
        {
            let k = choose|k: int| 0 <= k < modifiers_of(a1).len() && modifiers_of(a1)[k] == m;
            assert(modifiers_of(a12)[k] == m);
        }
    }
    assert forall|m: Seq<char>| set_contains(a2, m) implies set_contains(a21, m) by {
        {
            let k = choose|k: int| 0 <= k < modifiers_of(a2).len() && modifiers_of(a2)[k] == m;
            assert(modifiers_of(a21)[k] == m);
        }
    }
    lemma_superset_monotone(a1, a12, cs);
    lemma_superset_monotone(a2, a21, cs);
    lemma_best_match_same_members(a12, a21, cs, 0);
    if has_match(a12, cs) {
        lemma_best_match_exists(a12, cs);
        let i1 = choose|i: int| is_best_match(a12, cs, i);
        lemma_best_match_same_members(a12, a21, cs, i1);
        let i2 = choose|i: int| is_best_match(a21, cs, i);
        lemma_best_match_unique(a21, cs, i1, i2);
        let t = SymbolModel::Modified(vs, a12, s.list_kind());
        let u = SymbolModel::Modified(vs, a21, s.list_kind());
        assert(t.variant_list() == vs && t.applied() == a12);
        assert(u.variant_list() == vs && u.applied() == a21);
    }
}

/// Applying a modifier keeps a symbol well formed: the result still has a
/// variant that holds every applied modifier, so its character is defined.
pub proof fn law_modified_stays_well_formed(s: SymbolModel, m: Seq<char>)
    requires
        s.wf(),
        spec_modified(s, m) is Some,
    ensures
        spec_modified(s, m).unwrap().0.wf(),
        exists|i: int|
            is_best_match(
                spec_modified(s, m).unwrap().0.applied(),
                modifier_column(spec_modified(s, m).unwrap().0.variant_list()),
                i,
            ),
{
    let t = spec_modified(s, m).unwrap().0;
    lemma_best_match_exists(t.applied(), modifier_column(t.variant_list()));
}

/// Every well-formed symbol selects a variant: the one that best matches
/// its applied modifiers.
pub proof fn law_character_defined(s: SymbolModel)
    requires
        s.wf(),
    ensures
        is_best_match(s.applied(), modifier_column(s.variant_list()), s.selected()),
{
    let cs = modifier_column(s.variant_list());
    if s is Single {
        assert(is_best_match(Seq::empty(), cs, 0));
    } else {
        if s is Complex {
            assert(is_superset(Seq::empty(), cs[0]));
        }
        lemma_best_match_exists(s.applied(), cs);
    }
}

/// Appending a modifier after others keeps every modifier that appending it
/// alone would give.
proof fn lemma_insert_after_keeps_members(a: Seq<char>, m2: Seq<char>, m: Seq<char>, e: Seq<char>)
    requires
        set_contains(insert_modifier(a, m), e),
    ensures
        set_contains(insert_modifier(insert_modifier(a, m2), m), e),
{
    let a2 = insert_modifier(a, m2);
    let big = insert_modifier(a2, m);
    let small = insert_modifier(a, m);
    if a.len() == 0 {
        if m2.len() > 0 {
            lemma_split_concat(m2, m);
            assert(big == m2 + seq!['.'] + m);
            assert(modifiers_of(big) == split_all(m2) + split_all(m));
            let k = choose|k: int| 0 <= k < modifiers_of(small).len() && modifiers_of(small)[k] == e;
            assert(modifiers_of(small) == split_all(m));
            lemma_split_all_nonempty(m2);
            assert(modifiers_of(big)[split_all(m2).len() + k] == e);
        } else {
            assert(big == small);
        }
    } else {
        lemma_split_concat(a, m2);
        lemma_split_concat(a, m);
        lemma_split_concat(a + seq!['.'] + m2, m);
        assert(a2 == a + seq!['.'] + m2);
        assert(a2.len() > 0);
        assert(modifiers_of(small) == split_all(a) + split_all(m));
        assert(modifiers_of(big) == split_all(a) + split_all(m2) + split_all(m));
        let k = choose|k: int| 0 <= k < modifiers_of(small).len() && modifiers_of(small)[k] == e;
        let la = split_all(a).len() as int;
        if k < la {
            assert(modifiers_of(big)[k] == e);
        } else {
            assert(modifiers_of(big)[k + split_all(m2).len()] == e);
        }
    }
}

/// Applying more modifiers never makes an unknown modifier valid.
pub proof fn law_unknown_modifier_stays_unknown(s: SymbolModel, m: Seq<char>, m2: Seq<char>)
    requires
        s.wf(),
        spec_modified(s, m) is None,
        spec_modified(s, m2) is Some,
    ensures
        spec_modified(spec_modified(s, m2).unwrap().0, m) is None,
{
    let a = s.applied();
    let cs = modifier_column(s.variant_list());
    let t = spec_modified(s, m2).unwrap().0;
    assert(t.variant_list() == s.variant_list() && t.applied() == insert_modifier(a, m2));
    assert forall|e: Seq<char>| set_contains(insert_modifier(a, m), e) implies set_contains(
        insert_modifier(insert_modifier(a, m2), m),
        e,
    ) by {
        lemma_insert_after_keeps_members(a, m2, m, e);
    }
    lemma_superset_monotone(insert_modifier(a, m), insert_modifier(insert_modifier(a, m2), m), cs);
}

/// Applying a modifier keeps the full list of variants, in order; only the
/// applied modifiers change.
pub proof fn law_modified_keeps_variants(s: SymbolModel, m: Seq<char>)
    requires
        spec_modified(s, m) is Some,
    ensures
        spec_modified(s, m).unwrap().0.variant_list() == s.variant_list(),
        spec_modified(s, m).unwrap().0.applied() == insert_modifier(s.applied(), m),
{
}

/// A symbol made of a single character shows that character.
pub proof fn law_single_character(c: char)
    ensures
        SymbolModel::Single(c).character() == c,
{
    let s = SymbolModel::Single(c);
    let cs = modifier_column(s.variant_list());
    assert(is_best_match(Seq::empty(), cs, 0));
    lemma_best_match_unique(Seq::empty(), cs, 0, s.selected());
}

/// No entry occurs twice.
pub open spec fn no_repeats(list: Seq<Seq<char>>) -> bool {
    forall|a: int, b: int| 0 <= a < b < list.len() ==> #[trigger] list[a] != #[trigger] list[b]
}

/// How many modifiers `candidate` has beyond the applied ones.
pub open spec fn other_count(applied: Seq<char>, candidate: Seq<char>) -> int {
    total_count(candidate) - common_count(applied, candidate)
}

/// Counting the members of a list without repeats counts the values it
/// shares with the pool.
proof fn lemma_count_members_distinct(list: Seq<Seq<char>>, pool: Seq<Seq<char>>)
    requires
        no_repeats(list),
    ensures
        count_members(list, pool) == list.to_set().intersect(pool.to_set()).len(),
    decreases list.len(),
{
    broadcast use vstd::set::group_set_axioms;

    let p = pool.to_set();
    if list.len() == 0 {
        assert(list.to_set().intersect(p) =~= Set::<Seq<char>>::empty());
    } else {
        let l = list.drop_last();
        let x = list.last();
        assert(no_repeats(l)) by {
            assert forall|a: int, b: int| 0 <= a < b < l.len() implies #[trigger] l[a] != #[trigger] l[b] by {
                assert(list[a] == l[a] && list[b] == l[b]);
            }
        }
        lemma_count_members_distinct(l, pool);
        assert(!l.to_set().contains(x)) by {
            if l.contains(x) {
                let a = choose|a: int| 0 <= a < l.len() && l[a] == x;
                assert(list[a] == x && list[list.len() - 1] == x);
            }
        }
        assert(list =~= l.push(x));
        l.lemma_push_to_set_commute(x);
        vstd::seq_lib::seq_to_set_is_finite(l);
        let i = l.to_set().intersect(p);
        assert(i.finite());
        if pool.contains(x) {
            assert(list.to_set().intersect(p) =~= i.insert(x));
            assert(!i.contains(x));
        } else {
            assert(list.to_set().intersect(p) =~= i);
        }
    }
}

/// When no variant repeats a modifier, the best match is the first of the
/// variants that have all applied modifiers and the fewest other modifiers.
pub proof fn law_fewest_other_modifiers(applied: Seq<char>, candidates: Seq<Seq<char>>, i: int)
    requires
        forall|k: int| 0 <= k < candidates.len() ==> no_repeats(modifiers_of(#[trigger] candidates[k])),
    ensures
        is_best_match(applied, candidates, i) <==> {
            &&& 0 <= i < candidates.len()
            &&& is_superset(applied, candidates[i])
            &&& forall|j: int|
                0 <= j < candidates.len() && is_superset(applied, #[trigger] candidates[j]) ==> {
                    &&& other_count(applied, candidates[i]) <= other_count(applied, candidates[j])
                    &&& j < i ==> other_count(applied, candidates[i]) < other_count(applied, candidates[j])
                }
        },
{
    broadcast use vstd::set::group_set_axioms;

    let pa = modifiers_of(applied).to_set();
    assert forall|j: int| 0 <= j < candidates.len() && is_superset(applied, #[trigger] candidates[j])
        implies common_count(applied, candidates[j]) == pa.len() by {
        let mc = modifiers_of(candidates[j]);
        lemma_count_members_distinct(mc, modifiers_of(applied));
        assert forall|m: Seq<char>| pa.contains(m) implies mc.to_set().contains(m) by {
            let k = choose|k: int| 0 <= k < modifiers_of(applied).len() && modifiers_of(applied)[k] == m;
            assert(set_contains(candidates[j], modifiers_of(applied)[k]));
        }
        assert(mc.to_set().intersect(pa) =~= pa);
    }
}

/// When no variant fails first, none of the first `n` fails.
proof fn lemma_variants_pass(vs: Seq<SymbolVariantModel>, n: int)
    requires
        !exists|i: int| #[trigger] is_first_failing(vs, i),
        0 <= n <= vs.len(),
    ensures
        forall|k: int| 0 <= k < n ==> #[trigger] variant_error(vs, k) is None,
    decreases n,
{
    if n > 0 {
        lemma_variants_pass(vs, n - 1);
        if variant_error(vs, n - 1) is Some {
            assert(is_first_failing(vs, n - 1));
        }
    }
}

/// When no variant fails first, none fails.
proof fn lemma_all_variants_pass(vs: Seq<SymbolVariantModel>)
    requires
        !exists|i: int| #[trigger] is_first_failing(vs, i),
    ensures
        forall|k: int| 0 <= k < vs.len() ==> #[trigger] variant_error(vs, k) is None,
{
    lemma_variants_pass(vs, vs.len() as int);
}

/// Variants with the same modifiers are identical, regardless of the order
/// in which the modifiers are written: a list that holds two of them is
/// refused.
pub proof fn law_same_modifiers_refused(vs: Seq<SymbolVariantModel>, i: int, j: int)
    requires
        0 <= i < j < vs.len(),
        same_modifiers(given_modifiers(vs[i]), given_modifiers(vs[j])),
    ensures
        spec_construct(vs) is Err,
{
    if !exists|k: int| #[trigger] is_first_failing(vs, k) {
        lemma_all_variants_pass(vs);
        assert(variant_error(vs, j) is None);
        assert(has_earlier_same(vs, j));
    }
}

/// The variants of a symbol that was built are identifiers, repeat no
/// modifier, and differ pairwise in their modifiers.
pub proof fn law_built_variants_distinct(vs: Seq<SymbolVariantModel>)
    requires
        spec_construct(vs) is Ok,
    ensures
        forall|k: int| 0 <= k < vs.len() ==> all_idents(#[trigger] given_modifiers(vs[k])),
        forall|k: int| 0 <= k < vs.len() ==> no_repeats(#[trigger] given_modifiers(vs[k])),
        forall|a: int, b: int|
            0 <= a < b < vs.len() ==> !same_modifiers(
                #[trigger] given_modifiers(vs[a]),
                #[trigger] given_modifiers(vs[b]),
            ),
{
    lemma_all_variants_pass(vs);
    assert forall|k: int| 0 <= k < vs.len() implies all_idents(#[trigger] given_modifiers(vs[k])) by {
        assert(variant_error(vs, k) is None);
    }
    assert forall|k: int| 0 <= k < vs.len() implies no_repeats(#[trigger] given_modifiers(vs[k])) by {
        assert(variant_error(vs, k) is None);
        let mods = given_modifiers(vs[k]);
        assert forall|a: int, b: int| 0 <= a < b < mods.len() implies #[trigger] mods[a] != #[trigger] mods[b] by {
            if mods[a] == mods[b] {
                assert(repeated(mods, mods[a]));
                assert(has_repeat(mods));
            }
        }
    }
    assert forall|a: int, b: int|
        0 <= a < b < vs.len() implies !same_modifiers(
            #[trigger] given_modifiers(vs[a]),
            #[trigger] given_modifiers(vs[b]),
        ) by {
        assert(variant_error(vs, b) is None);
        if same_modifiers(given_modifiers(vs[a]), given_modifiers(vs[b])) {
            assert(has_earlier_same(vs, b));
        }
    }
}

/// A symbol that was built shows, for the applied modifiers, the first of
/// the variants that have all of them and the fewest other modifiers.
pub proof fn law_built_symbol_selection(vs: Seq<SymbolVariantModel>, applied: Seq<char>, i: int)
    requires
        spec_construct(vs) is Ok,
    ensures
        is_best_match(applied, modifier_column(runtime_models(vs)), i) <==> {
            let cs = modifier_column(runtime_models(vs));
            &&& 0 <= i < cs.len()
            &&& is_superset(applied, cs[i])
            &&& forall|j: int|
                0 <= j < cs.len() && is_superset(applied, #[trigger] cs[j]) ==> {
                    &&& other_count(applied, cs[i]) <= other_count(applied, cs[j])
                    &&& j < i ==> other_count(applied, cs[i]) < other_count(applied, cs[j])
                }
        },
{
    let cs = modifier_column(runtime_models(vs));
    law_built_variants_distinct(vs);
    assert forall|k: int| 0 <= k < cs.len() implies no_repeats(modifiers_of(#[trigger] cs[k])) by {
        assert(cs[k] == vs[k].modifiers);
        assert(given_modifiers(vs[k]) == modifiers_of(vs[k].modifiers));
    }
    law_fewest_other_modifiers(applied, cs, i);
}

/// The character a symbol shows is that of the best match for its applied
/// modifiers, whatever the kind of symbol (a single character, a fixed list
/// with nothing applied, or a modified list).
pub proof fn law_character_is_best_match(s: SymbolModel, i: int)
    requires
        s.wf(),
        is_best_match(s.applied(), modifier_column(s.variant_list()), i),
    ensures
        s.character() == s.variant_list()[i].c,
{
    law_character_defined(s);
    lemma_best_match_unique(s.applied(), modifier_column(s.variant_list()), i, s.selected());
}

/// When no variant repeats a modifier, a symbol shows the character of the
/// first variant that holds all applied modifiers and the fewest others.
pub proof fn law_character_first_with_fewest(s: SymbolModel, i: int)
    requires
        s.wf(),
        forall|k: int|
            0 <= k < s.variant_list().len() ==> no_repeats(
                modifiers_of(#[trigger] s.variant_list()[k].modifiers),
            ),
        0 <= i < s.variant_list().len(),
        is_superset(s.applied(), s.variant_list()[i].modifiers),
        forall|j: int|
            0 <= j < s.variant_list().len() && is_superset(
                s.applied(),
                #[trigger] s.variant_list()[j].modifiers,
            ) ==> {
                &&& other_count(s.applied(), s.variant_list()[i].modifiers) <= other_count(
                    s.applied(),
                    s.variant_list()[j].modifiers,
                )
                &&& j < i ==> other_count(s.applied(), s.variant_list()[i].modifiers)
                    < other_count(s.applied(), s.variant_list()[j].modifiers)
            },
    ensures
        s.character() == s.variant_list()[i].c,
{
    let vl = s.variant_list();
    let cs = modifier_column(vl);
    assert forall|k: int| 0 <= k < cs.len() implies no_repeats(modifiers_of(#[trigger] cs[k])) by {
        assert(cs[k] == vl[k].modifiers);
    }
    assert forall|j: int| 0 <= j < cs.len() && is_superset(s.applied(), #[trigger] cs[j]) implies {
        &&& other_count(s.applied(), cs[i]) <= other_count(s.applied(), cs[j])
        &&& j < i ==> other_count(s.applied(), cs[i]) < other_count(s.applied(), cs[j])
    } by {
        assert(cs[j] == vl[j].modifiers);
        assert(cs[i] == vl[i].modifiers);
    }
    law_fewest_other_modifiers(s.applied(), cs, i);
    law_character_is_best_match(s, i);
}

/// Building a symbol accepts every list that passes the checks: non-empty,
/// every modifier an identifier, no modifier twice in a variant, and no two
/// variants with the same modifiers. A variant whose modifiers are only part
/// of an earlier variant's is not refused.
pub proof fn law_valid_variants_accepted(vs: Seq<SymbolVariantModel>)
    requires
        vs.len() > 0,
        forall|k: int| 0 <= k < vs.len() ==> all_idents(#[trigger] given_modifiers(vs[k])),
        forall|k: int| 0 <= k < vs.len() ==> no_repeats(#[trigger] given_modifiers(vs[k])),
        forall|a: int, b: int|
            0 <= a < b < vs.len() ==> !same_modifiers(
                #[trigger] given_modifiers(vs[a]),
                #[trigger] given_modifiers(vs[b]),
            ),
    ensures
        spec_construct(vs) == Ok::<SymbolModel, ConstructErrorModel>(
            SymbolModel::Modified(runtime_models(vs), Seq::empty(), ListKind::Runtime),
        ),
{
    assert forall|k: int| 0 <= k < vs.len() implies #[trigger] variant_error(vs, k) is None by {
        let mods = given_modifiers(vs[k]);
        assert(all_idents(mods));
        assert(no_repeats(mods));
        if has_repeat(mods) {
            let m = choose|m: Seq<char>| #[trigger] repeated(mods, m);
            let (a, b) = choose|a: int, b: int|
                0 <= a < b < mods.len() && #[trigger] mods[a] == m && #[trigger] mods[b] == m;
            assert(mods[a] == mods[b]);
        }
        if has_earlier_same(vs, k) {
            let j = choose|j: int| 0 <= j < k && same_modifiers(#[trigger] given_modifiers(vs[j]), given_modifiers(vs[k]));
            assert(!same_modifiers(given_modifiers(vs[j]), given_modifiers(vs[k])));
        }
    }
    if exists|i: int| #[trigger] is_first_failing(vs, i) {
        let i = choose|i: int| #[trigger] is_first_failing(vs, i);
        assert(variant_error(vs, i) is None);
    }
}

/// Removing entries that are in the pool depends only on which values the
/// pool holds.
proof fn lemma_without_same_pool(list: Seq<Seq<char>>, p1: Seq<Seq<char>>, p2: Seq<Seq<char>>)
    requires
        forall|m: Seq<char>| p1.contains(m) == p2.contains(m),
    ensures
        without(list, p1) == without(list, p2),
    decreases list.len(),
{
    if list.len() > 0 {
        lemma_without_same_pool(list.drop_last(), p1, p2);
    }
}

/// The listed parts depend only on which modifiers are applied.
proof fn lemma_repr_parts_same_members(vs: Seq<VariantModel>, a1: Seq<char>, a2: Seq<char>)
    requires
        forall|m: Seq<char>| set_contains(a1, m) == set_contains(a2, m),
    ensures
        repr_parts(vs, a1) == repr_parts(vs, a2),
    decreases vs.len(),
{
    if vs.len() > 0 {
        lemma_repr_parts_same_members(vs.drop_last(), a1, a2);
        assert forall|m: Seq<char>| set_contains(a1, m) ==> set_contains(a2, m) by {}
        assert forall|m: Seq<char>| set_contains(a2, m) ==> set_contains(a1, m) by {}
        lemma_superset_monotone(a1, a2, seq![vs.last().modifiers]);
        lemma_superset_monotone(a2, a1, seq![vs.last().modifiers]);
        assert forall|m: Seq<char>| modifiers_of(a1).contains(m) == modifiers_of(a2).contains(m) by {
            assert(set_contains(a1, m) == set_contains(a2, m));
        }
        lemma_without_same_pool(modifiers_of(vs.last().modifiers), modifiers_of(a1), modifiers_of(a2));
        assert(variant_part(vs.last(), a1) == variant_part(vs.last(), a2));
    }
}

/// The representation does not depend on the order in which modifiers were
/// applied: it lists the variants holding all of them, each without them.
pub proof fn law_repr_modifier_order_irrelevant(s: SymbolModel, m1: Seq<char>, m2: Seq<char>)
    requires
        s.wf(),
        is_single_modifier(m1),
        is_single_modifier(m2),
        modified_twice(s, m1, m2) is Some,
    ensures
        modified_twice(s, m2, m1) is Some,
        spec_repr(modified_twice(s, m1, m2).unwrap().0) == spec_repr(
            modified_twice(s, m2, m1).unwrap().0,
        ),
{
    law_modifier_order_irrelevant(s, m1, m2);
    let vs = s.variant_list();
    let a = s.applied();
    let a12 = insert_modifier(insert_modifier(a, m1), m2);
    let a21 = insert_modifier(insert_modifier(a, m2), m1);
    lemma_insert_modifier(a, m1);
    lemma_insert_modifier(a, m2);
    lemma_insert_modifier(insert_modifier(a, m1), m2);
    lemma_insert_modifier(insert_modifier(a, m2), m1);
    let ma = modifiers_of(a);
    assert(modifiers_of(a12) == ma.push(m1).push(m2));
    assert(modifiers_of(a21) == ma.push(m2).push(m1));
    assert forall|m: Seq<char>| set_contains(a12, m) == set_contains(a21, m) by {
        lemma_push_two_same_members(ma, m1, m2, m);
    }
    lemma_repr_parts_same_members(vs, a12, a21);
    let t = modified_twice(s, m1, m2).unwrap().0;
    let u = modified_twice(s, m2, m1).unwrap().0;
    assert(t == SymbolModel::Modified(vs, a12, s.list_kind()));
    assert(u == SymbolModel::Modified(vs, a21, s.list_kind()));
}

/// Every non-empty modifier of any variant that is not applied yet can
/// still be applied, and only those.
pub proof fn law_possible_modifiers(s: SymbolModel, m: Seq<char>)
    ensures
        is_possible_modifier(s, m) <==> {
            &&& m.len() > 0
            &&& !set_contains(s.applied(), m)
            &&& exists|i: int|
                0 <= i < s.variant_list().len() && modifiers_of(
                    #[trigger] s.variant_list()[i].modifiers,
                ).contains(m)
        },
{
    let vl = s.variant_list();
    if exists|i: int| 0 <= i < vl.len() && modifiers_of(#[trigger] vl[i].modifiers).contains(m) {
        let i = choose|i: int| 0 <= i < vl.len() && modifiers_of(#[trigger] vl[i].modifiers).contains(m);
        assert(set_contains(vl[i].modifiers, m));
        assert(held_by_some(vl, vl.len() as int, m));
    }
    if held_by_some(vl, vl.len() as int, m) {
        let i = choose|i: int| 0 <= i < vl.len() && #[trigger] set_contains(vl[i].modifiers, m);
        assert(modifiers_of(vl[i].modifiers).contains(m));
    }
}

/// The character that stands for each function when a symbol is called.
pub open spec fn function_character(f: SymbolFunc) -> char {
    match f {
        SymbolFunc::Ceil => '\u{2308}',
        SymbolFunc::Floor => '\u{230a}',
        SymbolFunc::Dash => '\u{2013}',
        SymbolFunc::Dot => '\u{22c5}',
        SymbolFunc::DotDouble => '\u{00a8}',
        SymbolFunc::DotTriple => '\u{20db}',
        SymbolFunc::DotQuad => '\u{20dc}',
        SymbolFunc::Tilde => '\u{223c}',
        SymbolFunc::Acute => '\u{00b4}',
        SymbolFunc::AcuteDouble => '\u{02dd}',
        SymbolFunc::Breve => '\u{02d8}',
        SymbolFunc::Caron => '\u{02c7}',
        SymbolFunc::Hat => '^',
        SymbolFunc::Grave => '`',
        SymbolFunc::Macron => '\u{00af}',
        SymbolFunc::Circle => '\u{25cb}',
        SymbolFunc::Arrow => '\u{2192}',
        SymbolFunc::ArrowL => '\u{2190}',
        SymbolFunc::ArrowLR => '\u{2194}',
        SymbolFunc::Harpoon => '\u{21c0}',
        SymbolFunc::HarpoonLt => '\u{21bc}',
    }
}

/// Calling a symbol gives each function for its own character, and a
/// character gives a function only if it is that function's character (the
/// combining dot above also gives the dot).
pub proof fn law_func_table(f: SymbolFunc, c: char)
    ensures
        func_of(function_character(f)) == Some(f),
        func_of('\u{0307}') == Some(SymbolFunc::Dot),
        func_of(c) == Some(f) ==> c == function_character(f) || (f == SymbolFunc::Dot && c
            == '\u{0307}'),
{
}

/// Two different characters call the same function only for the dot.
pub proof fn law_func_distinct(c1: char, c2: char)
    requires
        c1 != c2,
        func_of(c1) is Some,
        func_of(c1) == func_of(c2),
    ensures
        func_of(c1) == Some(SymbolFunc::Dot),
{
    law_func_table(func_of(c1).unwrap(), c1);
    law_func_table(func_of(c1).unwrap(), c2);
}

} // verus!
