//! Sets of modifiers, written as one string in which the modifiers are
//! separated by `.` (the representation of `codex::ModifierSet`).

use vstd::prelude::*;
use crate::text::{lemma_lex_total, lemma_lex_transitive, lex_less, lex_lt, push_char};

verus! {

/// The pieces of `s` between the dots, left to right (always at least one).
pub open spec fn split_all(s: Seq<char>) -> Seq<Seq<char>>
    decreases s.len(),
{
    if s.len() == 0 {
        seq![Seq::<char>::empty()]
    } else {
        let rest = split_all(s.drop_last());
        if s.last() == '.' {
            rest.push(Seq::<char>::empty())
        } else {
            rest.update(rest.len() - 1, rest.last().push(s.last()))
        }
    }
}

/// The modifiers of a dotted set: none for the empty string, otherwise the
/// pieces between the dots.
pub open spec fn modifiers_of(set: Seq<char>) -> Seq<Seq<char>> {
    if set.len() == 0 {
        Seq::empty()
    } else {
        split_all(set)
    }
}

/// No two dots stand next to each other (no empty modifier inside the set).
pub open spec fn no_double_dot(s: Seq<char>) -> bool {
    forall|k: int| 0 <= k && k + 1 < s.len() ==> !(s[k] == '.' && #[trigger] s[k + 1] == '.')
}

/// A single modifier: not empty and without a dot.
pub open spec fn is_single_modifier(m: Seq<char>) -> bool {
    m.len() > 0 && !m.contains('.')
}

/// The set after appending the modifier `m`.
pub open spec fn insert_modifier(set: Seq<char>, m: Seq<char>) -> Seq<char> {
    if set.len() == 0 {
        m
    } else {
        set + seq!['.'] + m
    }
}

/// Whether the set holds the modifier `m`.
pub open spec fn set_contains(set: Seq<char>, m: Seq<char>) -> bool {
    modifiers_of(set).contains(m)
}

/// Every modifier of `applied` is also a modifier of `candidate`.
pub open spec fn is_superset(applied: Seq<char>, candidate: Seq<char>) -> bool {
    forall|k: int|
        0 <= k < modifiers_of(applied).len() ==> #[trigger] set_contains(
            candidate,
            modifiers_of(applied)[k],
        )
}

/// How many entries of `list` are members of `pool`.
pub open spec fn count_members(list: Seq<Seq<char>>, pool: Seq<Seq<char>>) -> nat
    decreases list.len(),
{
    if list.len() == 0 {
        0
    } else {
        count_members(list.drop_last(), pool) + if pool.contains(list.last()) {
            1nat
        } else {
            0nat
        }
    }
}

/// How many modifiers of `candidate` are among those of `applied`.
pub open spec fn common_count(applied: Seq<char>, candidate: Seq<char>) -> nat {
    count_members(modifiers_of(candidate), modifiers_of(applied))
}

/// How many modifiers `candidate` has.
pub open spec fn total_count(candidate: Seq<char>) -> nat {
    modifiers_of(candidate).len()
}

/// `c1` is a better match than `c2` for `applied`: more modifiers in common,
/// or as many and fewer modifiers in all.
pub open spec fn ranks_above(applied: Seq<char>, c1: Seq<char>, c2: Seq<char>) -> bool {
    ||| common_count(applied, c1) > common_count(applied, c2)
    ||| common_count(applied, c1) == common_count(applied, c2) && total_count(c1) < total_count(
        c2,
    )
}

/// Some candidate holds all applied modifiers.
pub open spec fn has_match(applied: Seq<char>, candidates: Seq<Seq<char>>) -> bool {
    exists|j: int| 0 <= j < candidates.len() && is_superset(applied, #[trigger] candidates[j])
}

/// Candidate `i` is the best match: it holds all applied modifiers, no such
/// candidate ranks above it, and it ranks above every such candidate before it.
pub open spec fn is_best_match(applied: Seq<char>, candidates: Seq<Seq<char>>, i: int) -> bool {
    &&& 0 <= i < candidates.len()
    &&& is_superset(applied, candidates[i])
    &&& forall|j: int|
        0 <= j < candidates.len() && is_superset(applied, #[trigger] candidates[j]) ==> {
            &&& !ranks_above(applied, candidates[j], candidates[i])
            &&& j < i ==> ranks_above(applied, candidates[i], candidates[j])
        }
}

pub proof fn lemma_split_all_nonempty(s: Seq<char>)
    ensures
        split_all(s).len() >= 1,
    decreases s.len(),
{
    if s.len() > 0 {
        lemma_split_all_nonempty(s.drop_last());
    }
}

/// A string without dots is a single piece.
pub proof fn lemma_split_no_dot(t: Seq<char>)
    requires
        !t.contains('.'),
    ensures
        split_all(t) == seq![t],
    decreases t.len(),
{
    if t.len() > 0 {
        let u = t.drop_last();
        assert(!u.contains('.')) by {
            if u.contains('.') {
                let k = choose|k: int| 0 <= k < u.len() && u[k] == '.';
                assert(t[k] == '.');
            }
        }
        lemma_split_no_dot(u);
        assert(t.last() != '.') by {
            assert(t[t.len() - 1] == t.last());
        }
        assert(u.push(t.last()) =~= t);
        assert(seq![u].update(0, u.push(t.last())) =~= seq![t]);
    } else {
        assert(t =~= Seq::<char>::empty());
    }
}

/// Appending a dot and a dot-free string adds one piece.
pub proof fn lemma_split_append(x: Seq<char>, t: Seq<char>)
    requires
        !t.contains('.'),
    ensures
        split_all(x + seq!['.'] + t) == split_all(x).push(t),
    decreases t.len(),
{
    let s = x + seq!['.'] + t;
    if t.len() == 0 {
        assert(s.drop_last() =~= x);
        assert(s.last() == '.');
        assert(t =~= Seq::<char>::empty());
    } else {
        let u = t.drop_last();
        assert(!u.contains('.')) by {
            if u.contains('.') {
                let k = choose|k: int| 0 <= k < u.len() && u[k] == '.';
                assert(t[k] == '.');
            }
        }
        lemma_split_append(x, u);
        assert(s.drop_last() =~= x + seq!['.'] + u);
        assert(s.last() == t.last());
        assert(t.last() != '.') by {
            assert(t[t.len() - 1] == t.last());
        }
        assert(u.push(t.last()) =~= t);
        assert(split_all(x).push(u).update(split_all(x).len() as int, u.push(t.last()))
            =~= split_all(x).push(t));
    }
}

/// Joining two strings with a dot joins their pieces.
pub proof fn lemma_split_concat(x: Seq<char>, y: Seq<char>)
    ensures
        split_all(x + seq!['.'] + y) == split_all(x) + split_all(y),
    decreases y.len(),
{
    let s = x + seq!['.'] + y;
    if y.len() == 0 {
        assert(s.drop_last() =~= x);
        assert(s.last() == '.');
        assert(split_all(y) =~= seq![Seq::<char>::empty()]);
        assert(split_all(x).push(Seq::<char>::empty()) =~= split_all(x) + split_all(y));
    } else {
        let u = y.drop_last();
        lemma_split_concat(x, u);
        lemma_split_all_nonempty(u);
        assert(s.drop_last() =~= x + seq!['.'] + u);
        assert(s.last() == y.last());
        let px = split_all(x);
        let pu = split_all(u);
        if y.last() == '.' {
            assert((px + pu).push(Seq::<char>::empty()) =~= px + pu.push(Seq::<char>::empty()));
        } else {
            assert((px + pu).update((px + pu).len() - 1, (px + pu).last().push(y.last())) =~= px
                + pu.update(pu.len() - 1, pu.last().push(y.last())));
        }
    }
}

/// Inserting a single modifier appends it to the modifiers of the set.
pub proof fn lemma_insert_modifier(set: Seq<char>, m: Seq<char>)
    requires
        is_single_modifier(m),
    ensures
        modifiers_of(insert_modifier(set, m)) == modifiers_of(set).push(m),
{
    if set.len() == 0 {
        lemma_split_no_dot(m);
        assert(seq![m] =~= Seq::<Seq<char>>::empty().push(m));
    } else {
        lemma_split_append(set, m);
    }
}

/// The best match, if there is one, is unique.
pub proof fn lemma_best_match_unique(
    applied: Seq<char>,
    candidates: Seq<Seq<char>>,
    i: int,
    k: int,
)
    requires
        is_best_match(applied, candidates, i),
        is_best_match(applied, candidates, k),
    ensures
        i == k,
{
    if i < k {
        assert(is_superset(applied, candidates[i]));
    } else if k < i {
        assert(is_superset(applied, candidates[k]));
    }
}

/// Counting members depends only on which values are in the pool.
pub proof fn lemma_count_members_same_pool(
    list: Seq<Seq<char>>,
    p1: Seq<Seq<char>>,
    p2: Seq<Seq<char>>,
)
    requires
        forall|m: Seq<char>| p1.contains(m) == p2.contains(m),
    ensures
        count_members(list, p1) == count_members(list, p2),
    decreases list.len(),
{
    if list.len() > 0 {
        lemma_count_members_same_pool(list.drop_last(), p1, p2);
    }
}

/// Whether a candidate is the best match depends only on which modifiers
/// are applied, not on their order or repetition.
pub proof fn lemma_best_match_same_members(
    a1: Seq<char>,
    a2: Seq<char>,
    candidates: Seq<Seq<char>>,
    i: int,
)
    requires
        forall|m: Seq<char>| set_contains(a1, m) == set_contains(a2, m),
    ensures
        is_best_match(a1, candidates, i) == is_best_match(a2, candidates, i),
        has_match(a1, candidates) == has_match(a2, candidates),
{
    assert forall|c: Seq<char>| is_superset(a1, c) == is_superset(a2, c) by {
        if is_superset(a1, c) {
            assert forall|k: int| 0 <= k < modifiers_of(a2).len() implies #[trigger] set_contains(
                c,
                modifiers_of(a2)[k],
            ) by {
                let m = modifiers_of(a2)[k];
                assert(set_contains(a2, m));
                assert(set_contains(a1, m));
                let k1 = choose|k1: int| 0 <= k1 < modifiers_of(a1).len() && modifiers_of(a1)[k1] == m;
                assert(set_contains(c, modifiers_of(a1)[k1]));
            }
        }
        if is_superset(a2, c) {
            assert forall|k: int| 0 <= k < modifiers_of(a1).len() implies #[trigger] set_contains(
                c,
                modifiers_of(a1)[k],
            ) by {
                let m = modifiers_of(a1)[k];
                assert(set_contains(a1, m));
                assert(set_contains(a2, m));
                let k2 = choose|k2: int| 0 <= k2 < modifiers_of(a2).len() && modifiers_of(a2)[k2] == m;
                assert(set_contains(c, modifiers_of(a2)[k2]));
            }
        }
    }
    assert forall|m: Seq<char>| modifiers_of(a1).contains(m) == modifiers_of(a2).contains(m) by {
        assert(set_contains(a1, m) == set_contains(a2, m));
    }
    assert forall|c: Seq<char>| common_count(a1, c) == common_count(a2, c) by {
        lemma_count_members_same_pool(modifiers_of(c), modifiers_of(a1), modifiers_of(a2));
    }
    if has_match(a1, candidates) {
        let j = choose|j: int| 0 <= j < candidates.len() && is_superset(a1, #[trigger] candidates[j]);
        assert(is_superset(a2, candidates[j]));
    }
    if has_match(a2, candidates) {
        let j = choose|j: int| 0 <= j < candidates.len() && is_superset(a2, #[trigger] candidates[j]);
        assert(is_superset(a1, candidates[j]));
    }
}

/// Appends the modifier `m` to a dotted set.
///
/// This is `ModifierSet::insert_raw` of codex: a dot first unless the set is
/// empty, then the modifier.
pub fn insert_raw(set: &mut String, m: &str)
    ensures
        final(set)@ == insert_modifier(old(set)@, m@),
{
    if set.as_str().unicode_len() != 0 {
        push_char(set, '.');
    }
    let n = m.unicode_len();
    let ghost start = set@;
    let mut i: usize = 0;
    while i < n
        invariant
            n == m@.len(),
            i <= n,
            set@ == start + m@.take(i as int),
        decreases n - i,
    {
        push_char(set, m.get_char(i));
        assert(m@.take(i + 1) =~= m@.take(i as int).push(m@[i as int]));
        i = i + 1;
    }
    assert(m@.take(n as int) =~= m@);
    proof {
        if old(set)@.len() == 0 {
            assert(set@ =~= m@);
        }
    }
}

/// The modifiers of a dotted set, in their order in the string.
pub fn split_modifiers(set: &str) -> (r: Vec<String>)
    ensures
        r.deep_view() == modifiers_of(set@),
{
    let n = set.unicode_len();
    let mut parts: Vec<String> = Vec::new();
    if n == 0 {
        assert(parts.deep_view() =~= Seq::<Seq<char>>::empty());
        return parts;
    }
    let mut cur = String::new();
    let mut i: usize = 0;
    assert(set@.take(0) =~= Seq::<char>::empty());
    assert(parts.deep_view().push(cur@) =~= split_all(set@.take(0)));
    while i < n
        invariant
            n == set@.len(),
            i <= n,
            parts.deep_view().push(cur@) == split_all(set@.take(i as int)),
        decreases n - i,
    {
        let c = set.get_char(i);
        let ghost prev = set@.take(i as int);
        assert(set@.take(i + 1).drop_last() =~= prev);
        assert(set@.take(i + 1).last() == c);
        proof { lemma_split_all_nonempty(prev); }
        if c == '.' {
            parts.push(cur);
            cur = String::new();
            assert(parts.deep_view().push(cur@) =~= split_all(prev).push(Seq::<char>::empty()));
        } else {
            let ghost old_cur = cur@;
            let ghost old_parts = parts.deep_view();
            push_char(&mut cur, c);
            assert(parts.deep_view().push(cur@) =~= old_parts.push(old_cur).update(
                old_parts.len() as int,
                old_cur.push(c),
            ));
        }
        i = i + 1;
    }
    parts.push(cur);
    assert(set@.take(n as int) =~= set@);
    parts
}

/// Whether the list holds the string `m`.
pub fn list_contains(list: &Vec<String>, m: &str) -> (r: bool)
    ensures
        r == list.deep_view().contains(m@),
{
    let mut i: usize = 0;
    while i < list.len()
        invariant
            i <= list.len(),
            forall|k: int| 0 <= k < i ==> list.deep_view()[k] != m@,
        decreases list.len() - i,
    {
        if crate::text::str_equal(list[i].as_str(), m) {
            assert(list.deep_view()[i as int] == m@);
            return true;
        }
        i = i + 1;
    }
    false
}


/// Strictly increasing in the order of `str`.
pub open spec fn strictly_sorted(s: Seq<Seq<char>>) -> bool {
    forall|i: int, j: int| 0 <= i < j < s.len() ==> lex_lt(#[trigger] s[i], #[trigger] s[j])
}

/// Inserts `m` into a strictly sorted list unless it is already there.
pub fn insert_sorted(list: &mut Vec<String>, m: &str)
    requires
        strictly_sorted(old(list).deep_view()),
    ensures
        strictly_sorted(final(list).deep_view()),
        forall|x: Seq<char>|
            #[trigger] final(list).deep_view().contains(x) <==> (old(list).deep_view().contains(x)
                || x == m@),
{
    let ghost old_dv = list.deep_view();
    let mut p: usize = 0;
    while p < list.len() && lex_less(list[p].as_str(), m)
        invariant
            p <= list.len(),
            list.deep_view() == old_dv,
            forall|k: int| 0 <= k < p ==> lex_lt(#[trigger] old_dv[k], m@),
        decreases list.len() - p,
    {
        p = p + 1;
    }
    if p < list.len() && crate::text::str_equal(list[p].as_str(), m) {
        assert(old_dv[p as int] == m@);
        return;
    }
    proof {
        if p < list.len() {
            lemma_lex_total(old_dv[p as int], m@);
        }
    }
    list.insert(p, m.to_owned());
    let ghost new_dv = old_dv.insert(p as int, m@);
    assert(list.deep_view() =~= new_dv);
    assert forall|i: int, j: int| 0 <= i < j < new_dv.len() implies lex_lt(
        #[trigger] new_dv[i],
        #[trigger] new_dv[j],
    ) by {
        if j < p {
            assert(new_dv[i] == old_dv[i] && new_dv[j] == old_dv[j]);
        } else if j == p {
            assert(new_dv[i] == old_dv[i]);
        } else if i < p {
            assert(new_dv[i] == old_dv[i] && new_dv[j] == old_dv[j - 1]);
            assert(lex_lt(old_dv[i], m@));
            assert(lex_lt(m@, old_dv[p as int]));
            if j - 1 > p {
                assert(lex_lt(old_dv[p as int], old_dv[j - 1]));
                lemma_lex_transitive(m@, old_dv[p as int], old_dv[j - 1]);
            }
            lemma_lex_transitive(old_dv[i], m@, old_dv[j - 1]);
        } else if i == p {
            assert(new_dv[j] == old_dv[j - 1]);
            if j - 1 > p {
                assert(lex_lt(old_dv[p as int], old_dv[j - 1]));
                lemma_lex_transitive(m@, old_dv[p as int], old_dv[j - 1]);
            }
        } else {
            assert(new_dv[i] == old_dv[i - 1] && new_dv[j] == old_dv[j - 1]);
        }
    }
    assert forall|x: Seq<char>| #[trigger] new_dv.contains(x) <==> (old_dv.contains(x) || x == m@) by {
        if new_dv.contains(x) {
            let k = choose|k: int| 0 <= k < new_dv.len() && new_dv[k] == x;
            if k < p {
                assert(old_dv[k] == x);
            } else if k > p {
                assert(old_dv[k - 1] == x);
            }
        }
        if old_dv.contains(x) {
            let k = choose|k: int| 0 <= k < old_dv.len() && old_dv[k] == x;
            if k < p {
                assert(new_dv[k] == x);
            } else {
                assert(new_dv[k + 1] == x);
            }
        }
        if x == m@ {
            assert(new_dv[p as int] == x);
        }
    }
}

/// A string whose pieces, all but perhaps the last, are non-empty has no
/// two dots in a row.
proof fn lemma_pieces_nonempty_no_double_dot(s: Seq<char>)
    requires
        forall|i: int| 0 <= i < split_all(s).len() - 1 ==> (#[trigger] split_all(s)[i]).len() > 0,
    ensures
        no_double_dot(s),
    decreases s.len(),
{
    if s.len() > 0 {
        let u = s.drop_last();
        lemma_split_all_nonempty(u);
        let pu = split_all(u);
        if s.last() == '.' {
            assert forall|i: int| 0 <= i < pu.len() - 1 implies (#[trigger] pu[i]).len() > 0 by {
                assert(split_all(s)[i] == pu[i]);
            }
            lemma_pieces_nonempty_no_double_dot(u);
            assert(split_all(s)[pu.len() - 1] == pu.last());
            if u.len() > 0 && u.last() == '.' {
                lemma_split_all_nonempty(u.drop_last());
                assert(pu.last().len() == 0);
            }
        } else {
            assert forall|i: int| 0 <= i < pu.len() - 1 implies (#[trigger] pu[i]).len() > 0 by {
                assert(split_all(s)[i] == pu[i]);
            }
            lemma_pieces_nonempty_no_double_dot(u);
        }
        assert forall|k: int| 0 <= k && k + 1 < s.len() implies !(s[k] == '.' && #[trigger] s[k
            + 1] == '.') by {
            if k + 1 < u.len() {
                assert(s[k] == u[k] && s[k + 1] == u[k + 1]);
            } else {
                assert(s[k + 1] == s.last());
                assert(s[k] == u.last());
            }
        }
    }
}

/// A set whose modifiers are all non-empty holds no two dots in a row.
pub proof fn lemma_nonempty_modifiers_no_double_dot(set: Seq<char>)
    requires
        forall|i: int| 0 <= i < modifiers_of(set).len() ==> (#[trigger] modifiers_of(set)[i]).len() > 0,
    ensures
        no_double_dot(set),
{
    if set.len() > 0 {
        assert forall|i: int| 0 <= i < split_all(set).len() - 1 implies (#[trigger] split_all(
            set,
        )[i]).len() > 0 by {
            assert(modifiers_of(set)[i] == split_all(set)[i]);
        }
        lemma_pieces_nonempty_no_double_dot(set);
    }
}

/// Whether every entry of `small` is in `big`.
pub fn all_contained(small: &Vec<String>, big: &Vec<String>) -> (r: bool)
    ensures
        r == forall|k: int| 0 <= k < small.deep_view().len() ==> big.deep_view().contains(
            #[trigger] small.deep_view()[k],
        ),
{
    let mut i: usize = 0;
    while i < small.len()
        invariant
            i <= small.len(),
            forall|k: int| 0 <= k < i ==> big.deep_view().contains(#[trigger] small.deep_view()[k]),
        decreases small.len() - i,
    {
        if !list_contains(big, small[i].as_str()) {
            assert(!big.deep_view().contains(small.deep_view()[i as int]));
            return false;
        }
        i = i + 1;
    }
    true
}

/// When some candidate holds all applied modifiers, a best match exists.
pub proof fn lemma_best_match_exists(applied: Seq<char>, candidates: Seq<Seq<char>>)
    requires
        has_match(applied, candidates),
    ensures
        exists|i: int| is_best_match(applied, candidates, i),
    decreases candidates.len(),
{
    let n = candidates.len();
    let last = n - 1;
    let rest = candidates.drop_last();
    if has_match(applied, rest) {
        lemma_best_match_exists(applied, rest);
        let i1 = choose|i: int| is_best_match(applied, rest, i);
        assert(rest[i1] == candidates[i1]);
        if is_superset(applied, candidates[last]) && ranks_above(applied, candidates[last], candidates[i1]) {
            assert forall|j: int|
                0 <= j < n && is_superset(applied, #[trigger] candidates[j]) implies {
                &&& !ranks_above(applied, candidates[j], candidates[last])
                &&& j < last ==> ranks_above(applied, candidates[last], candidates[j])
            } by {
                if j < last {
                    assert(rest[j] == candidates[j]);
                    assert(is_superset(applied, rest[j]));
                }
            }
            assert(is_best_match(applied, candidates, last));
        } else {
            assert forall|j: int|
                0 <= j < n && is_superset(applied, #[trigger] candidates[j]) implies {
                &&& !ranks_above(applied, candidates[j], candidates[i1])
                &&& j < i1 ==> ranks_above(applied, candidates[i1], candidates[j])
            } by {
                if j < last {
                    assert(rest[j] == candidates[j]);
                    assert(is_superset(applied, rest[j]));
                }
            }
            assert(is_best_match(applied, candidates, i1));
        }
    } else {
        let j0 = choose|j: int| 0 <= j < candidates.len() && is_superset(applied, #[trigger] candidates[j]);
        if j0 < last {
            assert(rest[j0] == candidates[j0]);
            assert(is_superset(applied, rest[j0]));
        }
        assert forall|j: int| 0 <= j < n && is_superset(applied, #[trigger] candidates[j]) implies j
            == last by {
            if j < last {
                assert(rest[j] == candidates[j]);
                assert(is_superset(applied, rest[j]));
            }
        }
        assert(is_best_match(applied, candidates, last));
    }
}

/// A candidate that holds more applied modifiers holds fewer ones too.
pub proof fn lemma_superset_monotone(small: Seq<char>, big: Seq<char>, candidates: Seq<Seq<char>>)
    requires
        forall|m: Seq<char>| set_contains(small, m) ==> set_contains(big, m),
    ensures
        forall|c: Seq<char>| is_superset(big, c) ==> is_superset(small, c),
        has_match(big, candidates) ==> has_match(small, candidates),
{
    assert forall|c: Seq<char>| is_superset(big, c) implies is_superset(small, c) by {
        assert forall|k: int| 0 <= k < modifiers_of(small).len() implies #[trigger] set_contains(
            c,
            modifiers_of(small)[k],
        ) by {
            let m = modifiers_of(small)[k];
            assert(set_contains(small, m));
            assert(set_contains(big, m));
            let k2 = choose|k2: int| 0 <= k2 < modifiers_of(big).len() && modifiers_of(big)[k2] == m;
            assert(set_contains(c, modifiers_of(big)[k2]));
        }
    }
    if has_match(big, candidates) {
        let j = choose|j: int| 0 <= j < candidates.len() && is_superset(big, #[trigger] candidates[j]);
        assert(is_superset(small, candidates[j]));
    }
}

/// Two modifiers appended in either order give the same members.
pub proof fn lemma_push_two_same_members(
    base: Seq<Seq<char>>,
    m1: Seq<char>,
    m2: Seq<char>,
    m: Seq<char>,
)
    ensures
        base.push(m1).push(m2).contains(m) == base.push(m2).push(m1).contains(m),
{
    let x = base.push(m1).push(m2);
    let y = base.push(m2).push(m1);
    let n = base.len() as int;
    if x.contains(m) {
        let k = choose|k: int| 0 <= k < x.len() && x[k] == m;
        if k < n {
            assert(y[k] == m);
        } else if k == n {
            assert(y[n + 1] == m);
        } else {
            assert(y[n] == m);
        }
    }
    if y.contains(m) {
        let k = choose|k: int| 0 <= k < y.len() && y[k] == m;
        if k < n {
            assert(x[k] == m);
        } else if k == n {
            assert(x[n + 1] == m);
        } else {
            assert(x[n] == m);
        }
    }
}

} // verus!
