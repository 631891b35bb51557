//! The textual representation of symbols: `symbol("x")` for a single
//! character and `symbol(..)` listing the variants that can still be reached.

use vstd::prelude::*;
use crate::modifier_set::{all_contained, is_superset, list_contains, modifiers_of, set_contains, split_modifiers};
use crate::symbol::{models, SymbolModel, Variant, VariantModel};
use crate::text::push_char;

verus! {

/// The entries of `list` that are not in `pool`, in order.
pub open spec fn without(list: Seq<Seq<char>>, pool: Seq<Seq<char>>) -> Seq<Seq<char>>
    decreases list.len(),
{
    if list.len() == 0 {
        Seq::empty()
    } else if pool.contains(list.last()) {
        without(list.drop_last(), pool)
    } else {
        without(list.drop_last(), pool).push(list.last())
    }
}

/// Every entry is the empty string.
pub open spec fn all_empty(list: Seq<Seq<char>>) -> bool {
    forall|i: int| 0 <= i < list.len() ==> (#[trigger] list[i]).len() == 0
}

/// The entries joined, with `sep` between neighbours.
pub open spec fn join(list: Seq<Seq<char>>, sep: Seq<char>) -> Seq<char>
    decreases list.len(),
{
    if list.len() == 0 {
        Seq::empty()
    } else if list.len() == 1 {
        list[0]
    } else {
        join(list.drop_last(), sep) + sep + list.last()
    }
}

/// `s` between double quotes.
pub open spec fn quoted(s: Seq<char>) -> Seq<char> {
    seq!['"'] + s + seq!['"']
}

/// The text of one reachable variant: its character in quotes, or the
/// modifiers it holds beyond the applied ones and its character as a pair.
pub open spec fn variant_part(v: VariantModel, applied: Seq<char>) -> Seq<char> {
    let trimmed = without(modifiers_of(v.modifiers), modifiers_of(applied));
    if all_empty(trimmed) {
        quoted(seq![v.c])
    } else {
        seq!['('] + quoted(join(trimmed, seq!['.'])) + seq![',', ' '] + quoted(seq![v.c]) + seq![')']
    }
}

/// The parts for the variants that hold all applied modifiers, in order.
pub open spec fn repr_parts(vs: Seq<VariantModel>, applied: Seq<char>) -> Seq<Seq<char>>
    decreases vs.len(),
{
    if vs.len() == 0 {
        Seq::empty()
    } else if is_superset(applied, vs.last().modifiers) {
        repr_parts(vs.drop_last(), applied).push(variant_part(vs.last(), applied))
    } else {
        repr_parts(vs.drop_last(), applied)
    }
}

/// The number of bytes that UTF-8 takes for `c`.
pub open spec fn char_byte_len(c: char) -> nat {
    if (c as u32) < 0x80 {
        1
    } else if (c as u32) < 0x800 {
        2
    } else if (c as u32) < 0x10000 {
        3
    } else {
        4
    }
}

/// The number of bytes that UTF-8 takes for `s` (the length of `str`).
pub open spec fn byte_len(s: Seq<char>) -> nat
    decreases s.len(),
{
    if s.len() == 0 {
        0
    } else {
        byte_len(s.drop_last()) + char_byte_len(s.last())
    }
}

/// The width of the parts on one line: their bytes and two for each `, `
/// between them.
pub open spec fn list_width(parts: Seq<Seq<char>>) -> nat
    decreases parts.len(),
{
    if parts.len() == 0 {
        0
    } else if parts.len() == 1 {
        byte_len(parts[0])
    } else {
        list_width(parts.drop_last()) + 2 + byte_len(parts.last())
    }
}

/// The widest list that stays on one line.
pub open spec fn max_width() -> nat {
    50
}

/// Each part followed by a comma and a line break. (The list is meant to
/// trim each part of surrounding whitespace; the parts of a symbol begin
/// and end with a quote or a bracket, so trimming leaves them unchanged.)
pub open spec fn vertical_list(parts: Seq<Seq<char>>) -> Seq<char>
    decreases parts.len(),
{
    if parts.len() == 0 {
        Seq::empty()
    } else {
        vertical_list(parts.drop_last()) + parts.last() + seq![',', '\n']
    }
}

/// The comma-separated list: on one line when it is at most `max_width`
/// wide, else one part per line.
pub open spec fn comma_list(parts: Seq<Seq<char>>) -> Seq<char> {
    if list_width(parts) <= max_width() {
        join(parts, seq![',', ' '])
    } else {
        vertical_list(parts)
    }
}

/// The pieces of `s` between line feeds (always at least one).
pub open spec fn split_line_feeds(s: Seq<char>) -> Seq<Seq<char>>
    decreases s.len(),
{
    if s.len() == 0 {
        seq![Seq::<char>::empty()]
    } else {
        let rest = split_line_feeds(s.drop_last());
        if s.last() == '\n' {
            rest.push(Seq::<char>::empty())
        } else {
            rest.update(rest.len() - 1, rest.last().push(s.last()))
        }
    }
}

/// A line without the carriage return that may end it.
pub open spec fn strip_cr(l: Seq<char>) -> Seq<char> {
    if l.len() > 0 && l.last() == '\r' {
        l.drop_last()
    } else {
        l
    }
}

/// The lines of `s`, as `str::lines` gives them: the pieces that a line
/// feed ends, without it and without a carriage return before it, then the
/// rest if it is not empty.
pub open spec fn text_lines(s: Seq<char>) -> Seq<Seq<char>> {
    let raw = split_line_feeds(s);
    let ended = Seq::new((raw.len() - 1) as nat, |k: int| strip_cr(raw[k]));
    if raw.last().len() == 0 {
        ended
    } else {
        ended.push(raw.last())
    }
}

/// The lines, each indented by two spaces, separated by line feeds.
pub open spec fn indented(lines: Seq<Seq<char>>) -> Seq<char> {
    join(Seq::new(lines.len(), |k: int| seq![' ', ' '] + lines[k]), seq!['\n'])
}

/// The parts in round brackets: the comma-separated list inline, or, when
/// it spans lines, each of its lines indented between the brackets.
pub open spec fn array_like(parts: Seq<Seq<char>>) -> Seq<char> {
    let list = comma_list(parts);
    if list.contains('\n') {
        seq!['(', '\n'] + indented(text_lines(list)) + seq!['\n', ')']
    } else {
        seq!['('] + list + seq![')']
    }
}

/// The word `symbol`.
pub open spec fn symbol_word() -> Seq<char> {
    seq!['s', 'y', 'm', 'b', 'o', 'l']
}

/// The representation of a symbol: `symbol("c")` for a single character,
/// otherwise `symbol` and the parts of the variants that hold every applied
/// modifier.
pub open spec fn spec_repr(s: SymbolModel) -> Seq<char> {
    match s {
        SymbolModel::Single(c) => symbol_word() + seq!['('] + quoted(seq![c]) + seq![')'],
        SymbolModel::Complex(vs) => symbol_word() + array_like(repr_parts(vs, Seq::empty())),
        SymbolModel::Modified(vs, a, _) => symbol_word() + array_like(repr_parts(vs, a)),
    }
}

/// Appends all of `t`.
pub fn push_str(s: &mut String, t: &str)
    ensures
        final(s)@ == old(s)@ + t@,
{
    s.append(t);
}

/// Appends `t` between double quotes.
pub fn push_quoted(s: &mut String, t: &str)
    ensures
        final(s)@ == old(s)@ + quoted(t@),
{
    push_char(s, '"');
    push_str(s, t);
    push_char(s, '"');
    assert(s@ =~= old(s)@ + quoted(t@));
}

/// Appends the entries joined with `sep`.
pub fn push_joined(s: &mut String, list: &Vec<String>, sep: &str)
    ensures
        final(s)@ == old(s)@ + join(list.deep_view(), sep@),
{
    let ghost start = s@;
    let ghost dv = list.deep_view();
    let mut i: usize = 0;
    assert(dv.take(0) =~= Seq::<Seq<char>>::empty());
    assert(start =~= start + join(dv.take(0), sep@));
    while i < list.len()
        invariant
            i <= list.len(),
            dv == list.deep_view(),
            s@ == start + join(dv.take(i as int), sep@),
        decreases list.len() - i,
    {
        if i > 0 {
            push_str(s, sep);
        }
        push_str(s, list[i].as_str());
        assert(dv.take(i + 1).drop_last() =~= dv.take(i as int));
        assert(dv.take(i + 1).last() == dv[i as int]);
        if i == 0 {
            assert(dv.take(1) =~= seq![dv[0]]);
            assert(s@ =~= start + join(dv.take(1), sep@));
        } else {
            assert(s@ =~= start + join(dv.take(i + 1), sep@));
        }
        i = i + 1;
    }
    assert(dv.take(list.len() as int) =~= dv);
}

/// The entries of `list` that are not in `pool`, in order.
fn entries_without(list: &Vec<String>, pool: &Vec<String>) -> (r: Vec<String>)
    ensures
        r.deep_view() == without(list.deep_view(), pool.deep_view()),
{
    let ghost dv = list.deep_view();
    let mut r: Vec<String> = Vec::new();
    let mut i: usize = 0;
    assert(dv.take(0) =~= Seq::<Seq<char>>::empty());
    while i < list.len()
        invariant
            i <= list.len(),
            dv == list.deep_view(),
            r.deep_view() == without(dv.take(i as int), pool.deep_view()),
        decreases list.len() - i,
    {
        assert(dv.take(i + 1).drop_last() =~= dv.take(i as int));
        assert(dv.take(i + 1).last() == dv[i as int]);
        if !list_contains(pool, list[i].as_str()) {
            let ghost before = r.deep_view();
            r.push(list[i].clone());
            assert(r.deep_view() =~= before.push(dv[i as int]));
        }
        i = i + 1;
    }
    assert(dv.take(list.len() as int) =~= dv);
    r
}

/// Whether every entry is the empty string.
fn entries_all_empty(list: &Vec<String>) -> (r: bool)
    ensures
        r == all_empty(list.deep_view()),
{
    let mut i: usize = 0;
    while i < list.len()
        invariant
            i <= list.len(),
            forall|k: int| 0 <= k < i ==> (#[trigger] list.deep_view()[k]).len() == 0,
        decreases list.len() - i,
    {
        if list[i].as_str().unicode_len() != 0 {
            assert(list.deep_view()[i as int].len() != 0);
            return false;
        }
        i = i + 1;
    }
    true
}

/// The text of one variant, as `variant_part` states it.
fn variant_text(v: &Variant, applied: &Vec<String>, Ghost(set): Ghost<Seq<char>>) -> (r: String)
    requires
        applied.deep_view() == modifiers_of(set),
    ensures
        r@ == variant_part(v@, set),
{
    let mods = split_modifiers(v.modifiers.as_str());
    let trimmed = entries_without(&mods, applied);
    let mut r = String::new();
    let mut c = String::new();
    push_char(&mut c, v.c);
    assert(c@ =~= seq![v.c]);
    if entries_all_empty(&trimmed) {
        push_quoted(&mut r, c.as_str());
        assert(r@ =~= quoted(seq![v.c]));
    } else {
        push_char(&mut r, '(');
        let mut joined = String::new();
        let dot = ".";
        proof {
            reveal_strlit(".");
            assert(dot@ =~= seq!['.']);
        }
        push_joined(&mut joined, &trimmed, dot);
        push_quoted(&mut r, joined.as_str());
        push_char(&mut r, ',');
        push_char(&mut r, ' ');
        push_quoted(&mut r, c.as_str());
        push_char(&mut r, ')');
        assert(joined@ =~= join(trimmed.deep_view(), seq!['.']));
        assert(r@ =~= seq!['('] + quoted(join(trimmed.deep_view(), seq!['.'])) + seq![',', ' ']
            + quoted(seq![v.c]) + seq![')']);
    }
    r
}

/// The parts for the variants that hold every applied modifier of the
/// dotted set `applied`, in order.
pub fn repr_variants(variants: &Vec<Variant>, applied: &str) -> (r: Vec<String>)
    ensures
        r.deep_view() == repr_parts(models(variants@), applied@),
{
    let applied_list = split_modifiers(applied);
    let ghost vs = models(variants@);
    let mut r: Vec<String> = Vec::new();
    let mut i: usize = 0;
    assert(vs.take(0) =~= Seq::<VariantModel>::empty());
    while i < variants.len()
        invariant
            i <= variants.len(),
            vs == models(variants@),
            applied_list.deep_view() == modifiers_of(applied@),
            r.deep_view() == repr_parts(vs.take(i as int), applied@),
        decreases variants.len() - i,
    {
        assert(vs.take(i + 1).drop_last() =~= vs.take(i as int));
        assert(vs.take(i + 1).last() == vs[i as int]);
        let mods = split_modifiers(variants[i].modifiers.as_str());
        let reachable = all_contained(&applied_list, &mods);
        assert(reachable == is_superset(applied@, vs[i as int].modifiers)) by {
            if reachable {
                assert forall|k: int| 0 <= k < modifiers_of(applied@).len() implies #[trigger] set_contains(
                    vs[i as int].modifiers,
                    modifiers_of(applied@)[k],
                ) by {
                    assert(mods.deep_view().contains(applied_list.deep_view()[k]));
                }
            } else {
                let k = choose|k: int| 0 <= k < applied_list.deep_view().len() && !mods.deep_view().contains(
                    #[trigger] applied_list.deep_view()[k],
                );
                assert(!set_contains(vs[i as int].modifiers, modifiers_of(applied@)[k]));
            }
        }
        if reachable {
            let part = variant_text(&variants[i], &applied_list, Ghost(applied@));
            let ghost before = r.deep_view();
            r.push(part);
            assert(r.deep_view() =~= before.push(variant_part(vs[i as int], applied@)));
        }
        i = i + 1;
    }
    assert(vs.take(variants.len() as int) =~= vs);
    r
}

/// A longer list is at least as wide.
proof fn lemma_list_width_grows(parts: Seq<Seq<char>>, k: int)
    requires
        0 <= k <= parts.len(),
    ensures
        list_width(parts.take(k)) <= list_width(parts),
    decreases parts.len() - k,
{
    if k < parts.len() {
        lemma_list_width_grows(parts, k + 1);
        let t = parts.take(k + 1);
        assert(t.drop_last() =~= parts.take(k));
    } else {
        assert(parts.take(k) =~= parts);
    }
}

/// A prefix takes no more bytes than the whole.
proof fn lemma_byte_len_grows(s: Seq<char>, k: int)
    requires
        0 <= k <= s.len(),
    ensures
        byte_len(s.take(k)) <= byte_len(s),
    decreases s.len() - k,
{
    if k < s.len() {
        lemma_byte_len_grows(s, k + 1);
        assert(s.take(k + 1).drop_last() =~= s.take(k));
    } else {
        assert(s.take(k) =~= s);
    }
}

/// The number of UTF-8 bytes of `s`, or `limit + 1` when it is larger
/// than `limit`.
fn bytes_up_to(s: &str, limit: usize) -> (r: usize)
    requires
        limit <= 100,
    ensures
        byte_len(s@) <= limit ==> r == byte_len(s@),
        byte_len(s@) > limit ==> r == limit + 1,
{
    let n = s.unicode_len();
    let mut total: usize = 0;
    let mut i: usize = 0;
    assert(s@.take(0) =~= Seq::<char>::empty());
    while i < n
        invariant
            n == s@.len(),
            i <= n,
            limit <= 100,
            total == byte_len(s@.take(i as int)),
            total <= limit,
        decreases n - i,
    {
        let c = s.get_char(i);
        let cw: usize = if (c as u32) < 0x80 {
            1
        } else if (c as u32) < 0x800 {
            2
        } else if (c as u32) < 0x10000 {
            3
        } else {
            4
        };
        assert(s@.take(i + 1).drop_last() =~= s@.take(i as int));
        assert(s@.take(i + 1).last() == c);
        if total + cw > limit {
            proof {
                lemma_byte_len_grows(s@, i + 1);
            }
            return limit + 1;
        }
        total = total + cw;
        i = i + 1;
    }
    assert(s@.take(n as int) =~= s@);
    total
}

/// Whether the parts fit on one line.
fn fits_on_line(parts: &Vec<String>) -> (r: bool)
    ensures
        r == (list_width(parts.deep_view()) <= max_width()),
{
    let ghost dv = parts.deep_view();
    let mut total: usize = 0;
    let mut i: usize = 0;
    assert(dv.take(0) =~= Seq::<Seq<char>>::empty());
    while i < parts.len()
        invariant
            i <= parts.len(),
            dv == parts.deep_view(),
            total == list_width(dv.take(i as int)),
            total <= 50,
        decreases parts.len() - i,
    {
        let ghost t = dv.take(i + 1);
        assert(t.drop_last() =~= dv.take(i as int));
        assert(t.last() == dv[i as int]);
        let w = bytes_up_to(parts[i].as_str(), 50);
        let sep: usize = if i > 0 { 2 } else { 0 };
        if w > 50 || total + sep + w > 50 {
            proof {
                if i == 0 {
                    assert(t =~= seq![dv[0]]);
                }
                lemma_list_width_grows(dv, i + 1);
            }
            return false;
        }
        if i == 0 {
            assert(t =~= seq![dv[0]]);
        }
        total = total + sep + w;
        i = i + 1;
    }
    assert(dv.take(parts.len() as int) =~= dv);
    true
}

/// Appends each part followed by a comma and a line break.
fn push_vertical(s: &mut String, parts: &Vec<String>)
    ensures
        final(s)@ == old(s)@ + vertical_list(parts.deep_view()),
{
    let ghost start = s@;
    let ghost dv = parts.deep_view();
    let mut i: usize = 0;
    assert(dv.take(0) =~= Seq::<Seq<char>>::empty());
    assert(start =~= start + vertical_list(dv.take(0)));
    while i < parts.len()
        invariant
            i <= parts.len(),
            dv == parts.deep_view(),
            s@ == start + vertical_list(dv.take(i as int)),
        decreases parts.len() - i,
    {
        push_str(s, parts[i].as_str());
        push_char(s, ',');
        push_char(s, '\n');
        let ghost t = dv.take(i + 1);
        assert(t.drop_last() =~= dv.take(i as int));
        assert(t.last() == dv[i as int]);
        assert(s@ =~= start + vertical_list(t));
        i = i + 1;
    }
    assert(dv.take(parts.len() as int) =~= dv);
}

/// Whether `s` holds the character `c`.
fn has_char(s: &str, c: char) -> (r: bool)
    ensures
        r == s@.contains(c),
{
    let n = s.unicode_len();
    let mut i: usize = 0;
    while i < n
        invariant
            n == s@.len(),
            i <= n,
            forall|k: int| 0 <= k < i ==> s@[k] != c,
        decreases n - i,
    {
        if s.get_char(i) == c {
            return true;
        }
        i = i + 1;
    }
    false
}

/// The pieces of `s` between line feeds.
fn line_feed_pieces(s: &str) -> (r: Vec<String>)
    ensures
        r.deep_view() == split_line_feeds(s@),
{
    let n = s.unicode_len();
    let mut parts: Vec<String> = Vec::new();
    let mut cur = String::new();
    let mut i: usize = 0;
    assert(s@.take(0) =~= Seq::<char>::empty());
    assert(parts.deep_view().push(cur@) =~= split_line_feeds(s@.take(0)));
    while i < n
        invariant
            n == s@.len(),
            i <= n,
            parts.deep_view().push(cur@) == split_line_feeds(s@.take(i as int)),
        decreases n - i,
    {
        let c = s.get_char(i);
        let ghost prev = s@.take(i as int);
        assert(s@.take(i + 1).drop_last() =~= prev);
        assert(s@.take(i + 1).last() == c);
        if c == '\n' {
            parts.push(cur);
            cur = String::new();
            assert(parts.deep_view().push(cur@) =~= split_line_feeds(prev).push(Seq::<char>::empty()));
        } else {
            let ghost old_cur = cur@;
            let ghost old_parts = parts.deep_view();
            push_char(&mut cur, c);
            assert(parts.deep_view().push(cur@) =~= old_parts.push(old_cur).update(
                old_parts.len() as int,
                old_cur.push(c),
            ));
        }
        i = i + 1;
    }
    parts.push(cur);
    assert(s@.take(n as int) =~= s@);
    parts
}

/// The lines of `s`, each indented by two spaces.
fn indented_lines(s: &str) -> (r: Vec<String>)
    ensures
        r.deep_view() == Seq::new(text_lines(s@).len(), |k: int| seq![' ', ' '] + text_lines(s@)[k]),
{
    let raw = line_feed_pieces(s);
    let ghost rv = raw.deep_view();
    proof {
        lemma_split_line_feeds_nonempty(s@);
    }
    let ghost lines = text_lines(s@);
    let last = raw.len() - 1;
    let mut r: Vec<String> = Vec::new();
    let mut i: usize = 0;
    while i < last
        invariant
            rv == raw.deep_view(),
            rv == split_line_feeds(s@),
            last == rv.len() - 1,
            i <= last,
            r.len() == i,
            forall|k: int| 0 <= k < i ==> (#[trigger] r.deep_view()[k]) == seq![' ', ' '] + strip_cr(rv[k]),
        decreases last - i,
    {
        let piece = raw[i].as_str();
        let m = piece.unicode_len();
        let mut line = String::new();
        push_char(&mut line, ' ');
        push_char(&mut line, ' ');
        let keep = if m > 0 && piece.get_char(m - 1) == '\r' { m - 1 } else { m };
        push_str(&mut line, piece.substring_char(0, keep));
        proof {
            if m > 0 && rv[i as int].last() == '\r' {
                assert(rv[i as int].subrange(0, keep as int) =~= rv[i as int].drop_last());
            } else {
                assert(rv[i as int].subrange(0, keep as int) =~= rv[i as int]);
            }
        }
        assert(line@ =~= seq![' ', ' '] + strip_cr(rv[i as int]));
        let ghost before = r.deep_view();
        r.push(line);
        assert(r.deep_view() =~= before.push(seq![' ', ' '] + strip_cr(rv[i as int])));
        i = i + 1;
    }
    if raw[last].as_str().unicode_len() > 0 {
        let mut line = String::new();
        push_char(&mut line, ' ');
        push_char(&mut line, ' ');
        push_str(&mut line, raw[last].as_str());
        assert(line@ =~= seq![' ', ' '] + rv[last as int]);
        let ghost before = r.deep_view();
        r.push(line);
        assert(r.deep_view() =~= before.push(seq![' ', ' '] + rv[last as int]));
    }
    assert(r.deep_view() =~= Seq::new(lines.len(), |k: int| seq![' ', ' '] + lines[k]));
    r
}

proof fn lemma_split_line_feeds_nonempty(s: Seq<char>)
    ensures
        split_line_feeds(s).len() >= 1,
    decreases s.len(),
{
    if s.len() > 0 {
        lemma_split_line_feeds_nonempty(s.drop_last());
    }
}

/// Appends the parts in round brackets, as `array_like` states it.
pub fn push_array_like(s: &mut String, parts: &Vec<String>)
    ensures
        final(s)@ == old(s)@ + array_like(parts.deep_view()),
{
    let ghost dv = parts.deep_view();
    let mut list = String::new();
    if fits_on_line(parts) {
        let sep = ", ";
        proof {
            reveal_strlit(", ");
            assert(sep@ =~= seq![',', ' ']);
        }
        push_joined(&mut list, parts, sep);
    } else {
        push_vertical(&mut list, parts);
    }
    assert(list@ =~= comma_list(dv));
    if has_char(list.as_str(), '\n') {
        let lines = indented_lines(list.as_str());
        let nl = "\n";
        proof {
            reveal_strlit("\n");
            assert(nl@ =~= seq!['\n']);
        }
        push_char(s, '(');
        push_char(s, '\n');
        push_joined(s, &lines, nl);
        push_char(s, '\n');
        push_char(s, ')');
        assert(s@ =~= old(s)@ + (seq!['(', '\n'] + indented(text_lines(list@)) + seq!['\n', ')']));
    } else {
        push_char(s, '(');
        push_str(s, list.as_str());
        push_char(s, ')');
        assert(s@ =~= old(s)@ + (seq!['('] + list@ + seq![')']));
    }
}

} // verus!
