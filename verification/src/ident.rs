//! Identifiers: what a modifier name may be.
//!
//! An identifier starts with a character of the Unicode property XID_Start
//! or `_`, and continues with characters of XID_Continue, `_` or `-`.

use vstd::prelude::*;

verus! {

/// Whether `c` has the Unicode property XID_Start (as unicode-ident's
/// tables give it).
pub uninterp spec fn xid_start(c: char) -> bool;

/// Whether `c` has the Unicode property XID_Continue (as unicode-ident's
/// tables give it).
pub uninterp spec fn xid_continue(c: char) -> bool;

/// An ASCII letter.
pub open spec fn is_ascii_letter(c: char) -> bool {
    ('a' as u32 <= c as u32 <= 'z' as u32) || ('A' as u32 <= c as u32 <= 'Z' as u32)
}

/// An ASCII digit.
pub open spec fn is_ascii_digit(c: char) -> bool {
    '0' as u32 <= c as u32 <= '9' as u32
}

/// Calls `unicode_ident::is_xid_start`. Its source answers ASCII characters
/// from a bit mask whose set bits are exactly the letters `A`-`Z` and
/// `a`-`z`, and other characters from generated tables, which the name
/// `xid_start` stands for.
#[verifier::external_body]
fn char_is_xid_start(c: char) -> (r: bool)
    ensures
        r == xid_start(c),
        (c as u32) < 128 ==> (r <==> is_ascii_letter(c)),
{
    unicode_ident::is_xid_start(c)
}

/// Calls `unicode_ident::is_xid_continue`. Its source answers ASCII
/// characters from a bit mask whose set bits are exactly the letters, the
/// digits and `_`, and other characters from generated tables, which the
/// name `xid_continue` stands for.
#[verifier::external_body]
fn char_is_xid_continue(c: char) -> (r: bool)
    ensures
        r == xid_continue(c),
        (c as u32) < 128 ==> (r <==> (is_ascii_letter(c) || is_ascii_digit(c) || c == '_')),
{
    unicode_ident::is_xid_continue(c)
}

/// Whether a character can start an identifier.
pub open spec fn spec_is_id_start(c: char) -> bool {
    xid_start(c) || c == '_'
}

/// Whether a character can continue an identifier.
pub open spec fn spec_is_id_continue(c: char) -> bool {
    xid_continue(c) || c == '_' || c == '-'
}

/// Whether a string is an identifier: a start character, then continue
/// characters.
pub open spec fn spec_is_ident(s: Seq<char>) -> bool {
    &&& s.len() > 0
    &&& spec_is_id_start(s[0])
    &&& forall|k: int| 1 <= k < s.len() ==> spec_is_id_continue(#[trigger] s[k])
}

/// Whether a character can start an identifier.
pub fn is_id_start(c: char) -> (r: bool)
    ensures
        r == spec_is_id_start(c),
        (c as u32) < 128 ==> (r <==> (is_ascii_letter(c) || c == '_')),
{
    char_is_xid_start(c) || c == '_'
}

/// Whether a character can continue an identifier.
pub fn is_id_continue(c: char) -> (r: bool)
    ensures
        r == spec_is_id_continue(c),
        (c as u32) < 128 ==> (r <==> (is_ascii_letter(c) || is_ascii_digit(c) || c == '_' || c
            == '-')),
{
    char_is_xid_continue(c) || c == '_' || c == '-'
}

/// Whether a string is a valid identifier.
pub fn is_ident(s: &str) -> (r: bool)
    ensures
        r == spec_is_ident(s@),
        r ==> !s@.contains('.'),
{
    let n = s.unicode_len();
    if n == 0 {
        return false;
    }
    if !is_id_start(s.get_char(0)) {
        return false;
    }
    let mut i: usize = 1;
    while i < n
        invariant
            n == s@.len(),
            1 <= i <= n,
            forall|k: int| 1 <= k < i ==> spec_is_id_continue(#[trigger] s@[k]),
            forall|k: int| 0 <= k < i ==> #[trigger] s@[k] != '.',
            spec_is_id_start(s@[0]),
        decreases n - i,
    {
        if !is_id_continue(s.get_char(i)) {
            return false;
        }
        i = i + 1;
    }
    assert(!s@.contains('.')) by {
        if s@.contains('.') {
            let k = choose|k: int| 0 <= k < s@.len() && s@[k] == '.';
            assert(s@[k] != '.');
        }
    }
    true
}

} // verus!
