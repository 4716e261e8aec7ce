//! ASCII case folding and the string operations the runtime uses.
use vstd::prelude::*;
use vstd::utf8::{valid_utf8, decode_utf8};

verus! {

/// One character folded to ASCII lower case.
pub open spec fn lower_char(c: char) -> char {
    if 'A' <= c && c <= 'Z' {
        ((c as u32) + 32) as char
    } else {
        c
    }
}

/// A string folded to ASCII lower case, character by character.
pub open spec fn lower(s: Seq<char>) -> Seq<char> {
    s.map_values(|c: char| lower_char(c))
}

/// Folding to lower case twice folds as once.
pub proof fn lemma_lower_idempotent(s: Seq<char>)
    ensures
        lower(lower(s)) == lower(s),
{
    assert forall|i: int| 0 <= i < s.len() implies lower_char(lower_char(s[i])) == lower_char(s[i]) by {
        let c = s[i];
        if 'A' <= c && c <= 'Z' {
            assert(('a' as u32) <= (lower_char(c) as u32) <= ('z' as u32));
        }
    }
    assert(lower(lower(s)) =~= lower(s));
}

/// Two strings that are equal once folded to ASCII lower case.
pub open spec fn same_ignoring_ascii_case(a: Seq<char>, b: Seq<char>) -> bool {
    lower(a) == lower(b)
}

/// One character folded to ASCII lower case, as `char::to_ascii_lowercase`
/// folds it.
fn lower_char_exec(c: char) -> (r: char)
    ensures
        r == lower_char(c),
{
    if 'A' <= c && c <= 'Z' {
        let code = c as u32;
        let folded = (code + 32) as u8;
        assert(folded as u32 == code + 32);
        folded as char
    } else {
        c
    }
}

/// The string with `A`..=`Z` mapped to `a`..=`z` and every other
/// character kept, as `str::to_ascii_lowercase` gives it.
pub(crate) fn to_ascii_lowercase(s: &str) -> (r: String)
    ensures
        r@ == lower(s@),
{
    let n = s.unicode_len();
    let mut out = String::new();
    let mut i: usize = 0;
    while i < n
        invariant
            n == s@.len(),
            0 <= i <= n,
            out@ == lower(s@.subrange(0, i as int)),
        decreases n - i,
    {
        let c = lower_char_exec(s.get_char(i));
        let piece = char_string(c);
        out = out.concat(piece.as_str());
        assert(lower(s@.subrange(0, i + 1)) =~= lower(s@.subrange(0, i as int)).push(c));
        i = i + 1;
    }
    assert(s@.subrange(0, n as int) =~= s@);
    out
}

/// Whether the two strings agree once both are folded to ASCII lower case,
/// as `str::eq_ignore_ascii_case` tells.
pub(crate) fn eq_ignore_ascii_case(a: &str, b: &str) -> (r: bool)
    ensures
        r == same_ignoring_ascii_case(a@, b@),
{
    let n = a.unicode_len();
    if n != b.unicode_len() {
        proof {
            if lower(a@) == lower(b@) {
                assert(lower(a@).len() == lower(b@).len());
            }
        }
        return false;
    }
    let mut i: usize = 0;
    while i < n
        invariant
            n == a@.len(),
            n == b@.len(),
            0 <= i <= n,
            forall|j: int| 0 <= j < i ==> lower_char(a@[j]) == lower_char(b@[j]),
        decreases n - i,
    {
        if lower_char_exec(a.get_char(i)) != lower_char_exec(b.get_char(i)) {
            proof {
                assert(lower(a@)[i as int] != lower(b@)[i as int]);
            }
            return false;
        }
        i = i + 1;
    }
    assert(lower(a@) =~= lower(b@));
    true
}

/// Whether the two strings hold the same characters, as `==` on `str`
/// tells.
pub(crate) fn str_equal(a: &str, b: &str) -> (r: bool)
    ensures
        r == (a@ == b@),
{
    let n = a.unicode_len();
    if n != b.unicode_len() {
        return false;
    }
    let mut i: usize = 0;
    while i < n
        invariant
            n == a@.len(),
            n == b@.len(),
            0 <= i <= n,
            forall|j: int| 0 <= j < i ==> a@[j] == b@[j],
        decreases n - i,
    {
        if a.get_char(i) != b.get_char(i) {
            return false;
        }
        i = i + 1;
    }
    assert(a@ =~= b@);
    true
}

/// Whether either of two characters occurs in a string, as `str::contains`
/// with a pattern of two characters tells.
pub(crate) fn contains_either(s: &str, first: char, second: char) -> (r: bool)
    ensures
        r == (s@.contains(first) || s@.contains(second)),
{
    let n = s.unicode_len();
    let mut i: usize = 0;
    while i < n
        invariant
            n == s@.len(),
            0 <= i <= n,
            forall|j: int| 0 <= j < i ==> s@[j] != first && s@[j] != second,
        decreases n - i,
    {
        let c = s.get_char(i);
        if c == first || c == second {
            assert(s@[i as int] == c);
            return true;
        }
        i = i + 1;
    }
    false
}

/// Whether a string starts with a character, as `str::starts_with` with a
/// character pattern tells.
pub(crate) fn starts_with_char(s: &str, c: char) -> (r: bool)
    ensures
        r == (s@.len() > 0 && s@[0] == c),
{
    if s.unicode_len() == 0 {
        false
    } else {
        s.get_char(0) == c
    }
}

/// `String::from_utf8` on a copy of the bytes: the string that they encode,
/// and nothing when they are not well-formed UTF-8.
#[verifier::external_body]
pub(crate) fn string_from_utf8(bytes: &[u8]) -> (r: Option<String>)
    ensures
        r is Some <==> valid_utf8(bytes@),
        r matches Some(s) ==> s@ == decode_utf8(bytes@),
{
    String::from_utf8(bytes.to_vec()).ok()
}

/// `char::to_string`: the one-character string.
#[verifier::external_body]
pub(crate) fn char_string(c: char) -> (r: String)
    ensures
        r@ == seq![c],
{
    c.to_string()
}

/// The decimal digit of a value below 10.
pub open spec fn digit_of(d: int) -> char {
    if d == 0 { '0' } else if d == 1 { '1' } else if d == 2 { '2' } else if d == 3 { '3' }
    else if d == 4 { '4' } else if d == 5 { '5' } else if d == 6 { '6' } else if d == 7 { '7' }
    else if d == 8 { '8' } else { '9' }
}

/// The decimal digits of a number, most significant first, without leading
/// zeros ("0" for 0).
pub open spec fn decimal(n: nat) -> Seq<char>
    decreases n,
{
    if n < 10 {
        seq![digit_of(n as int)]
    } else {
        decimal(n / 10).push(digit_of((n % 10) as int))
    }
}

/// The decimal text of a signed number: a minus sign before the digits of
/// its magnitude when it is negative.
pub open spec fn signed_decimal(n: int) -> Seq<char> {
    if n < 0 {
        "-"@ + decimal((-n) as nat)
    } else {
        decimal(n as nat)
    }
}

/// A decimal digit.
fn digit_char(d: u64) -> (r: char)
    requires
        d < 10,
    ensures
        r == digit_of(d as int),
{
    match d {
        0 => '0',
        1 => '1',
        2 => '2',
        3 => '3',
        4 => '4',
        5 => '5',
        6 => '6',
        7 => '7',
        8 => '8',
        _ => '9',
    }
}

/// The decimal digits of a number, for messages.
pub(crate) fn decimal_text(n: u64) -> (r: String)
    ensures
        r@ == decimal(n as nat),
    decreases n,
{
    let last = char_string(digit_char(n % 10));
    if n < 10 {
        last
    } else {
        let r = decimal_text(n / 10).concat(last.as_str());
        assert(r@ =~= decimal(n as nat));
        r
    }
}

/// The decimal text of a signed number, for messages.
pub(crate) fn signed_text(n: i32) -> (r: String)
    ensures
        r@ == signed_decimal(n as int),
{
    if n < 0 {
        let magnitude: u64 = (0 - (n as i64)) as u64;
        "-".to_owned().concat(decimal_text(magnitude).as_str())
    } else {
        decimal_text(n as u64)
    }
}

} // verus!
