use vstd::prelude::*;

verus! {

/// Whether every character is ASCII.
pub open spec fn all_ascii(s: Seq<char>) -> bool {
    forall|i: int| 0 <= i < s.len() ==> (#[trigger] s[i] as u32) < 128
}

/// ASCII whitespace as Rust's `char::is_whitespace` classifies it.
pub open spec fn ascii_whitespace(c: char) -> bool {
    c == ' ' || c == '\t' || c == '\n' || c == '\x0B' || c == '\x0C' || c == '\r'
}

/// What `char::is_whitespace` returns for a character.
pub uninterp spec fn char_whitespace(c: char) -> bool;

/// Calls `char::is_whitespace`. The result is named `char_whitespace`; for
/// ASCII characters the contract states it (space, tab, line feed, vertical
/// tab, form feed, carriage return). For other characters it depends on
/// Unicode tables and is left unstated.
#[verifier::external_body]
pub(crate) fn is_whitespace(c: char) -> (r: bool)
    ensures
        r == char_whitespace(c),
        (c as u32) < 128 ==> (r <==> ascii_whitespace(c)),
{
    c.is_whitespace()
}

/// Whitespace as `char::is_whitespace` answers: ASCII whitespace among ASCII
/// characters, the named result for the others.
pub open spec fn spec_is_whitespace(c: char) -> bool {
    if (c as u32) < 128 {
        ascii_whitespace(c)
    } else {
        char_whitespace(c)
    }
}

/// `char::is_whitespace`, deciding ASCII characters directly.
pub fn whitespace(c: char) -> (r: bool)
    ensures
        r == spec_is_whitespace(c),
{
    if (c as u32) < 128 {
        c == ' ' || c == '\t' || c == '\n' || c == '\x0B' || c == '\x0C' || c == '\r'
    } else {
        is_whitespace(c)
    }
}

/// What `str::get` with a byte range returns, as characters.
pub uninterp spec fn str_range(s: Seq<char>, start: int, end: int) -> Option<Seq<char>>;

/// `str::get(start..end)` on the byte range: for an ASCII string bytes and
/// characters coincide, so the range is the character range when it lies
/// within the string and the call answers `None` otherwise.
pub open spec fn spec_str_get(s: Seq<char>, start: int, end: int) -> Option<Seq<char>> {
    if all_ascii(s) {
        if start <= end <= s.len() {
            Some(s.subrange(start, end))
        } else {
            None
        }
    } else {
        str_range(s, start, end)
    }
}

/// Calls `str::get` with a byte range. The result is named `str_range`; the
/// contract states it for ASCII strings (character range when in bounds,
/// `None` otherwise). For other strings, which byte offsets fall on
/// character boundaries is left unstated.
#[verifier::external_body]
pub(crate) fn str_get_range<'a>(s: &'a str, start: usize, end: usize) -> (r: Option<&'a str>)
    ensures
        r matches Some(t) ==> str_range(s@, start as int, end as int) == Some(t@),
        r is None ==> str_range(s@, start as int, end as int) is None,
        all_ascii(s@) ==> (r is Some <==> start <= end <= s@.len()),
        all_ascii(s@) ==> (r matches Some(t) ==> t@ == s@.subrange(start as int, end as int)),
{
    s.get(start..end)
}

/// Whether a string is ASCII.
pub fn str_is_ascii(s: &str) -> (r: bool)
    ensures
        r == all_ascii(s@),
{
    let n = s.unicode_len();
    let mut i: usize = 0;
    while i < n
        invariant
            n == s@.len(),
            i <= n,
            forall|j: int| 0 <= j < i ==> (#[trigger] s@[j] as u32) < 128,
        decreases n - i,
    {
        if (s.get_char(i) as u32) >= 128 {
            return false;
        }
        i = i + 1;
    }
    true
}

/// `str::get(start..end)`, answered directly for ASCII strings.
pub fn str_get<'a>(s: &'a str, start: usize, end: usize) -> (r: Option<&'a str>)
    ensures
        r matches Some(t) ==> spec_str_get(s@, start as int, end as int) == Some(t@),
        r is None ==> spec_str_get(s@, start as int, end as int) is None,
{
    if str_is_ascii(s) {
        let n = s.unicode_len();
        if start <= end && end <= n {
            Some(s.substring_char(start, end))
        } else {
            None
        }
    } else {
        str_get_range(s, start, end)
    }
}

/// Calls `String::push`, which appends one character.
#[verifier::external_body]
pub(crate) fn push_char(s: &mut String, c: char)
    ensures
        final(s)@ == old(s)@.push(c),
{
    s.push(c)
}

/// A new string holding the characters of `s`.
pub fn string_of(s: &str) -> (r: String)
    ensures
        r@ == s@,
{
    let mut r = String::new();
    let n = s.unicode_len();
    let mut i: usize = 0;
    while i < n
        invariant
            n == s@.len(),
            i <= n,
            r@ == s@.subrange(0, i as int),
        decreases n - i,
    {
        let c = s.get_char(i);
        push_char(&mut r, c);
        assert(r@ =~= s@.subrange(0, i + 1));
        i = i + 1;
    }
    assert(r@ =~= s@);
    r
}

/// Appends the characters of `t` to `r`.
pub fn push_str(r: &mut String, t: &str)
    ensures
        final(r)@ == old(r)@ + t@,
{
    let n = t.unicode_len();
    let mut i: usize = 0;
    while i < n
        invariant
            n == t@.len(),
            i <= n,
            r@ == old(r)@ + t@.subrange(0, i as int),
        decreases n - i,
    {
        let c = t.get_char(i);
        push_char(r, c);
        assert(r@ =~= old(r)@ + t@.subrange(0, i + 1));
        i = i + 1;
    }
    assert(t@.subrange(0, n as int) =~= t@);
}

/// The decimal digits of a number, most significant first.
pub open spec fn decimal(n: nat) -> Seq<char>
    decreases n,
{
    if n < 10 {
        seq![(n + 48) as char]
    } else {
        decimal(n / 10).push(((n % 10) + 48) as char)
    }
}

/// Appends the decimal form of `n` (what `to_string` gives for an unsigned
/// integer).
pub fn push_decimal(r: &mut String, n: u64)
    ensures
        final(r)@ == old(r)@ + decimal(n as nat),
    decreases n,
{
    if n < 10 {
        let c = digit_char(n as u8);
        push_char(r, c);
        assert(decimal(n as nat) =~= seq![c]);
    } else {
        push_decimal(r, n / 10);
        let c = digit_char((n % 10) as u8);
        push_char(r, c);
        assert(decimal(n as nat) =~= decimal((n / 10) as nat).push(c));
        assert(old(r)@ + decimal(n as nat) =~= old(r)@ + decimal((n / 10) as nat) + seq![c]);
    }
}

/// The character of a decimal digit.
pub fn digit_char(d: u8) -> (c: char)
    requires
        d < 10,
    ensures
        c == (d + 48) as char,
{
    match d {
        0 => '0',
        1 => '1',
        2 => '2',
        3 => '3',
        4 => '4',
        5 => '5',
        6 => '6',
        7 => '7',
        8 => '8',
        _ => '9',
    }
}

/// A string equals a given character sequence.
pub fn str_eq(s: &str, t: &str) -> (r: bool)
    ensures
        r == (s@ == t@),
{
    let n = s.unicode_len();
    let m = t.unicode_len();
    if n != m {
        return false;
    }
    let mut i: usize = 0;
    while i < n
        invariant
            n == s@.len(),
            m == t@.len(),
            n == m,
            i <= n,
            forall|j: int| 0 <= j < i ==> s@[j] == t@[j],
        decreases n - i,
    {
        if s.get_char(i) != t.get_char(i) {
            return false;
        }
        i = i + 1;
    }
    assert(s@ =~= t@);
    true
}

/// The lowercase form of a string as `str::to_lowercase` produces it.
pub uninterp spec fn lowercase(s: Seq<char>) -> Seq<char>;

/// The lowercase form of an ASCII character: letters `A` to `Z` become
/// `a` to `z`, the others stay.
pub open spec fn ascii_lowercase(c: char) -> char {
    if 'A' <= c <= 'Z' {
        ((c as u32) + 32) as char
    } else {
        c
    }
}

/// Calls `str::to_lowercase`, which maps every character to its Unicode
/// lowercase form. The result is named `lowercase`; for an ASCII string the
/// contract states it (the letters `A` to `Z` lowered, every other
/// character kept). For other strings it depends on Unicode tables and is
/// left unstated.
#[verifier::external_body]
pub(crate) fn to_lowercase(s: &str) -> (r: String)
    ensures
        r@ == lowercase(s@),
        all_ascii(s@) ==> r@ == s@.map_values(|c: char| ascii_lowercase(c)),
{
    s.to_lowercase()
}

/// A string holding the given characters.
pub fn string_from(a: &Vec<char>) -> (r: String)
    ensures
        r@ == a@,
{
    let mut r = String::new();
    let mut i: usize = 0;
    while i < a.len()
        invariant
            i <= a@.len(),
            r@ == a@.subrange(0, i as int),
        decreases a@.len() - i,
    {
        push_char(&mut r, a[i]);
        assert(r@ =~= a@.subrange(0, i + 1));
        i = i + 1;
    }
    assert(r@ =~= a@);
    r
}

} // verus!
