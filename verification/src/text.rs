//! Text plumbing shared by the other modules: characters in and out of
//! strings, decimal rendering, ASCII case, and the three conversions that
//! are taken from outside this crate (Unicode lowercasing from the standard
//! library, UTF-16 encoding and lossy decoding from `widestring`).

use vstd::prelude::*;

verus! {

/// Trusted: `String::push` appends one character and changes nothing else.
pub assume_specification[ String::push ](s: &mut String, c: char)
    ensures
        final(s)@ == old(s)@.push(c),
;

/// What `str::to_lowercase` returns for the text `s`.
pub uninterp spec fn lowercase_of(s: Seq<char>) -> Seq<char>;

/// The UTF-16 code units of the character `c`: the character's number
/// where that is below 0x10000, else a high and a low surrogate that share
/// the twenty bits of the number less 0x10000.
pub open spec fn utf16_of_char(c: char) -> Seq<u16> {
    let v = c as u32 as int;
    if v < 0x10000 {
        seq![v as u16]
    } else {
        seq![(0xd800 + (v - 0x10000) / 0x400) as u16, (0xdc00 + (v - 0x10000) % 0x400) as u16]
    }
}

/// The UTF-16 code units of the text `s`: those of its characters, one
/// after the other. This is what `widestring::U16String::from_str` holds
/// for `s`.
pub open spec fn utf16_of(s: Seq<char>) -> Seq<u16>
    decreases s.len(),
{
    if s.len() == 0 {
        Seq::<u16>::empty()
    } else {
        utf16_of(s.drop_last()) + utf16_of_char(s.last())
    }
}

/// What `widestring::U16Str::to_string_lossy` returns for the code units
/// `units`: the decoded text, with U+FFFD wherever the units are malformed.
pub uninterp spec fn lossy_text_of(units: Seq<u16>) -> Seq<char>;

/// Trusted: calls `str::to_lowercase`. The contract only names the result;
/// nothing is claimed about what Unicode lowercasing does to any text.
#[verifier::external_body]
pub(crate) fn to_lowercase(s: &str) -> (r: String)
    ensures
        r@ == lowercase_of(s@),
{
    s.to_lowercase()
}

/// Trusted: calls `widestring::U16String::from_str`, which collects
/// `str::encode_utf16`. The contract says that the units are the UTF-16
/// encoding of the text.
#[verifier::external_body]
pub(crate) fn utf16_encode(s: &str) -> (r: Vec<u16>)
    ensures
        r@ == utf16_of(s@),
{
    widestring::U16String::from_str(s).into_vec()
}

/// Trusted: calls `widestring::U16Str::to_string_lossy`, which is
/// `String::from_utf16_lossy` on the units. The contract names the result,
/// and says that units which are the UTF-16 encoding of a text decode to
/// that text.
#[verifier::external_body]
pub(crate) fn utf16_decode_lossy(units: &[u16]) -> (r: String)
    ensures
        r@ == lossy_text_of(units@),
        forall|t: Seq<char>| units@ == #[trigger] utf16_of(t) ==> r@ == t,
{
    widestring::U16Str::from_slice(units).to_string_lossy()
}

/// The characters of `s`, in order.
pub fn chars_of(s: &str) -> (v: Vec<char>)
    ensures
        v@ == s@,
{
    let mut v: Vec<char> = Vec::new();
    for c in it: s.chars()
        invariant
            v@ == it.history(),
    {
        v.push(c);
    }
    v
}

/// The string whose characters are `v[from..]`.
pub fn string_from(v: &Vec<char>, from: usize) -> (s: String)
    requires
        from <= v.len(),
    ensures
        s@ == v@.skip(from as int),
{
    let mut s = String::new();
    let mut i: usize = from;
    while i < v.len()
        invariant
            from <= i <= v.len(),
            s@ == v@.subrange(from as int, i as int),
        decreases v.len() - i,
    {
        s.push(v[i]);
        i += 1;
        assert(v@.subrange(from as int, i as int) == v@.subrange(from as int, i as int - 1).push(
            v@[i as int - 1],
        ));
    }
    assert(v@.subrange(from as int, v.len() as int) == v@.skip(from as int));
    s
}

/// The string whose characters are `v`.
pub fn string_of(v: &Vec<char>) -> (s: String)
    ensures
        s@ == v@,
{
    let s = string_from(v, 0);
    assert(v@.skip(0) == v@);
    s
}

/// Appends the characters of `tail` to `v`.
pub fn push_all(v: &mut Vec<char>, tail: &Vec<char>)
    ensures
        final(v)@ == old(v)@ + tail@,
{
    let mut i: usize = 0;
    while i < tail.len()
        invariant
            i <= tail.len(),
            v@ == old(v)@ + tail@.take(i as int),
        decreases tail.len() - i,
    {
        v.push(tail[i]);
        i += 1;
        assert(tail@.take(i as int) == tail@.take(i as int - 1).push(tail@[i as int - 1]));
    }
    assert(tail@.take(tail.len() as int) == tail@);
}

/// Whether two character vectors hold the same text.
pub fn same_chars(a: &Vec<char>, b: &Vec<char>) -> (r: bool)
    ensures
        r == (a@ == b@),
{
    if a.len() != b.len() {
        return false;
    }
    let mut i: usize = 0;
    while i < a.len()
        invariant
            i <= a.len(),
            a.len() == b.len(),
            a@.take(i as int) == b@.take(i as int),
        decreases a.len() - i,
    {
        if a[i] != b[i] {
            return false;
        }
        i += 1;
        assert(a@.take(i as int) == a@.take(i as int - 1).push(a@[i as int - 1]));
        assert(b@.take(i as int) == b@.take(i as int - 1).push(b@[i as int - 1]));
    }
    assert(a@.take(a.len() as int) == a@);
    assert(b@.take(b.len() as int) == b@);
    true
}

/// The decimal digit for `d`, which is below ten.
pub open spec fn digit_char(d: nat) -> char
    recommends
        d < 10,
{
    (48 + d) as char
}

/// The decimal rendering of `n`, without sign or leading zeros.
pub open spec fn decimal(n: nat) -> Seq<char>
    decreases n,
{
    if n < 10 {
        seq![digit_char(n)]
    } else {
        decimal(n / 10).push(digit_char(n % 10))
    }
}

/// Renders `n` in decimal.
pub fn decimal_digits(n: u64) -> (v: Vec<char>)
    ensures
        v@ == decimal(n as nat),
{
    let mut rev: Vec<char> = Vec::new();
    let mut rest: u64 = n;
    while rest >= 10
        invariant
            decimal(n as nat) == decimal(rest as nat) + rev@.reverse(),
        decreases rest,
    {
        let d: u8 = (rest % 10) as u8;
        let c: char = (48u8 + d) as char;
        proof {
            let old_rev = rev@;
            assert(old_rev.push(c).reverse() == seq![c] + old_rev.reverse());
            assert(decimal(rest as nat) == decimal((rest / 10) as nat).push(c));
            assert(decimal((rest / 10) as nat).push(c) + old_rev.reverse() == decimal(
                (rest / 10) as nat,
            ) + (seq![c] + old_rev.reverse()));
        }
        rev.push(c);
        rest = rest / 10;
    }
    let mut v: Vec<char> = Vec::new();
    let first: char = (48u8 + (rest as u8)) as char;
    v.push(first);
    assert(v@ == decimal(rest as nat));
    let mut i: usize = rev.len();
    while i > 0
        invariant
            i <= rev.len(),
            v@ == decimal(rest as nat) + rev@.reverse().take(rev.len() - i),
        decreases i,
    {
        i -= 1;
        v.push(rev[i]);
        assert(rev@.reverse().take(rev.len() - i) == rev@.reverse().take(rev.len() - i - 1).push(
            rev@[i as int],
        ));
    }
    assert(rev@.reverse().take(rev.len() as int) == rev@.reverse());
    v
}

/// Whether `c` is an ASCII character.
pub open spec fn is_ascii_char(c: char) -> bool {
    (c as u32) < 128
}

/// Whether `c` is one of the ASCII letters.
pub open spec fn is_ascii_letter(c: char) -> bool {
    ('a' <= c && c <= 'z') || ('A' <= c && c <= 'Z')
}

/// `c` with an ASCII capital turned into its small letter; any other
/// character is unchanged.
pub open spec fn ascii_lower(c: char) -> char {
    if 'A' <= c && c <= 'Z' {
        ((c as u32) + 32) as char
    } else {
        c
    }
}

/// `c` with an ASCII small letter turned into its capital; any other
/// character is unchanged.
pub open spec fn ascii_upper(c: char) -> char {
    if 'a' <= c && c <= 'z' {
        ((c as u32) - 32) as char
    } else {
        c
    }
}

/// Computes [`ascii_lower`].
pub fn to_ascii_lower(c: char) -> (r: char)
    ensures
        r == ascii_lower(c),
{
    if c >= 'A' && c <= 'Z' {
        let u: u8 = ((c as u32) + 32) as u8;
        u as char
    } else {
        c
    }
}

/// Computes [`ascii_upper`].
pub fn to_ascii_upper(c: char) -> (r: char)
    ensures
        r == ascii_upper(c),
{
    if c >= 'a' && c <= 'z' {
        let u: u8 = ((c as u32) - 32) as u8;
        u as char
    } else {
        c
    }
}

} // verus!
