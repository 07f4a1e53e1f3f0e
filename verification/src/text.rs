//! Text helpers shared by the whole crate: the standard library's string
//! operations that the rest of the code needs, each with what std documents
//! about it, plus decimal rendering of integers.

use vstd::prelude::*;
use vstd::string::*;

verus! {

/// Whitespace as `char::is_whitespace` defines it: the Unicode
/// `White_Space` property.
pub open spec fn is_space(c: char) -> bool {
    let u = c as u32;
    ||| 0x9 <= u <= 0xD
    ||| u == 0x20
    ||| u == 0x85
    ||| u == 0xA0
    ||| u == 0x1680
    ||| 0x2000 <= u <= 0x200A
    ||| u == 0x2028
    ||| u == 0x2029
    ||| u == 0x202F
    ||| u == 0x205F
    ||| u == 0x3000
}

/// `s` with its leading whitespace removed.
pub open spec fn trim_front(s: Seq<char>) -> Seq<char>
    decreases s.len(),
{
    if s.len() > 0 && is_space(s[0]) {
        trim_front(s.drop_first())
    } else {
        s
    }
}

/// `s` with its trailing whitespace removed.
pub open spec fn trim_back(s: Seq<char>) -> Seq<char>
    decreases s.len(),
{
    if s.len() > 0 && is_space(s.last()) {
        trim_back(s.drop_last())
    } else {
        s
    }
}

/// `s` with leading and trailing whitespace removed.
pub open spec fn trimmed(s: Seq<char>) -> Seq<char> {
    trim_back(trim_front(s))
}

/// Whitespace in front of text that starts with something else is all that
/// trimming the front takes away.
proof fn lemma_trim_front_spaces(lead: Seq<char>, rest: Seq<char>)
    requires
        forall|i: int| 0 <= i < lead.len() ==> is_space(#[trigger] lead[i]),
        rest.len() > 0,
        !is_space(rest[0]),
    ensures
        trim_front(lead + rest) == rest,
    decreases lead.len(),
{
    if lead.len() == 0 {
        assert(lead + rest =~= rest);
    } else {
        assert((lead + rest).drop_first() =~= lead.drop_first() + rest);
        assert((lead + rest)[0] == lead[0]);
        lemma_trim_front_spaces(lead.drop_first(), rest);
    }
}

/// Whitespace behind text that ends with something else is all that
/// trimming the back takes away.
proof fn lemma_trim_back_spaces(rest: Seq<char>, trail: Seq<char>)
    requires
        forall|i: int| 0 <= i < trail.len() ==> is_space(#[trigger] trail[i]),
        rest.len() > 0,
        !is_space(rest.last()),
    ensures
        trim_back(rest + trail) == rest,
    decreases trail.len(),
{
    if trail.len() == 0 {
        assert(rest + trail =~= rest);
    } else {
        assert((rest + trail).drop_last() =~= rest + trail.drop_last());
        assert((rest + trail).last() == trail.last());
        lemma_trim_back_spaces(rest, trail.drop_last());
    }
}

/// Trimming takes away exactly the whitespace around text that neither
/// starts nor ends with whitespace.
pub proof fn lemma_trimmed_ignores_spaces(lead: Seq<char>, t: Seq<char>, trail: Seq<char>)
    requires
        forall|i: int| 0 <= i < lead.len() ==> is_space(#[trigger] lead[i]),
        forall|i: int| 0 <= i < trail.len() ==> is_space(#[trigger] trail[i]),
        t.len() > 0,
        !is_space(t[0]),
        !is_space(t.last()),
    ensures
        trimmed(lead + t + trail) == t,
{
    assert(lead + t + trail =~= lead + (t + trail));
    assert((t + trail)[0] == t[0]);
    lemma_trim_front_spaces(lead, t + trail);
    lemma_trim_back_spaces(t, trail);
}

/// Calls `str::trim`, which removes leading and trailing `White_Space`
/// characters and nothing else.
#[verifier::external_body]
pub fn trim_text(s: &str) -> (r: &str)
    ensures
        r@ == trimmed(s@),
{
    s.trim()
}

/// True when `s` begins with `prefix`.
pub open spec fn has_prefix<T>(s: Seq<T>, prefix: Seq<T>) -> bool {
    prefix.len() <= s.len() && s.subrange(0, prefix.len() as int) == prefix
}

/// Calls `str::strip_prefix`: the rest of `s` after `prefix`, or `None`
/// when `s` does not begin with it.
#[verifier::external_body]
pub fn strip_prefix_text<'a>(s: &'a str, prefix: &str) -> (r: Option<&'a str>)
    ensures
        r is Some <==> has_prefix(s@, prefix@),
        r matches Some(rest) ==> rest@ == s@.skip(prefix@.len() as int),
{
    s.strip_prefix(prefix)
}

/// What `str::to_lowercase` makes of a string. Unicode case mapping; the
/// contract only names it.
pub uninterp spec fn lowercase_of(s: Seq<char>) -> Seq<char>;

/// Calls `str::to_lowercase`.
#[verifier::external_body]
pub fn lowercase_text(s: &str) -> (r: String)
    ensures
        r@ == lowercase_of(s@),
{
    s.to_lowercase()
}

/// Calls `String::push`: appends one character.
#[verifier::external_body]
pub fn push_char(s: &mut String, c: char)
    ensures
        final(s)@ == old(s)@.push(c),
{
    s.push(c)
}

/// Calls `String::from_utf8`, which accepts exactly the byte strings that
/// are valid UTF-8 and then holds the characters they encode.
#[verifier::external_body]
pub fn string_from_utf8(bytes: Vec<u8>) -> (r: Option<String>)
    ensures
        r is Some <==> vstd::utf8::valid_utf8(bytes@),
        r matches Some(s) ==> s@ == vstd::utf8::decode_utf8(bytes@),
{
    String::from_utf8(bytes).ok()
}

/// The text `String::from_utf8_lossy` makes of some bytes.
pub uninterp spec fn lossy_text(bytes: Seq<u8>) -> Seq<char>;

/// Calls `String::from_utf8_lossy`: valid UTF-8 comes back as the
/// characters it encodes; what else it does with invalid sequences (it puts
/// a replacement character in their place) is named, not stated.
#[verifier::external_body]
pub fn string_from_utf8_lossy(bytes: &[u8]) -> (s: String)
    ensures
        s@ == lossy_text(bytes@),
        vstd::utf8::valid_utf8(bytes@) ==> s@ == vstd::utf8::decode_utf8(bytes@),
{
    String::from_utf8_lossy(bytes).into_owned()
}

/// Appends `other` to `s`.
pub fn append_str(s: &mut String, other: &str)
    ensures
        final(s)@ == old(s)@ + other@,
{
    s.append(other);
}

/// The decimal digit for `d`, which is below ten.
pub open spec fn digit_char(d: int) -> char {
    (48 + d) as char
}

/// `n` written out in decimal, with no leading zeros (zero is "0").
pub open spec fn decimal(n: nat) -> Seq<char>
    decreases n,
{
    if n < 10 {
        seq![digit_char(n as int)]
    } else {
        decimal(n / 10).push(digit_char((n % 10) as int))
    }
}

/// `n` in decimal, padded with zeros on the left to at least `width` digits.
pub open spec fn padded_decimal(n: nat, width: nat) -> Seq<char> {
    let d = decimal(n);
    if d.len() >= width {
        d
    } else {
        Seq::new((width - d.len()) as nat, |i: int| '0') + d
    }
}

proof fn lemma_decimal_len(n: nat)
    ensures
        decimal(n).len() >= 1,
        n < 10 ==> decimal(n).len() == 1,
        n >= 10 ==> decimal(n).len() >= 2,
    decreases n,
{
    if n >= 10 {
        lemma_decimal_len(n / 10);
    }
}

/// Appends `n` in decimal to `s`.
pub fn push_decimal(s: &mut String, n: u64)
    ensures
        final(s)@ == old(s)@ + decimal(n as nat),
    decreases n,
{
    if n < 10 {
        push_char(s, digit(n));
        assert(decimal(n as nat) =~= seq![digit_char(n as int)]);
    } else {
        push_decimal(s, n / 10);
        push_char(s, digit(n % 10));
    }
}

fn digit(d: u64) -> (c: char)
    requires
        d < 10,
    ensures
        c == digit_char(d as int),
{
    let b: u8 = 48 + (d as u8);
    b as char
}

/// `n` in decimal.
pub fn decimal_text(n: u64) -> (s: String)
    ensures
        s@ == decimal(n as nat),
{
    let mut s = String::new();
    push_decimal(&mut s, n);
    s
}

/// Appends `n` in decimal, zero-padded to at least two digits.
pub fn push_two_digits(s: &mut String, n: u64)
    ensures
        final(s)@ == old(s)@ + padded_decimal(n as nat, 2),
{
    proof {
        lemma_decimal_len(n as nat);
    }
    if n < 10 {
        push_char(s, '0');
        assert(padded_decimal(n as nat, 2) =~= seq!['0'] + decimal(n as nat));
    }
    push_decimal(s, n);
    assert(n >= 10 ==> padded_decimal(n as nat, 2) == decimal(n as nat));
}

} // verus!
