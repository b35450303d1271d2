//! Specifications of the standard library text operations that the menu
//! relies on: the comparisons and searches are proved here over the
//! characters of the texts, the rest are thin trusted wrappers.

use vstd::prelude::*;
use vstd::string::*;
use vstd::utf8::*;

verus! {

/// The Unicode `White_Space` property, which `char::is_whitespace` and
/// `str::trim` follow.
pub open spec fn is_white_space(c: char) -> bool {
    ||| ('\u{9}' <= c && c <= '\u{d}')
    ||| c == ' '
    ||| c == '\u{85}'
    ||| c == '\u{a0}'
    ||| c == '\u{1680}'
    ||| ('\u{2000}' <= c && c <= '\u{200a}')
    ||| c == '\u{2028}'
    ||| c == '\u{2029}'
    ||| c == '\u{202f}'
    ||| c == '\u{205f}'
    ||| c == '\u{3000}'
}

/// `s` without its leading white space.
pub open spec fn trim_start_spec(s: Seq<char>) -> Seq<char>
    decreases s.len(),
{
    if s.len() > 0 && is_white_space(s[0]) {
        trim_start_spec(s.drop_first())
    } else {
        s
    }
}

/// `s` without its trailing white space.
pub open spec fn trim_end_spec(s: Seq<char>) -> Seq<char>
    decreases s.len(),
{
    if s.len() > 0 && is_white_space(s.last()) {
        trim_end_spec(s.drop_last())
    } else {
        s
    }
}

/// `s` without leading and trailing white space.
pub open spec fn trim_spec(s: Seq<char>) -> Seq<char> {
    trim_end_spec(trim_start_spec(s))
}

/// Calls `str::trim`: the slice without leading and trailing white space
/// (Unicode `White_Space`).
#[verifier::external_body]
pub(crate) fn trim<'a>(s: &'a str) -> (res: &'a str)
    ensures
        res@ == trim_spec(s@),
{
    s.trim()
}

/// The rest of the text when it starts with `c`, `None` otherwise.
pub(crate) fn strip_prefix_char<'a>(s: &'a str, c: char) -> (res: Option<&'a str>)
    ensures
        match res {
            Some(rest) => s@.len() > 0 && s@[0] == c && rest@ == s@.drop_first(),
            None => !(s@.len() > 0 && s@[0] == c),
        },
{
    let n = s.unicode_len();
    if n > 0 && s.get_char(0) == c {
        let rest = s.substring_char(1, n);
        assert(rest@ =~= s@.drop_first());
        Some(rest)
    } else {
        None
    }
}

/// The bytes `start..end` of the slice, both ends in bounds, in order and on
/// character boundaries.
pub(crate) fn byte_range<'a>(s: &'a str, start: usize, end: usize) -> (res: &'a str)
    requires
        start <= end <= s.spec_bytes().len(),
        is_char_boundary(s.spec_bytes(), start as int),
        is_char_boundary(s.spec_bytes(), end as int),
    ensures
        res.spec_bytes() == s.spec_bytes().subrange(start as int, end as int),
{
    let ghost bytes = s.spec_bytes();
    proof {
        encode_utf8_valid_utf8(s@);
        valid_utf8_split(bytes, start as int);
    }
    let (_, rest) = s.split_at(start);
    proof {
        let sub = bytes.subrange(start as int, bytes.len() as int);
        assert(rest.spec_bytes() == sub);
        if end == bytes.len() {
            is_char_boundary_start_end_of_seq(sub);
            assert(sub.len() == end - start);
        } else if end > start {
            is_char_boundary_iff_not_is_continuation_byte(bytes, end as int);
            is_char_boundary_iff_not_is_continuation_byte(sub, end - start);
            assert(sub[end - start] == bytes[end as int]);
        }
    }
    let (mid, _) = rest.split_at(end - start);
    proof {
        assert(mid.spec_bytes() =~= bytes.subrange(start as int, end as int));
    }
    mid
}

/// The length in bytes of the UTF-8 encoding.
pub(crate) fn byte_len(s: &str) -> (n: usize)
    ensures
        n as int == s.spec_bytes().len(),
{
    s.as_bytes().len()
}

/// The value of an ASCII digit byte in the given radix, where letters of
/// either case stand for 10 to 35.
pub open spec fn digit_value(b: u8, radix: u32) -> Option<nat> {
    let d: int = if 48 <= b <= 57 {
        b - 48
    } else if 97 <= b <= 122 {
        b - 97 + 10
    } else if 65 <= b <= 90 {
        b - 65 + 10
    } else {
        36
    };
    if d < radix {
        Some((d as int) as nat)
    } else {
        None
    }
}

/// The value of a non-empty run of digits in the given radix.
pub open spec fn digits_value(bytes: Seq<u8>, radix: u32) -> Option<nat>
    decreases bytes.len(),
{
    if bytes.len() == 0 {
        None
    } else if bytes.len() == 1 {
        digit_value(bytes[0], radix)
    } else {
        match (digits_value(bytes.drop_last(), radix), digit_value(bytes.last(), radix)) {
            (Some(high), Some(low)) => Some(high * (radix as nat) + low),
            _ => None,
        }
    }
}

/// What `u8::from_str_radix` accepts: an optional `+` followed by digits,
/// whose value fits in a `u8`.
pub open spec fn u8_radix_spec(bytes: Seq<u8>, radix: u32) -> Option<u8> {
    let digits = if bytes.len() > 0 && bytes[0] == 43 {
        bytes.drop_first()
    } else {
        bytes
    };
    match digits_value(digits, radix) {
        Some(v) => if v < 256 {
            Some(v as u8)
        } else {
            None
        },
        None => None,
    }
}

#[verifier::external_type_specification]
#[verifier::external_body]
pub struct ExParseIntError(std::num::ParseIntError);

/// The error that `u8::from_str_radix` gives for a text it refuses; it
/// depends on the text and the radix alone.
pub uninterp spec fn radix_parse_error(text: Seq<char>, radix: u32) -> std::num::ParseIntError;

/// Calls `u8::from_str_radix`: `Ok` exactly when the text is an optional
/// `+` and digits of the radix whose value fits in a `u8`, and otherwise
/// the error for that text and radix. It panics on a radix outside
/// `2..=36`.
#[verifier::external_body]
pub(crate) fn u8_from_str_radix(s: &str, radix: u32) -> (res: Result<u8, std::num::ParseIntError>)
    requires
        2 <= radix <= 36,
    ensures
        match res {
            Ok(v) => u8_radix_spec(s.spec_bytes(), radix) == Some(v),
            Err(e) => u8_radix_spec(s.spec_bytes(), radix) is None && e == radix_parse_error(
                s@,
                radix,
            ),
        },
{
    u8::from_str_radix(s, radix)
}

/// The upper-case hexadecimal digit for a value below 16.
pub open spec fn upper_hex_digit(d: int) -> char {
    if d < 10 {
        (48 + d) as char
    } else {
        (55 + d) as char
    }
}

/// Two upper-case hexadecimal digits for a byte, as `{:02X}` prints it.
pub open spec fn upper_hex_byte(v: u8) -> Seq<char> {
    seq![upper_hex_digit((v / 16) as int), upper_hex_digit((v % 16) as int)]
}

/// Calls `format!("{:02X}", v)`: the byte as two upper-case hexadecimal
/// digits.
#[verifier::external_body]
pub(crate) fn format_upper_hex_byte(v: u8) -> (res: String)
    ensures
        res@ == upper_hex_byte(v),
{
    format!("{:02X}", v)
}

/// `needle` occurs in `hay` as a contiguous run.
pub open spec fn contains_spec(hay: Seq<char>, needle: Seq<char>) -> bool {
    exists|i: int|
        0 <= i && i + needle.len() <= hay.len() && #[trigger] hay.subrange(i, i + needle.len())
            == needle
}

/// `s` begins with `prefix`.
pub open spec fn starts_with_spec(s: Seq<char>, prefix: Seq<char>) -> bool {
    prefix.len() <= s.len() && s.subrange(0, prefix.len() as int) == prefix
}

/// Whether `needle` occurs in `hay` from position `at` on.
fn occurs_at(hay: &Vec<char>, needle: &Vec<char>, at: usize) -> (res: bool)
    requires
        at + needle@.len() <= hay@.len(),
    ensures
        res == (hay@.subrange(at as int, at + needle@.len()) == needle@),
{
    let n = needle.len();
    let mut k: usize = 0;
    while k < n
        invariant
            k <= n,
            n == needle@.len(),
            at + n <= hay.len(),
            forall|j: int| 0 <= j < k ==> hay@[at + j] == #[trigger] needle@[j],
        decreases n - k,
    {
        if hay[at + k] != needle[k] {
            assert(hay@.subrange(at as int, at + n)[k as int] != needle@[k as int]);
            return false;
        }
        k = k + 1;
    }
    assert(hay@.subrange(at as int, at + n) =~= needle@);
    true
}

/// Whether the pattern occurs in the text as a substring.
pub(crate) fn contains(hay: &str, needle: &str) -> (res: bool)
    ensures
        res == contains_spec(hay@, needle@),
{
    let h = chars_of(hay);
    let n = chars_of(needle);
    if n.len() > h.len() {
        return false;
    }
    let last = h.len() - n.len();
    let mut i: usize = 0;
    loop
        invariant
            h@ == hay@,
            n@ == needle@,
            last == h@.len() - n@.len(),
            i <= last,
            forall|j: int| 0 <= j < i ==> #[trigger] h@.subrange(j, j + n@.len()) != n@,
        decreases last - i,
    {
        if occurs_at(&h, &n, i) {
            return true;
        }
        if i == last {
            return false;
        }
        i = i + 1;
    }
}

/// Whether the text begins with the pattern.
pub(crate) fn starts_with(s: &str, prefix: &str) -> (res: bool)
    ensures
        res == starts_with_spec(s@, prefix@),
{
    let t = chars_of(s);
    let p = chars_of(prefix);
    if p.len() > t.len() {
        return false;
    }
    occurs_at(&t, &p, 0)
}

/// The lower-case form that `str::to_lowercase` gives for a text (full
/// Unicode case mapping); it depends on the text alone.
pub uninterp spec fn lowercase(s: Seq<char>) -> Seq<char>;

/// The lower case of an ASCII character: `A` to `Z` become `a` to `z`, the
/// rest stay.
pub open spec fn ascii_lower(c: char) -> char {
    if 'A' <= c && c <= 'Z' {
        ((c as u32) + 32) as char
    } else {
        c
    }
}

/// Calls `str::to_lowercase`: the empty text stays empty and no other text
/// lowers to it (each character lowers to at least one), and an ASCII text
/// has each letter lowered and every other character kept.
#[verifier::external_body]
pub(crate) fn to_lowercase(s: &str) -> (res: String)
    ensures
        res@ == lowercase(s@),
        res@.len() == 0 <==> s@.len() == 0,
        is_ascii_chars(s@) ==> res@ == s@.map_values(|c: char| ascii_lower(c)),
{
    s.to_lowercase()
}

/// Calls `String::pop`: removes and returns the last character, if any.
#[verifier::external_body]
pub(crate) fn pop_char(s: &mut String) -> (res: Option<char>)
    ensures
        old(s)@.len() == 0 ==> res is None && final(s)@ == old(s)@,
        old(s)@.len() > 0 ==> res == Some(old(s)@.last()) && final(s)@ == old(s)@.drop_last(),
{
    s.pop()
}

/// Whether two texts are equal.
pub(crate) fn str_eq(a: &str, b: &str) -> (res: bool)
    ensures
        res == (a@ == b@),
{
    let x = chars_of(a);
    let y = chars_of(b);
    if x.len() != y.len() {
        return false;
    }
    let r = occurs_at(&x, &y, 0);
    assert(x@.subrange(0, y@.len() as int) =~= x@);
    r
}

} // verus!

verus! {

/// The characters of a text, in order.
pub(crate) fn chars_of(s: &str) -> (v: Vec<char>)
    ensures
        v@ == s@,
{
    broadcast use axiom_spec_iter;

    let mut v: Vec<char> = Vec::new();
    for c in it: s.chars()
        invariant
            it.seq() == s@,
            v@ == it.seq().take(it.index() as int),
    {
        v.push(c);
    }
    v
}

/// Removing leading white space leaves nothing or a text that starts with
/// something else.
proof fn lemma_trim_start_shape(s: Seq<char>)
    ensures
        trim_start_spec(s).len() == 0 || !is_white_space(trim_start_spec(s)[0]),
        trim_start_spec(s).len() <= s.len(),
    decreases s.len(),
{
    if s.len() > 0 && is_white_space(s[0]) {
        lemma_trim_start_shape(s.drop_first());
    }
}

/// Removing trailing white space keeps a prefix that is empty or ends with
/// something else.
proof fn lemma_trim_end_shape(s: Seq<char>)
    ensures
        trim_end_spec(s).len() <= s.len(),
        trim_end_spec(s) == s.subrange(0, trim_end_spec(s).len() as int),
        trim_end_spec(s).len() == 0 || !is_white_space(trim_end_spec(s).last()),
    decreases s.len(),
{
    if s.len() > 0 && is_white_space(s.last()) {
        lemma_trim_end_shape(s.drop_last());
        assert(s.drop_last().subrange(0, trim_end_spec(s).len() as int) =~= s.subrange(
            0,
            trim_end_spec(s).len() as int,
        ));
    } else {
        assert(s.subrange(0, s.len() as int) =~= s);
    }
}

/// Trimming a trimmed text changes nothing.
pub proof fn lemma_trim_idempotent(s: Seq<char>)
    ensures
        trim_spec(trim_spec(s)) == trim_spec(s),
{
    let t = trim_start_spec(s);
    let u = trim_end_spec(t);
    lemma_trim_start_shape(s);
    lemma_trim_end_shape(t);
    if u.len() > 0 {
        assert(u[0] == t[0]);
    }
    assert(trim_start_spec(u) == u);
    assert(trim_end_spec(u) == u);
}

} // verus!
