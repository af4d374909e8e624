//! Text primitives: white space, prefixes and suffixes, and comparison.

use vstd::prelude::*;
use vstd::utf8::encode_utf8;

verus! {

/// The views of the texts that an optional string may hold.
pub open spec fn opt_text(value: Option<String>) -> Option<Seq<char>> {
    match value {
        Some(s) => Some(s@),
        None => None,
    }
}

/// `value`, with an empty text taken as absent.
pub open spec fn present(value: Option<Seq<char>>) -> Option<Seq<char>> {
    match value {
        Some(s) if s.len() > 0 => Some(s),
        _ => None,
    }
}

/// Normalizes an optional text: an empty one counts as absent.
pub fn non_empty(value: Option<String>) -> (r: Option<String>)
    ensures
        opt_text(r) == present(opt_text(value)),
        r is Some ==> r == value,
{
    match value {
        Some(s) => {
            if s.as_str().is_empty() {
                None
            } else {
                Some(s)
            }
        },
        None => None,
    }
}

/// The characters of a text, one by one.
pub(crate) fn chars_of(s: &str) -> (r: Vec<char>)
    ensures
        r@ == s@,
{
    let mut r: Vec<char> = Vec::new();
    for c in it: s.chars()
        invariant
            r@ == it.seq().take(it.index() as int),
            it.seq() == s@,
    {
        r.push(c);
        proof {
            assert(it.seq().take(it.index() + 1) =~= it.seq().take(it.index() as int).push(c));
        }
    }
    proof {
        assert(s@.take(s@.len() as int) =~= s@);
    }
    r
}

proof fn lemma_or_xor(d: u8, x: u8, y: u8)
    ensures
        (d | (x ^ y)) == 0 <==> (d == 0 && x == y),
{
    assert((d | (x ^ y)) == 0 <==> (d == 0 && x == y)) by (bit_vector);
}

proof fn lemma_utf8_injective(a: Seq<char>, b: Seq<char>)
    ensures
        encode_utf8(a) == encode_utf8(b) <==> a == b,
{
    if encode_utf8(a) == encode_utf8(b) {
        vstd::utf8::encode_utf8_decode_utf8(a);
        vstd::utf8::encode_utf8_decode_utf8(b);
    }
}

/// Whether two texts are the same. Every byte is visited whenever the lengths
/// agree, so the time taken does not depend on where two tokens first differ.
pub(crate) fn same_text(a: &str, b: &str) -> (r: bool)
    ensures
        r == (a@ == b@),
{
    let x: &[u8] = a.as_bytes();
    let y: &[u8] = b.as_bytes();
    proof {
        lemma_utf8_injective(a@, b@);
    }
    if x.len() != y.len() {
        return false;
    }
    let mut diff: u8 = 0;
    for i in 0..x.len()
        invariant
            x@.len() == y@.len(),
            diff == 0 <==> (forall|k: int| 0 <= k < i ==> x[k] == y[k]),
    {
        proof {
            lemma_or_xor(diff, x[i as int], y[i as int]);
        }
        diff = diff | (x[i] ^ y[i]);
    }
    proof {
        if diff == 0 {
            assert(x@ =~= y@);
        }
    }
    diff == 0
}

/// The characters that Unicode marks as white space.
pub open spec fn is_white_space(c: char) -> bool {
    let v = c as u32;
    ||| 0x09 <= v <= 0x0d
    ||| v == 0x20 || v == 0x85 || v == 0xa0 || v == 0x1680
    ||| 0x2000 <= v <= 0x200a
    ||| v == 0x2028 || v == 0x2029 || v == 0x202f || v == 0x205f || v == 0x3000
}

fn white_space(c: char) -> (r: bool)
    ensures
        r == is_white_space(c),
{
    let v: u32 = c as u32;
    (0x09 <= v && v <= 0x0d) || v == 0x20 || v == 0x85 || v == 0xa0 || v == 0x1680 || (0x2000 <= v
        && v <= 0x200a) || v == 0x2028 || v == 0x2029 || v == 0x202f || v == 0x205f || v == 0x3000
}

/// `s` without its leading white space.
pub open spec fn trim_start(s: Seq<char>) -> Seq<char>
    decreases s.len(),
{
    if s.len() > 0 && is_white_space(s[0]) {
        trim_start(s.drop_first())
    } else {
        s
    }
}

/// `s` without its trailing white space.
pub open spec fn trim_end(s: Seq<char>) -> Seq<char>
    decreases s.len(),
{
    if s.len() > 0 && is_white_space(s.last()) {
        trim_end(s.drop_last())
    } else {
        s
    }
}

/// `s` without white space at either end.
pub open spec fn trimmed(s: Seq<char>) -> Seq<char> {
    trim_end(trim_start(s))
}

/// The part of `s` between its leading and its trailing white space.
pub(crate) fn trim(s: &str) -> (r: &str)
    ensures
        r@ == trimmed(s@),
{
    let chars: Vec<char> = chars_of(s);
    let mut lo: usize = 0;
    proof {
        assert(s@.skip(0) =~= s@);
    }
    while lo < chars.len() && white_space(chars[lo])
        invariant
            chars@ == s@,
            lo <= chars@.len(),
            trim_start(s@) == trim_start(s@.skip(lo as int)),
        decreases chars@.len() - lo,
    {
        proof {
            assert(s@.skip(lo as int).drop_first() =~= s@.skip(lo + 1));
        }
        lo = lo + 1;
    }
    let mut hi: usize = chars.len();
    proof {
        assert(s@.subrange(lo as int, hi as int) =~= s@.skip(lo as int));
    }
    while hi > lo && white_space(chars[hi - 1])
        invariant
            chars@ == s@,
            lo <= hi <= chars@.len(),
            trimmed(s@) == trim_end(s@.subrange(lo as int, hi as int)),
        decreases hi,
    {
        proof {
            assert(s@.subrange(lo as int, hi as int).drop_last() =~= s@.subrange(
                lo as int,
                hi - 1,
            ));
        }
        hi = hi - 1;
    }
    s.substring_char(lo, hi)
}

/// Whether `s` starts with `prefix`.
pub open spec fn starts_with(s: Seq<char>, prefix: Seq<char>) -> bool {
    prefix.len() <= s.len() && s.take(prefix.len() as int) == prefix
}

/// Whether `s` ends with `suffix`.
pub open spec fn ends_with(s: Seq<char>, suffix: Seq<char>) -> bool {
    suffix.len() <= s.len() && s.skip(s.len() - suffix.len()) == suffix
}

/// What follows `prefix` in `s`, where `s` starts with it.
pub open spec fn without_prefix(s: Seq<char>, prefix: Seq<char>) -> Option<Seq<char>> {
    if starts_with(s, prefix) {
        Some(s.skip(prefix.len() as int))
    } else {
        None
    }
}

/// What precedes `suffix` in `s`, where `s` ends with it.
pub open spec fn without_suffix(s: Seq<char>, suffix: Seq<char>) -> Option<Seq<char>> {
    if ends_with(s, suffix) {
        Some(s.take(s.len() - suffix.len()))
    } else {
        None
    }
}

/// The view of an optional text slice.
pub open spec fn opt_str(value: Option<&str>) -> Option<Seq<char>> {
    match value {
        Some(s) => Some(s@),
        None => None,
    }
}

/// What follows `prefix` in `s`, where `s` starts with it.
pub(crate) fn strip_prefix<'a>(s: &'a str, prefix: &str) -> (r: Option<&'a str>)
    ensures
        opt_str(r) == without_prefix(s@, prefix@),
{
    let n: usize = prefix.unicode_len();
    let len: usize = s.unicode_len();
    if len < n {
        return None;
    }
    proof {
        assert(s@.subrange(0, n as int) =~= s@.take(n as int));
        assert(s@.subrange(n as int, len as int) =~= s@.skip(n as int));
    }
    if same_text(s.substring_char(0, n), prefix) {
        Some(s.substring_char(n, len))
    } else {
        None
    }
}

/// What precedes `suffix` in `s`, where `s` ends with it.
pub(crate) fn strip_suffix<'a>(s: &'a str, suffix: &str) -> (r: Option<&'a str>)
    ensures
        opt_str(r) == without_suffix(s@, suffix@),
{
    let n: usize = suffix.unicode_len();
    let len: usize = s.unicode_len();
    if len < n {
        return None;
    }
    proof {
        assert(s@.subrange(0, len - n) =~= s@.take(len - n));
        assert(s@.subrange(len - n, len as int) =~= s@.skip(len - n));
    }
    if same_text(s.substring_char(len - n, len), suffix) {
        Some(s.substring_char(0, len - n))
    } else {
        None
    }
}

/// `c` in lower case, where it is an ASCII letter.
pub open spec fn ascii_lower(c: char) -> char {
    if 'A' <= c <= 'Z' {
        ((c as u32 + 32) as u32) as char
    } else {
        c
    }
}

/// Whether two texts are equal up to the case of their ASCII letters.
pub open spec fn same_ignoring_ascii_case(a: Seq<char>, b: Seq<char>) -> bool {
    a.len() == b.len() && forall|i: int|
        0 <= i < a.len() ==> ascii_lower(#[trigger] a[i]) == ascii_lower(b[i])
}

fn lower_code(c: char) -> (r: u32)
    ensures
        r == ascii_lower(c) as u32,
{
    let v: u32 = c as u32;
    if 0x41 <= v && v <= 0x5a {
        v + 32
    } else {
        v
    }
}

/// Whether two texts are equal up to the case of their ASCII letters.
pub(crate) fn eq_ignore_ascii_case(a: &str, b: &str) -> (r: bool)
    ensures
        r == same_ignoring_ascii_case(a@, b@),
{
    let x: Vec<char> = chars_of(a);
    let y: Vec<char> = chars_of(b);
    if x.len() != y.len() {
        return false;
    }
    for i in 0..x.len()
        invariant
            x@ == a@,
            y@ == b@,
            x@.len() == y@.len(),
            forall|k: int| 0 <= k < i ==> ascii_lower(#[trigger] a@[k]) == ascii_lower(b@[k]),
    {
        if lower_code(x[i]) != lower_code(y[i]) {
            return false;
        }
    }
    true
}

/// Two characters are the same up to case exactly where they are the same, or
/// one is a letter from A to Z and the other is that letter in lower case.
pub proof fn law_only_ascii_letters_lose_their_case(a: char, b: char)
    ensures
        ascii_lower(a) == ascii_lower(b) <==> {
            ||| a == b
            ||| 'A' <= a <= 'Z' && b as u32 == a as u32 + 32
            ||| 'A' <= b <= 'Z' && a as u32 == b as u32 + 32
        },
{
}

/// Two texts are the same up to case exactly where they are as long as each
/// other and the same up to case at every place.
pub proof fn law_same_up_to_case_at_every_place(a: Seq<char>, b: Seq<char>)
    ensures
        same_ignoring_ascii_case(a, b) <==> a.len() == b.len() && forall|i: int|
            0 <= i < a.len() ==> {
                ||| #[trigger] a[i] == b[i]
                ||| 'A' <= a[i] <= 'Z' && b[i] as u32 == a[i] as u32 + 32
                ||| 'A' <= b[i] <= 'Z' && a[i] as u32 == b[i] as u32 + 32
            },
{
    if a.len() == b.len() {
        assert forall|i: int| 0 <= i < a.len() implies ((ascii_lower(#[trigger] a[i])
            == ascii_lower(b[i])) <==> {
            ||| a[i] == b[i]
            ||| 'A' <= a[i] <= 'Z' && b[i] as u32 == a[i] as u32 + 32
            ||| 'A' <= b[i] <= 'Z' && a[i] as u32 == b[i] as u32 + 32
        }) by {
            law_only_ascii_letters_lose_their_case(a[i], b[i]);
        }
    }
}

/// An optional text shows its characters, and an empty one counts as absent.
pub proof fn law_only_empty_texts_are_absent(value: Option<String>, slice: Option<&str>)
    ensures
        opt_text(value) is Some == value is Some,
        value matches Some(s) ==> opt_text(value) == Some(s@),
        opt_str(slice) is Some == slice is Some,
        slice matches Some(s) ==> opt_str(slice) == Some(s@),
        value is None ==> present(opt_text(value)) is None,
        value matches Some(s) ==> present(opt_text(value)) == if s@.len() == 0 {
            None
        } else {
            Some(s@)
        },
{
}

/// What a prefix leaves is the rest of the text behind it, and only a text that
/// starts with the prefix leaves anything.
pub proof fn law_prefix_and_rest_make_the_text(s: Seq<char>, prefix: Seq<char>, rest: Seq<char>)
    ensures
        without_prefix(s, prefix) == Some(rest) <==> s == prefix + rest,
        without_suffix(s, prefix) == Some(rest) <==> s == rest + prefix,
{
    assert((prefix + rest).take(prefix.len() as int) =~= prefix);
    assert((prefix + rest).skip(prefix.len() as int) =~= rest);
    assert((rest + prefix).skip(rest.len() as int) =~= prefix);
    assert((rest + prefix).take(rest.len() as int) =~= rest);
    if without_prefix(s, prefix) == Some(rest) {
        assert(s =~= prefix + rest);
    }
    if without_suffix(s, prefix) == Some(rest) {
        assert(s =~= rest + prefix);
    }
}

/// The characters that count as white space, by their numbers.
pub proof fn law_white_space_characters(c: char)
    ensures
        is_white_space(c) <==> {
            let v = c as u32;
            ||| 9 <= v <= 13 || v == 32 || v == 133 || v == 160 || v == 5760
            ||| 8192 <= v <= 8202 || v == 8232 || v == 8233 || v == 8239 || v == 8287
            ||| v == 12288
        },
{
}

/// Trimming takes the white space at both ends of a text and nothing else: it
/// does not see such characters there, and a text without them stays as it is.
pub proof fn law_trimming_takes_white_space_at_the_ends(s: Seq<char>, c: char)
    ensures
        trimmed(Seq::empty()).len() == 0,
        is_white_space(c) ==> trimmed(seq![c] + s) == trimmed(s),
        is_white_space(c) ==> trimmed(s.push(c)) == trimmed(s),
        s.len() > 0 && !is_white_space(s[0]) && !is_white_space(s.last()) ==> trimmed(s) == s,
    decreases s.len(),
{
    if is_white_space(c) {
        assert((seq![c] + s).drop_first() =~= s);
        lemma_trailing_white_space(s, c);
    }
}

proof fn lemma_trailing_white_space(s: Seq<char>, c: char)
    requires
        is_white_space(c),
    ensures
        trimmed(s.push(c)) == trimmed(s),
    decreases s.len(),
{
    if s.len() == 0 {
        assert(s.push(c).drop_first() =~= s);
        assert(trim_start(s.push(c)) == trim_start(s));
    } else if is_white_space(s[0]) {
        lemma_trailing_white_space(s.drop_first(), c);
        assert(s.push(c).drop_first() =~= s.drop_first().push(c));
    } else {
        assert(trim_start(s.push(c)) == s.push(c));
        assert(s.push(c).drop_last() =~= s);
    }
}

} // verus!
