//! Small helpers on strings and their character sequences.

use vstd::prelude::*;
use vstd::string::*;

verus! {

/// The character of one decimal digit.
pub open spec fn digit_char(d: nat) -> char {
    if d == 0 {
        '0'
    } else if d == 1 {
        '1'
    } else if d == 2 {
        '2'
    } else if d == 3 {
        '3'
    } else if d == 4 {
        '4'
    } else if d == 5 {
        '5'
    } else if d == 6 {
        '6'
    } else if d == 7 {
        '7'
    } else if d == 8 {
        '8'
    } else {
        '9'
    }
}

/// The decimal digits of `n`, most significant first, without leading zeros.
pub open spec fn decimal_digits(n: nat) -> Seq<char>
    decreases n,
{
    if n < 10 {
        seq![digit_char(n)]
    } else {
        decimal_digits(n / 10).push(digit_char(n % 10))
    }
}

/// The character of the decimal digit `d`.
fn digit(d: usize) -> (r: char)
    requires
        d < 10,
    ensures
        r == digit_char(d as nat),
{
    if d == 0 {
        '0'
    } else if d == 1 {
        '1'
    } else if d == 2 {
        '2'
    } else if d == 3 {
        '3'
    } else if d == 4 {
        '4'
    } else if d == 5 {
        '5'
    } else if d == 6 {
        '6'
    } else if d == 7 {
        '7'
    } else if d == 8 {
        '8'
    } else {
        '9'
    }
}

/// The number written in decimal, most significant digit first, with no
/// sign, padding or leading zero.
pub(crate) fn decimal_string(n: usize) -> (r: String)
    ensures
        r@ == decimal_digits(n as nat),
    decreases n,
{
    let mut out = if n < 10 {
        String::new()
    } else {
        decimal_string(n / 10)
    };
    push_char(&mut out, digit(n % 10));
    assert(n < 10 ==> out@ =~= seq![digit_char(n as nat)]);
    out
}

/// The characters of a string.
pub fn chars_of(s: &str) -> (r: Vec<char>)
    ensures
        r@ == s@,
{
    let mut out: Vec<char> = Vec::new();
    for c in it: s.chars()
        invariant
            it.seq() == s@,
            out@ == it.seq().take(it.index() as int),
    {
        out.push(c);
        assert(it.seq().take(it.index() + 1) =~= it.seq().take(it.index() as int).push(c));
    }
    assert(s@.take(s@.len() as int) =~= s@);
    out
}

/// `String::push` from std: appends one character.
#[verifier::external_body]
pub(crate) fn push_char(s: &mut String, c: char)
    ensures
        final(s)@ == old(s)@.push(c),
{
    s.push(c)
}

/// `String::from_utf8` from std: the text that the bytes encode, or nothing
/// for bytes that are no UTF-8.
#[verifier::external_body]
pub(crate) fn text_of_bytes(bytes: Vec<u8>) -> (r: Option<String>)
    ensures
        r is Some <==> vstd::utf8::valid_utf8(bytes@),
        r is Some ==> r.unwrap()@ == vstd::utf8::decode_utf8(bytes@),
{
    String::from_utf8(bytes).ok()
}

/// The string made of the given characters.
pub fn string_of(chars: &Vec<char>) -> (r: String)
    ensures
        r@ == chars@,
{
    let mut out = String::new();
    let mut i: usize = 0;
    while i < chars.len()
        invariant
            i <= chars.len(),
            out@ == chars@.take(i as int),
        decreases chars.len() - i,
    {
        push_char(&mut out, chars[i]);
        assert(chars@.take(i + 1) =~= chars@.take(i as int).push(chars@[i as int]));
        i += 1;
    }
    assert(chars@.take(chars.len() as int) =~= chars@);
    out
}

/// Whether two character sequences are the same.
pub fn same_chars(a: &Vec<char>, b: &Vec<char>) -> (r: bool)
    ensures
        r == (a@ == b@),
{
    if a.len() != b.len() {
        return false;
    }
    let mut i: usize = 0;
    while i < a.len()
        invariant
            a.len() == b.len(),
            i <= a.len(),
            forall|j: int| 0 <= j < i ==> a@[j] == b@[j],
        decreases a.len() - i,
    {
        if a[i] != b[i] {
            return false;
        }
        i += 1;
    }
    assert(a@ =~= b@);
    true
}

/// Whether two texts are the same.
pub fn same_text(a: &str, b: &str) -> (r: bool)
    ensures
        r == (a@ == b@),
{
    same_chars(&chars_of(a), &chars_of(b))
}

/// Whether a character is white space, as Unicode defines it.
pub open spec fn is_space(c: char) -> bool {
    ||| 0x09 <= c as u32 <= 0x0d
    ||| c as u32 == 0x20
    ||| c as u32 == 0x85
    ||| c as u32 == 0xa0
    ||| c as u32 == 0x1680
    ||| 0x2000 <= c as u32 <= 0x200a
    ||| c as u32 == 0x2028
    ||| c as u32 == 0x2029
    ||| c as u32 == 0x202f
    ||| c as u32 == 0x205f
    ||| c as u32 == 0x3000
}

/// `char::is_whitespace` from std: whether the character has the property
/// `White_Space`.
#[verifier::external_body]
pub(crate) fn char_is_space(c: char) -> (r: bool)
    ensures
        r == is_space(c),
{
    c.is_whitespace()
}

/// The lowercase form of a text, as Unicode defines it.
pub uninterp spec fn lowercased(s: Seq<char>) -> Seq<char>;

/// `str::to_lowercase` from std: the text with each character replaced by
/// its lowercase form.
#[verifier::external_body]
pub(crate) fn lowercase(s: &str) -> (r: String)
    ensures
        r@ == lowercased(s@),
{
    s.to_lowercase()
}

/// Whether `pattern` is a regular expression that the `regex` crate
/// compiles.
pub uninterp spec fn regex_compiles(pattern: Seq<char>) -> bool;

/// Whether some part of `text` matches the regular expression `pattern`.
pub uninterp spec fn regex_finds(pattern: Seq<char>, text: Seq<char>) -> bool;

/// `Regex::new` and `Regex::is_match` of the `regex` crate: compiles
/// `pattern` and searches `text` for a match. Nothing comes back for a
/// pattern that does not compile.
#[verifier::external_body]
pub(crate) fn regex_is_match(pattern: &str, text: &str) -> (r: Option<bool>)
    ensures
        r is Some <==> regex_compiles(pattern@),
        r is Some ==> r.unwrap() == regex_finds(pattern@, text@),
{
    regex::Regex::new(pattern).ok().map(|re| re.is_match(text))
}

/// Whether `pattern` compiles and matches some part of `text`.
pub open spec fn regex_match(pattern: Seq<char>, text: Seq<char>) -> bool {
    regex_compiles(pattern) && regex_finds(pattern, text)
}

/// Whether `pattern` compiles and matches some part of `text`.
pub fn matches_pattern(pattern: &str, text: &str) -> (r: bool)
    ensures
        r == regex_match(pattern@, text@),
{
    match regex_is_match(pattern, text) {
        Some(found) => found,
        None => false,
    }
}

/// Whether `pattern` is a regular expression.
pub fn pattern_compiles(pattern: &str) -> (r: bool)
    ensures
        r == regex_compiles(pattern@),
{
    regex_is_match(pattern, "").is_some()
}

/// The text of `source` between its bytes `start` and `end`; none unless
/// both are boundaries of characters, the one not after the other.
pub open spec fn text_between(source: Seq<char>, start: int, end: int) -> Option<Seq<char>> {
    let bytes = vstd::utf8::encode_utf8(source);
    if start <= end && vstd::utf8::is_char_boundary(bytes, start) && vstd::utf8::is_char_boundary(
        bytes,
        end,
    ) {
        Some(vstd::utf8::decode_utf8(bytes.subrange(start, end)))
    } else {
        None
    }
}

/// Whether `s` ends with `tail`.
pub open spec fn ends_with(s: Seq<char>, tail: Seq<char>) -> bool {
    tail.len() <= s.len() && s.skip(s.len() - tail.len()) == tail
}

/// The text of `source` between its bytes `start` and `end`.
pub fn slice_text(source: &str, start: usize, end: usize) -> (r: Option<String>)
    ensures
        match r {
            Some(text) => text_between(source@, start as int, end as int) == Some(text@),
            None => text_between(source@, start as int, end as int) is None,
        },
{
    let ghost bytes = vstd::utf8::encode_utf8(source@);
    proof {
        vstd::utf8::encode_utf8_valid_utf8(source@);
    }
    if start <= end && source.is_char_boundary(start) && source.is_char_boundary(end) {
        let (head, _) = source.split_at(end);
        let ghost front = vstd::utf8::encode_utf8(head@);
        proof {
            vstd::utf8::valid_utf8_split(bytes, end as int);
            assert(front =~= bytes.subrange(0, end as int));
            if start == end {
                vstd::utf8::is_char_boundary_start_end_of_seq(front);
            } else if start > 0 {
                vstd::utf8::is_char_boundary_iff_not_is_continuation_byte(bytes, start as int);
                vstd::utf8::is_char_boundary_iff_not_is_continuation_byte(front, start as int);
            }
        }
        let (_, middle) = head.split_at(start);
        let text = middle.to_owned();
        proof {
            assert(vstd::utf8::encode_utf8(middle@) =~= bytes.subrange(start as int, end as int));
            vstd::utf8::encode_utf8_decode_utf8(middle@);
        }
        Some(text)
    } else {
        None
    }
}

/// Whether `c` is a quote or an angle bracket.
pub open spec fn is_quote(c: char) -> bool {
    c == '"' || c == '\'' || c == '`' || c == '<' || c == '>'
}

/// The number of quote characters at the start of `s`.
pub open spec fn leading_quotes(s: Seq<char>) -> int
    decreases s.len(),
{
    if s.len() == 0 || !is_quote(s[0]) {
        0
    } else {
        1 + leading_quotes(s.drop_first())
    }
}

/// The number of quote characters at the end of `s`.
pub open spec fn trailing_quotes(s: Seq<char>) -> int
    decreases s.len(),
{
    if s.len() == 0 || !is_quote(s.last()) {
        0
    } else {
        1 + trailing_quotes(s.drop_last())
    }
}

/// `s` without the quotes and angle brackets around it.
pub open spec fn unquoted(s: Seq<char>) -> Seq<char> {
    let rest = s.skip(leading_quotes(s));
    rest.take(rest.len() - trailing_quotes(rest))
}

proof fn lemma_leading_quotes(s: Seq<char>, i: int)
    requires
        0 <= i <= s.len(),
        forall|j: int| 0 <= j < i ==> is_quote(s[j]),
        i == s.len() || !is_quote(s[i]),
    ensures
        leading_quotes(s) == i,
    decreases s.len(),
{
    if s.len() > 0 && i > 0 {
        lemma_leading_quotes(s.drop_first(), i - 1);
    }
}

proof fn lemma_trailing_quotes(s: Seq<char>, i: int)
    requires
        0 <= i <= s.len(),
        forall|j: int| s.len() - i <= j < s.len() ==> is_quote(s[j]),
        i == s.len() || !is_quote(s[s.len() - i - 1]),
    ensures
        trailing_quotes(s) == i,
    decreases s.len(),
{
    if s.len() > 0 && i > 0 {
        lemma_trailing_quotes(s.drop_last(), i - 1);
    }
}

fn char_is_quote(c: char) -> (r: bool)
    ensures
        r == is_quote(c),
{
    c == '"' || c == '\'' || c == '`' || c == '<' || c == '>'
}

/// The text without the quotes and angle brackets around it.
pub fn strip_quotes(text: &str) -> (r: String)
    ensures
        r@ == unquoted(text@),
{
    let chars = chars_of(text);
    let mut start: usize = 0;
    while start < chars.len() && char_is_quote(chars[start])
        invariant
            start <= chars.len(),
            forall|j: int| 0 <= j < start ==> is_quote(chars@[j]),
        decreases chars.len() - start,
    {
        start += 1;
    }
    let mut end: usize = chars.len();
    while end > start && char_is_quote(chars[end - 1])
        invariant
            start <= end <= chars.len(),
            forall|j: int| end <= j < chars.len() ==> is_quote(chars@[j]),
        decreases end,
    {
        end -= 1;
    }
    let mut out: Vec<char> = Vec::new();
    let mut i: usize = start;
    while i < end
        invariant
            start <= i <= end <= chars.len(),
            out@ == chars@.subrange(start as int, i as int),
        decreases end - i,
    {
        out.push(chars[i]);
        assert(chars@.subrange(start as int, i + 1) =~= chars@.subrange(start as int, i as int).push(
            chars@[i as int],
        ));
        i += 1;
    }
    proof {
        lemma_leading_quotes(chars@, start as int);
        let rest = chars@.skip(start as int);
        assert forall|j: int| rest.len() - (chars.len() - end) <= j < rest.len() implies is_quote(
            rest[j],
        ) by {
            assert(rest[j] == chars@[j + start]);
        }
        lemma_trailing_quotes(rest, chars.len() - end);
        assert(out@ =~= rest.take(rest.len() - (chars.len() - end)));
    }
    string_of(&out)
}

} // verus!
