//! Escaping and code-point utilities: regex-metacharacter escaping for
//! literal context, `\u{..}` escapes for non-ASCII characters (optionally as
//! UTF-16 surrogate pairs), and the ordinal of a character among all valid
//! Unicode scalar values.

use vstd::prelude::*;

verus! {

/// Relies on `String::push`: appends the given character at the end of the
/// string.
#[verifier::external_body]
pub(crate) fn push_char(s: &mut String, c: char)
    ensures
        final(s)@ == old(s)@.push(c),
{
    s.push(c);
}

/// The fixed metacharacter set escaped in literal (non-class) context.
pub open spec fn is_metachar(c: char) -> bool {
    ||| c == '('
    ||| c == ')'
    ||| c == '['
    ||| c == ']'
    ||| c == '{'
    ||| c == '}'
    ||| c == '+'
    ||| c == '*'
    ||| c == '-'
    ||| c == '.'
    ||| c == '?'
    ||| c == '|'
    ||| c == '^'
    ||| c == '$'
}

/// The escaped form of one character in literal context: metacharacters are
/// prefixed with a backslash, the three control characters become their
/// two-character escapes, everything else passes through unchanged.
pub open spec fn escaped_char(c: char) -> Seq<char> {
    if is_metachar(c) {
        seq!['\\', c]
    } else if c == '\n' {
        seq!['\\', 'n']
    } else if c == '\r' {
        seq!['\\', 'r']
    } else if c == '\t' {
        seq!['\\', 't']
    } else {
        seq![c]
    }
}

/// Character-wise metacharacter escaping of a whole fragment.
pub open spec fn escaped_seq(s: Seq<char>) -> Seq<char> {
    s.flat_map(|c: char| escaped_char(c))
}

/// Metacharacter escaping of a fragment, with the lone-backslash special
/// case: a fragment that is exactly one backslash becomes the two-character
/// escape.
pub open spec fn escaped_fragment(s: Seq<char>) -> Seq<char> {
    let t = escaped_seq(s);
    if t == seq!['\\'] {
        seq!['\\', '\\']
    } else {
        t
    }
}

/// The lowercase hexadecimal digit for a value below 16.
pub open spec fn hex_digit(d: int) -> char {
    if d == 0 {
        '0'
    } else if d == 1 {
        '1'
    } else if d == 2 {
        '2'
    } else if d == 3 {
        '3'
    } else if d == 4 {
        '4'
    } else if d == 5 {
        '5'
    } else if d == 6 {
        '6'
    } else if d == 7 {
        '7'
    } else if d == 8 {
        '8'
    } else if d == 9 {
        '9'
    } else if d == 10 {
        'a'
    } else if d == 11 {
        'b'
    } else if d == 12 {
        'c'
    } else if d == 13 {
        'd'
    } else if d == 14 {
        'e'
    } else {
        'f'
    }
}

/// Lowercase hexadecimal digits of `n`, most significant first, without
/// leading zeros.
pub open spec fn hex_rep(n: int) -> Seq<char>
    decreases n,
{
    if n < 16 {
        seq![hex_digit(n)]
    } else {
        hex_rep(n / 16).push(hex_digit(n % 16))
    }
}

/// The decimal digit for a value below 10.
pub open spec fn dec_digit(d: int) -> char {
    if d == 0 {
        '0'
    } else if d == 1 {
        '1'
    } else if d == 2 {
        '2'
    } else if d == 3 {
        '3'
    } else if d == 4 {
        '4'
    } else if d == 5 {
        '5'
    } else if d == 6 {
        '6'
    } else if d == 7 {
        '7'
    } else if d == 8 {
        '8'
    } else {
        '9'
    }
}

/// Decimal digits of `n`, most significant first, without leading zeros.
pub open spec fn dec_rep(n: int) -> Seq<char>
    decreases n,
{
    if n < 10 {
        seq![dec_digit(n)]
    } else {
        dec_rep(n / 10).push(dec_digit(n % 10))
    }
}

/// The `\u{..}` escape of the scalar value `n`, with lowercase hexadecimal
/// digits and no leading zeros, as `char::escape_unicode` prints it.
pub open spec fn unicode_escape(n: int) -> Seq<char> {
    seq!['\\', 'u', '{'] + hex_rep(n) + seq!['}']
}

/// The high UTF-16 surrogate of an astral scalar value.
pub open spec fn high_surrogate(n: int) -> int {
    0xD800 + (n - 0x10000) / 0x400
}

/// The low UTF-16 surrogate of an astral scalar value.
pub open spec fn low_surrogate(n: int) -> int {
    0xDC00 + (n - 0x10000) % 0x400
}

/// The `\u{..}` escapes of the UTF-16 code units of `c`: two escapes for an
/// astral-plane character, one for a character of the basic plane.
pub open spec fn surrogate_escape(c: char) -> Seq<char> {
    if c as int >= 0x10000 {
        unicode_escape(high_surrogate(c as int)) + unicode_escape(low_surrogate(c as int))
    } else {
        unicode_escape(c as int)
    }
}

/// The non-ASCII escape of one character: ASCII passes through; with
/// `use_surrogate_pairs`, every astral-plane character (scalar value at or
/// above `0x10000`) is encoded as its surrogate pair; anything else
/// non-ASCII becomes a single `\u{..}` escape.
pub open spec fn escaped_non_ascii_char(c: char, use_surrogate_pairs: bool) -> Seq<char> {
    if c as int <= 0x7F {
        seq![c]
    } else if use_surrogate_pairs && 0x10000 <= c as int {
        surrogate_escape(c)
    } else {
        unicode_escape(c as int)
    }
}

/// Character-wise non-ASCII escaping of a whole fragment.
pub open spec fn non_ascii_escaped_seq(s: Seq<char>, use_surrogate_pairs: bool) -> Seq<char> {
    s.flat_map(|c: char| escaped_non_ascii_char(c, use_surrogate_pairs))
}

/// The full escaping pipeline applied to one fragment: metacharacter
/// escaping with the lone-backslash special case, then, when requested,
/// non-ASCII escaping of the result.
pub open spec fn fully_escaped_fragment(
    s: Seq<char>,
    is_non_ascii_char_escaped: bool,
    use_surrogate_pairs: bool,
) -> Seq<char> {
    if is_non_ascii_char_escaped {
        non_ascii_escaped_seq(escaped_fragment(s), use_surrogate_pairs)
    } else {
        escaped_fragment(s)
    }
}

/// Characters the literal-context escaping leaves alone: everything but
/// the metacharacter set and the three escaped control characters.
pub open spec fn is_escape_neutral(c: char) -> bool {
    !is_metachar(c) && c != '\n' && c != '\r' && c != '\t' && c != '\\'
}

proof fn lemma_escaped_seq_identity_prefix(s: Seq<char>, i: int)
    requires
        0 <= i <= s.len(),
        forall|j: int| 0 <= j < s.len() ==> is_escape_neutral(#[trigger] s[j]),
    ensures
        s.take(i).flat_map(|c: char| escaped_char(c)) == s.take(i),
    decreases i,
{
    if i == 0 {
        assert(s.take(0) =~= Seq::<char>::empty());
        assert(s.take(0).flat_map(|c: char| escaped_char(c)) =~= s.take(0));
    } else {
        lemma_escaped_seq_identity_prefix(s, i - 1);
        s.lemma_flat_map_take_append(|c: char| escaped_char(c), i - 1);
        assert(escaped_char(s[i - 1]) =~= seq![s[i - 1]]);
        assert(s.take(i - 1).flat_map(|c: char| escaped_char(c)) + escaped_char(s[i - 1]) =~= s.take(
            i,
        ));
    }
}

/// Escaping idempotence boundary: a fragment holding no metacharacter, no
/// backslash and none of the three escaped control characters passes
/// through the literal-context escaping unchanged.
pub proof fn lemma_escaping_identity(s: Seq<char>)
    requires
        forall|j: int| 0 <= j < s.len() ==> is_escape_neutral(#[trigger] s[j]),
    ensures
        escaped_fragment(s) == s,
{
    lemma_escaped_seq_identity_prefix(s, s.len() as int);
    assert(s.take(s.len() as int) =~= s);
    if escaped_seq(s) == seq!['\\'] {
        assert(s[0] == '\\');
    }
}

/// The zero-based rank of `c` among all valid Unicode scalar values in
/// ascending order.  The enumeration skips the surrogate-reserved range, so
/// every scalar value at or above `0xE000` sits `0x800` places earlier than
/// its numeric value.
pub open spec fn codepoint_ordinal(c: char) -> int {
    if (c as int) < 0xD800 {
        c as int
    } else {
        c as int - 0x800
    }
}

/// The position of `c` in the ascending enumeration of all valid Unicode
/// scalar values.
pub fn get_codepoint_position(c: char) -> (position: usize)
    ensures
        position as int == codepoint_ordinal(c),
        position <= 0x10FFFF,
{
    let n = c as u32;
    if n < 0xD800 {
        n as usize
    } else {
        (n - 0x800) as usize
    }
}

/// Whether `c` belongs to the fixed literal-context metacharacter set.
pub fn is_metachar_exec(c: char) -> (is_meta: bool)
    ensures
        is_meta == is_metachar(c),
{
    c == '(' || c == ')' || c == '[' || c == ']' || c == '{' || c == '}' || c == '+' || c == '*'
        || c == '-' || c == '.' || c == '?' || c == '|' || c == '^' || c == '$'
}

/// The lowercase hexadecimal digit character for `d`.
fn hex_digit_char(d: u32) -> (c: char)
    requires
        d < 16,
    ensures
        c == hex_digit(d as int),
{
    if d == 0 {
        '0'
    } else if d == 1 {
        '1'
    } else if d == 2 {
        '2'
    } else if d == 3 {
        '3'
    } else if d == 4 {
        '4'
    } else if d == 5 {
        '5'
    } else if d == 6 {
        '6'
    } else if d == 7 {
        '7'
    } else if d == 8 {
        '8'
    } else if d == 9 {
        '9'
    } else if d == 10 {
        'a'
    } else if d == 11 {
        'b'
    } else if d == 12 {
        'c'
    } else if d == 13 {
        'd'
    } else if d == 14 {
        'e'
    } else {
        'f'
    }
}

/// The decimal digit character for `d`.
fn dec_digit_char(d: u32) -> (c: char)
    requires
        d < 10,
    ensures
        c == dec_digit(d as int),
{
    if d == 0 {
        '0'
    } else if d == 1 {
        '1'
    } else if d == 2 {
        '2'
    } else if d == 3 {
        '3'
    } else if d == 4 {
        '4'
    } else if d == 5 {
        '5'
    } else if d == 6 {
        '6'
    } else if d == 7 {
        '7'
    } else if d == 8 {
        '8'
    } else {
        '9'
    }
}

/// Appends the lowercase hexadecimal representation of `n` to `out`.
pub fn append_hex(out: &mut String, n: u32)
    ensures
        final(out)@ == old(out)@ + hex_rep(n as int),
    decreases n,
{
    if n < 16 {
        push_char(out, hex_digit_char(n));
    } else {
        append_hex(out, n / 16);
        push_char(out, hex_digit_char(n % 16));
    }
}

/// Appends the decimal representation of `n` to `out`.
pub fn append_decimal(out: &mut String, n: u32)
    ensures
        final(out)@ == old(out)@ + dec_rep(n as int),
    decreases n,
{
    if n < 10 {
        push_char(out, dec_digit_char(n));
    } else {
        append_decimal(out, n / 10);
        push_char(out, dec_digit_char(n % 10));
    }
}

/// Appends the `\u{..}` escape of the scalar value `n` to `out`.
pub fn append_unicode_escape(out: &mut String, n: u32)
    ensures
        final(out)@ == old(out)@ + unicode_escape(n as int),
{
    push_char(out, '\\');
    push_char(out, 'u');
    push_char(out, '{');
    append_hex(out, n);
    push_char(out, '}');
}

} // verus!
