//! Text that drivers and sysfs hand out.

use vstd::prelude::*;
use vstd::string::*;
#[allow(unused_imports)]
use vstd::utf8;

verus! {

/// The bytes before the first NUL, or all of them where there is none.
pub open spec fn until_nul(bytes: Seq<u8>) -> Seq<u8>
    decreases bytes.len(),
{
    if bytes.len() == 0 || bytes[0] == 0 {
        Seq::empty()
    } else {
        seq![bytes[0]] + until_nul(bytes.drop_first())
    }
}

/// What [`String::from_utf8_lossy`] makes of bytes that are not UTF-8.
pub uninterp spec fn lossy_utf8(bytes: Seq<u8>) -> Seq<char>;

/// The text that the bytes hold: what they encode where they are UTF-8, else
/// what lossy decoding makes of them.
pub open spec fn decoded(bytes: Seq<u8>) -> Seq<char> {
    if utf8::valid_utf8(bytes) {
        utf8::decode_utf8(bytes)
    } else {
        lossy_utf8(bytes)
    }
}

/// The character has the Unicode property `White_Space`.
pub open spec fn white_space(c: char) -> bool {
    ||| '\u{9}' <= c <= '\u{d}'
    ||| c == '\u{20}'
    ||| c == '\u{85}'
    ||| c == '\u{a0}'
    ||| c == '\u{1680}'
    ||| '\u{2000}' <= c <= '\u{200a}'
    ||| '\u{2028}' <= c <= '\u{2029}'
    ||| c == '\u{202f}'
    ||| c == '\u{205f}'
    ||| c == '\u{3000}'
}

/// The text without the white space that it begins with.
pub open spec fn trimmed_start(text: Seq<char>) -> Seq<char>
    decreases text.len(),
{
    if text.len() > 0 && white_space(text[0]) {
        trimmed_start(text.drop_first())
    } else {
        text
    }
}

/// The text without the white space that it ends with.
pub open spec fn trimmed_end(text: Seq<char>) -> Seq<char>
    decreases text.len(),
{
    if text.len() > 0 && white_space(text.last()) {
        trimmed_end(text.drop_last())
    } else {
        text
    }
}

/// The text without the white space around it.
pub open spec fn trimmed(text: Seq<char>) -> Seq<char> {
    trimmed_end(trimmed_start(text))
}

/// The text without the white space around it, where anything is left.
pub open spec fn non_blank(text: Seq<char>) -> Option<Seq<char>> {
    if trimmed(text).len() == 0 {
        None
    } else {
        Some(trimmed(text))
    }
}

/// [`str::trim`] takes off the white space that the text begins and ends with,
/// white space being what has the Unicode property `White_Space`.
pub assume_specification[ str::trim ](s: &str) -> (r: &str)
    ensures
        r@ == trimmed(s@),
;

/// [`String::push`] appends the character to the string.
pub assume_specification[ String::push ](s: &mut String, c: char)
    ensures
        final(s)@ == old(s)@.push(c),
;

/// [`String::from_utf8_lossy`] gives the text that the bytes encode where they
/// are UTF-8. Of other bytes it is said that the text is a function of them and
/// holds the replacement character U+FFFD; where that goes is left unsaid. A
/// text holds a NUL only where the bytes hold one.
#[verifier::external_body]
fn from_utf8_lossy(bytes: &[u8]) -> (text: String)
    ensures
        text@ == (if utf8::valid_utf8(bytes@) {
            utf8::decode_utf8(bytes@)
        } else {
            lossy_utf8(bytes@)
        }),
        !utf8::valid_utf8(bytes@) ==> text@.contains('\u{fffd}'),
        !bytes@.contains(0) ==> !text@.contains('\0'),
{
    String::from_utf8_lossy(bytes).into_owned()
}

proof fn lemma_until_nul(bytes: Seq<u8>, n: int)
    requires
        0 <= n <= bytes.len(),
        forall|i: int| 0 <= i < n ==> #[trigger] bytes[i] != 0,
        n < bytes.len() ==> bytes[n] == 0,
    ensures
        until_nul(bytes) == bytes.take(n),
    decreases n,
{
    if n > 0 {
        let rest = bytes.drop_first();
        assert forall|i: int| 0 <= i < n - 1 implies #[trigger] rest[i] != 0 by {
            assert(rest[i] == bytes[i + 1]);
        }
        lemma_until_nul(rest, n - 1);
        assert(seq![bytes[0]] + rest.take(n - 1) =~= bytes.take(n));
    } else {
        assert(bytes.take(0) =~= Seq::<u8>::empty());
    }
}

/// The text in a field of fixed size that a NUL ends if it is not full.
///
/// A field without a NUL is read to its end.
pub fn c_name(bytes: &[u8]) -> (name: String)
    ensures
        name@ == decoded(until_nul(bytes@)),
        !utf8::valid_utf8(until_nul(bytes@)) ==> name@.contains('\u{fffd}'),
        !name@.contains('\0'),
{
    let n: usize = bytes.len();
    let mut end: usize = 0;
    while end < n && bytes[end] != 0
        invariant
            n == bytes@.len(),
            end <= n,
            forall|i: int| 0 <= i < end ==> #[trigger] bytes@[i] != 0,
        decreases n - end,
    {
        end = end + 1;
    }
    proof {
        lemma_until_nul(bytes@, end as int);
        lemma_until_nul_holds_none(bytes@);
        assert(bytes@.subrange(0, end as int) =~= bytes@.take(end as int));
    }
    from_utf8_lossy(vstd::slice::slice_subrange(bytes, 0, end))
}

/// The text without the white space around it, or `None` where nothing is left.
pub fn trimmed_text(text: &str) -> (r: Option<String>)
    ensures
        r.deep_view() == non_blank(text@),
{
    let text = text.trim();
    if text.is_empty() {
        None
    } else {
        Some(text.to_owned())
    }
}

/// The text in a field of fixed size, such as `bus_info` of
/// `v4l2_capability`, or `None` where it is blank.
///
/// Read from its own bytes, the text that this gives is the same text.
pub fn bytes_to_string(bytes: &[u8]) -> (r: Option<String>)
    ensures
        r.deep_view() == non_blank(decoded(until_nul(bytes@))),
        !utf8::valid_utf8(until_nul(bytes@)) ==> r is Some,
        r matches Some(s) ==> non_blank(decoded(until_nul(utf8::encode_utf8(s@)))) == Some(s@),
{
    let text = c_name(bytes);
    proof {
        blank_is_white_space(text@);
        if non_blank(text@) is Some {
            trimmed_text_reads_back(text@, non_blank(text@)->0);
        }
    }
    trimmed_text(text.as_str())
}

/// The value of a sysfs attribute, from what its file holds: `None` where the
/// file could not be read or is blank.
pub fn read_sysfs_attr(file: &Option<String>) -> (r: Option<String>)
    ensures
        r.deep_view() == match file.deep_view() {
            Some(text) => non_blank(text),
            None => None,
        },
{
    match file {
        Some(text) => trimmed_text(text.as_str()),
        None => None,
    }
}

/// The decimal digit `d`.
pub open spec fn digit(d: int) -> char {
    (0x30 + d) as char
}

/// `n` in decimal, without leading zeros.
pub open spec fn decimal(n: nat) -> Seq<char>
    decreases n,
{
    if n < 10 {
        seq![digit(n as int)]
    } else {
        decimal(n / 10).push(digit((n % 10) as int))
    }
}

/// Appends `n` in decimal.
pub(crate) fn push_decimal(text: &mut String, n: u32)
    ensures
        final(text)@ == old(text)@ + decimal(n as nat),
    decreases n,
{
    if n >= 10 {
        push_decimal(text, n / 10);
    }
    let d: u8 = (n % 10) as u8;
    text.push((0x30u8 + d) as char);
    proof {
        if n < 10 {
            assert(old(text)@.push(digit(n as int)) =~= old(text)@ + decimal(n as nat));
        } else {
            assert((old(text)@ + decimal(n as nat / 10)).push(digit(n as int % 10)) =~= old(text)@
                + decimal(n as nat));
        }
    }
}

/// A field ends at its first NUL, whatever comes after it, and a field without
/// one is read to its end.
pub proof fn text_ends_at_nul(field: Seq<u8>, rest: Seq<u8>)
    requires
        !field.contains(0),
    ensures
        until_nul(field) == field,
        until_nul(field.push(0) + rest) == field,
{
    let longer = field.push(0) + rest;
    let n = field.len() as int;
    assert forall|i: int| 0 <= i < n implies #[trigger] field[i] != 0 by {}
    assert forall|i: int| 0 <= i < n implies #[trigger] longer[i] != 0 by {
        assert(longer[i] == field[i]);
    }
    assert(longer[n] == 0);
    lemma_until_nul(field, n);
    lemma_until_nul(longer, n);
    assert(field.take(n) =~= field);
    assert(longer.take(n) =~= field);
}

/// ASCII bytes are read as the characters that they are.
pub proof fn ascii_is_kept(bytes: Seq<u8>)
    requires
        forall|i: int| 0 <= i < bytes.len() ==> #[trigger] bytes[i] < 0x80,
    ensures
        utf8::valid_utf8(bytes),
        decoded(bytes) == bytes.map_values(|b: u8| b as char),
{
    let chars = bytes.map_values(|b: u8| b as char);
    assert(utf8::is_ascii_chars(chars)) by {
        assert forall|i: int| 0 <= i < chars.len() implies '\0' <= #[trigger] chars[i] <= '\u{7f}' by {
            assert(bytes[i] < 0x80);
        }
    }
    utf8::is_ascii_chars_encode_utf8(chars);
    assert(utf8::encode_utf8(chars) =~= bytes) by {
        assert forall|i: int| 0 <= i < bytes.len() implies utf8::encode_utf8(chars)[i] == bytes[i] by {
            assert(bytes[i] < 0x80);
            assert(chars[i] == bytes[i] as char);
        }
    }
    utf8::encode_utf8_valid_utf8(chars);
    utf8::encode_utf8_decode_utf8(chars);
}

proof fn lemma_trimmed_start(text: Seq<char>)
    ensures
        trimmed_start(text).len() <= text.len(),
        trimmed_start(text) == text.skip(text.len() - trimmed_start(text).len()),
        forall|i: int|
            0 <= i < text.len() - trimmed_start(text).len() ==> white_space(#[trigger] text[i]),
        trimmed_start(text).len() > 0 ==> !white_space(trimmed_start(text)[0]),
    decreases text.len(),
{
    if text.len() > 0 && white_space(text[0]) {
        let rest = text.drop_first();
        lemma_trimmed_start(rest);
        let n = text.len() - trimmed_start(text).len();
        assert(rest.skip(n - 1) =~= text.skip(n));
        assert forall|i: int| 0 <= i < n implies white_space(#[trigger] text[i]) by {
            if i > 0 {
                assert(text[i] == rest[i - 1]);
            }
        }
    } else {
        assert(text.skip(0) =~= text);
    }
}

proof fn lemma_trimmed_end(text: Seq<char>)
    ensures
        trimmed_end(text).len() <= text.len(),
        trimmed_end(text) == text.take(trimmed_end(text).len() as int),
        forall|i: int|
            trimmed_end(text).len() <= i < text.len() ==> white_space(#[trigger] text[i]),
        trimmed_end(text).len() > 0 ==> !white_space(trimmed_end(text).last()),
    decreases text.len(),
{
    if text.len() > 0 && white_space(text.last()) {
        let rest = text.drop_last();
        lemma_trimmed_end(rest);
        let n = trimmed_end(text).len() as int;
        assert(rest.take(n) =~= text.take(n));
        assert forall|i: int| n <= i < text.len() implies white_space(#[trigger] text[i]) by {
            if i < rest.len() {
                assert(text[i] == rest[i]);
            }
        }
    } else {
        assert(text.take(text.len() as int) =~= text);
    }
}

/// Trimming takes off white space alone, and leaves none at either end.
pub proof fn trimming_takes_white_space_off(text: Seq<char>)
    ensures
        exists|from: int, to: int|
            {
                &&& 0 <= from <= to <= text.len()
                &&& trimmed(text) == #[trigger] text.subrange(from, to)
                &&& forall|i: int|
                    (0 <= i < from || to <= i < text.len()) ==> white_space(#[trigger] text[i])
            },
        trimmed(text).len() > 0 ==> !white_space(trimmed(text)[0]) && !white_space(
            trimmed(text).last(),
        ),
{
    let right = trimmed_start(text);
    lemma_trimmed_start(text);
    lemma_trimmed_end(right);
    let from = text.len() - right.len();
    let to = from + trimmed(text).len();
    assert(trimmed(text) =~= text.subrange(from, to));
    assert forall|i: int| (0 <= i < from || to <= i < text.len()) implies white_space(
        #[trigger] text[i],
    ) by {
        if to <= i {
            assert(text[i] == right[i - from]);
        }
    }
    if trimmed(text).len() > 0 {
        assert(trimmed(text)[0] == right[0]);
    }
}

/// A text is blank exactly where it holds nothing but white space.
pub proof fn blank_is_white_space(text: Seq<char>)
    ensures
        non_blank(text) is None <==> forall|i: int|
            0 <= i < text.len() ==> white_space(#[trigger] text[i]),
{
    trimming_takes_white_space_off(text);
    let (from, to) = choose|from: int, to: int|
        {
            &&& 0 <= from <= to <= text.len()
            &&& trimmed(text) == #[trigger] text.subrange(from, to)
            &&& forall|i: int|
                (0 <= i < from || to <= i < text.len()) ==> white_space(#[trigger] text[i])
        };
    if trimmed(text).len() > 0 {
        assert(trimmed(text)[0] == text[from]);
    }
}

/// Different numbers are written differently.
pub proof fn decimals_differ(a: nat, b: nat)
    requires
        decimal(a) == decimal(b),
    ensures
        a == b,
    decreases a,
{
    lemma_digits(a);
    lemma_digits(b);
    if a >= 10 && b >= 10 {
        assert(decimal(a).drop_last() =~= decimal(a / 10));
        assert(decimal(b).drop_last() =~= decimal(b / 10));
        decimals_differ(a / 10, b / 10);
        assert(decimal(a).last() == digit((a % 10) as int));
        assert(decimal(b).last() == digit((b % 10) as int));
    } else if a < 10 && b < 10 {
        assert(decimal(a)[0] == digit(a as int));
        assert(decimal(b)[0] == digit(b as int));
    } else if a < 10 {
        lemma_digits(b / 10);
    } else {
        lemma_digits(a / 10);
    }
}

proof fn lemma_digits(n: nat)
    ensures
        decimal(n).len() >= 1,
        forall|i: int| 0 <= i < decimal(n).len() ==> '0' <= #[trigger] decimal(n)[i] <= '9',
    decreases n,
{
    if n >= 10 {
        lemma_digits(n / 10);
        let before = decimal(n / 10);
        assert forall|i: int| 0 <= i < decimal(n).len() implies '0' <= #[trigger] decimal(n)[i]
            <= '9' by {
            if i < before.len() {
                assert(decimal(n)[i] == before[i]);
            }
        }
    }
}

proof fn lemma_char_nul(c: char)
    ensures
        utf8::encode_scalar(c as u32).contains(0) <==> c == '\0',
{
    let scalar = c as u32;
    let bytes = utf8::encode_scalar(scalar);
    if utf8::has_width_1_encoding(scalar) {
        assert((scalar & 0x7f) as u8 == 0 <==> scalar == 0) by (bit_vector)
            requires
                scalar <= 0x7f,
        ;
        if scalar == 0 {
            assert(bytes[0] == 0);
        }
    } else {
        assert(forall|a: u8, b: u8| a >= 0x80 ==> #[trigger] (a | b) != 0) by (bit_vector);
    }
}

proof fn lemma_encoded_nul(text: Seq<char>)
    ensures
        utf8::encode_utf8(text).contains(0) <==> text.contains('\0'),
    decreases text.len(),
{
    if text.len() > 0 {
        let head = utf8::encode_scalar(text[0] as u32);
        let rest = text.drop_first();
        let tail = utf8::encode_utf8(rest);
        let all = utf8::encode_utf8(text);
        lemma_char_nul(text[0]);
        lemma_encoded_nul(rest);
        assert(all == head + tail);
        if all.contains(0) {
            let i = choose|i: int| 0 <= i < all.len() && all[i] == 0;
            if i < head.len() {
                assert(head[i] == 0);
                assert(text[0] == '\0');
            } else {
                assert(tail[i - head.len()] == 0);
                let k = choose|k: int| 0 <= k < rest.len() && rest[k] == '\0';
                assert(text[k + 1] == '\0');
            }
        }
        if text.contains('\0') {
            let k = choose|k: int| 0 <= k < text.len() && text[k] == '\0';
            if k == 0 {
                let i = choose|i: int| 0 <= i < head.len() && head[i] == 0;
                assert(all[i] == 0);
            } else {
                assert(rest[k - 1] == '\0');
                let i = choose|i: int| 0 <= i < tail.len() && tail[i] == 0;
                assert(all[head.len() + i] == 0);
            }
        }
    }
}

/// Read from its own bytes, a text without a NUL is the same text.
pub proof fn text_reads_back(text: Seq<char>)
    requires
        !text.contains('\0'),
    ensures
        decoded(until_nul(utf8::encode_utf8(text))) == text,
{
    lemma_encoded_nul(text);
    text_ends_at_nul(utf8::encode_utf8(text), Seq::empty());
    utf8::encode_utf8_valid_utf8(text);
    utf8::encode_utf8_decode_utf8(text);
}

/// Trimming a trimmed text changes nothing.
pub proof fn trimming_is_idempotent(text: Seq<char>)
    ensures
        trimmed(trimmed(text)) == trimmed(text),
{
    let once = trimmed(text);
    trimming_takes_white_space_off(text);
    assert(trimmed_start(once) == once);
    assert(trimmed_end(once) == once);
}

/// What is left of a text when it is trimmed reads back from its own bytes,
/// where the text holds no NUL.
pub proof fn trimmed_text_reads_back(text: Seq<char>, s: Seq<char>)
    requires
        !text.contains('\0'),
        non_blank(text) == Some(s),
    ensures
        non_blank(decoded(until_nul(utf8::encode_utf8(s)))) == Some(s),
{
    trimming_takes_white_space_off(text);
    let (from, to) = choose|from: int, to: int|
        {
            &&& 0 <= from <= to <= text.len()
            &&& trimmed(text) == #[trigger] text.subrange(from, to)
            &&& forall|i: int|
                (0 <= i < from || to <= i < text.len()) ==> white_space(#[trigger] text[i])
        };
    assert(!s.contains('\0')) by {
        assert forall|i: int| 0 <= i < s.len() implies s[i] != '\0' by {
            assert(s[i] == text[from + i]);
        }
    }
    text_reads_back(s);
    trimming_is_idempotent(text);
}

proof fn lemma_until_nul_holds_none(bytes: Seq<u8>)
    ensures
        !until_nul(bytes).contains(0),
    decreases bytes.len(),
{
    if bytes.len() > 0 && bytes[0] != 0 {
        let rest = until_nul(bytes.drop_first());
        lemma_until_nul_holds_none(bytes.drop_first());
        assert forall|i: int| 0 <= i < until_nul(bytes).len() implies until_nul(bytes)[i] != 0 by {
            if i > 0 {
                assert(until_nul(bytes)[i] == rest[i - 1]);
            }
        }
    }
}

/// The text in a field that holds UTF-8 reads back from its own bytes.
pub proof fn utf8_field_reads_back(bytes: Seq<u8>, s: Seq<char>)
    requires
        utf8::valid_utf8(until_nul(bytes)),
        non_blank(decoded(until_nul(bytes))) == Some(s),
    ensures
        non_blank(decoded(until_nul(utf8::encode_utf8(s)))) == Some(s),
{
    let text = decoded(until_nul(bytes));
    lemma_until_nul_holds_none(bytes);
    utf8::decode_utf8_encode_utf8(until_nul(bytes));
    lemma_encoded_nul(text);
    trimmed_text_reads_back(text, s);
}

proof fn lemma_trimmed_start_of(pad: Seq<char>, text: Seq<char>)
    requires
        forall|i: int| 0 <= i < pad.len() ==> white_space(#[trigger] pad[i]),
    ensures
        trimmed_start(pad + text) == trimmed_start(text),
    decreases pad.len(),
{
    if pad.len() == 0 {
        assert(pad + text =~= text);
    } else {
        let rest = pad.drop_first();
        assert forall|i: int| 0 <= i < rest.len() implies white_space(#[trigger] rest[i]) by {
            assert(rest[i] == pad[i + 1]);
        }
        assert(white_space(pad[0]) && (pad + text)[0] == pad[0]);
        assert((pad + text).drop_first() =~= rest + text);
        lemma_trimmed_start_of(rest, text);
    }
}

proof fn lemma_trimmed_end_of(text: Seq<char>, pad: Seq<char>)
    requires
        forall|i: int| 0 <= i < pad.len() ==> white_space(#[trigger] pad[i]),
    ensures
        trimmed_end(text + pad) == trimmed_end(text),
    decreases pad.len(),
{
    if pad.len() == 0 {
        assert(text + pad =~= text);
    } else {
        let rest = pad.drop_last();
        assert forall|i: int| 0 <= i < rest.len() implies white_space(#[trigger] rest[i]) by {
            assert(rest[i] == pad[i]);
        }
        assert(white_space(pad[pad.len() - 1]) && (text + pad).last() == pad.last());
        assert((text + pad).drop_last() =~= text + rest);
        lemma_trimmed_end_of(text, rest);
    }
}

/// Of a text with white space around it, just that text is left, to its last
/// character.
pub proof fn padding_is_taken_off(before: Seq<char>, s: Seq<char>, after: Seq<char>)
    requires
        s.len() > 0,
        !white_space(s[0]),
        !white_space(s.last()),
        forall|i: int| 0 <= i < before.len() ==> white_space(#[trigger] before[i]),
        forall|i: int| 0 <= i < after.len() ==> white_space(#[trigger] after[i]),
    ensures
        non_blank(before + s + after) == Some(s),
{
    assert(before + s + after =~= before + (s + after));
    lemma_trimmed_start_of(before, s + after);
    assert((s + after)[0] == s[0]);
    lemma_trimmed_end_of(s, after);
}

/// A field that begins with the bytes of a text, and ends there or goes on with
/// a NUL, holds that text, whatever its length.
pub proof fn field_holds_text(field: Seq<u8>, text: Seq<char>)
    requires
        !text.contains('\0'),
        utf8::encode_utf8(text).len() <= field.len(),
        field.take(utf8::encode_utf8(text).len() as int) == utf8::encode_utf8(text),
        utf8::encode_utf8(text).len() < field.len()
            ==> field[utf8::encode_utf8(text).len() as int] == 0,
    ensures
        decoded(until_nul(field)) == text,
{
    let bytes = utf8::encode_utf8(text);
    let n = bytes.len() as int;
    lemma_encoded_nul(text);
    assert forall|i: int| 0 <= i < n implies #[trigger] field[i] != 0 by {
        assert(field[i] == field.take(n)[i]);
        assert(bytes.contains(bytes[i]));
    }
    lemma_until_nul(field, n);
    utf8::encode_utf8_valid_utf8(text);
    utf8::encode_utf8_decode_utf8(text);
}

/// A field that begins with `n` ASCII bytes other than NUL, and ends there or
/// goes on with a NUL, holds the `n` characters that these bytes are.
pub proof fn field_holds_ascii(field: Seq<u8>, n: int)
    requires
        0 <= n <= field.len(),
        forall|i: int| 0 <= i < n ==> 0 < #[trigger] field[i] < 0x80,
        n < field.len() ==> field[n] == 0,
    ensures
        decoded(until_nul(field)).len() == n,
        forall|i: int|
            0 <= i < n ==> #[trigger] decoded(until_nul(field))[i] == field[i] as char,
{
    lemma_until_nul(field, n);
    assert forall|i: int| 0 <= i < n implies #[trigger] field.take(n)[i] < 0x80 by {
        assert(field.take(n)[i] == field[i]);
    }
    ascii_is_kept(field.take(n));
}

/// A number below ten is written with one digit, and one more digit is written
/// behind those of the number that it extends.
pub proof fn decimal_by_digits(n: nat, d: nat)
    requires
        d < 10,
    ensures
        decimal(d) == seq!['0', '1', '2', '3', '4', '5', '6', '7', '8', '9'].subrange(
            d as int,
            d as int + 1,
        ),
        n > 0 ==> decimal(10 * n + d) == decimal(n) + decimal(d),
{
    assert(decimal(d) =~= seq!['0', '1', '2', '3', '4', '5', '6', '7', '8', '9'].subrange(
        d as int,
        d as int + 1,
    ));
    if n > 0 {
        assert((10 * n + d) / 10 == n && (10 * n + d) % 10 == d);
        assert(decimal(10 * n + d) =~= decimal(n) + decimal(d));
    }
}

/// The white space characters, by their numbers.
pub proof fn white_space_characters(c: char)
    ensures
        white_space(c) <==> {
            let n = c as u32;
            ||| 0x09 <= n <= 0x0d
            ||| n == 0x20
            ||| n == 0x85
            ||| n == 0xa0
            ||| n == 0x1680
            ||| 0x2000 <= n <= 0x200a
            ||| n == 0x2028
            ||| n == 0x2029
            ||| n == 0x202f
            ||| n == 0x205f
            ||| n == 0x3000
        },
{
}

/// Bytes that are UTF-8 hold the text that they encode; the text of others is
/// that of lossy decoding.
pub proof fn bytes_are_decoded(bytes: Seq<u8>, text: Seq<char>)
    ensures
        bytes == utf8::encode_utf8(text) ==> decoded(bytes) == text,
        !utf8::valid_utf8(bytes) ==> decoded(bytes) == lossy_utf8(bytes),
{
    if bytes == utf8::encode_utf8(text) {
        utf8::encode_utf8_valid_utf8(text);
        utf8::encode_utf8_decode_utf8(text);
    }
}

} // verus!
