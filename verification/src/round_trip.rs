//! Showing a dialogue string and encoding the shown text again gives back the
//! original bytes, for terminated strings whose every code the table shows
//! faithfully.
use vstd::prelude::*;
use crate::encoding::{
    all_ascii, ascii_lower, char_bytes, code_point, control_at, control_display,
    control_tag_bytes, decimal, decode_from, digit_char, digit_value, digits_value,
    element_display, encode_from, find_char, hex2_lower, hex2_upper, hex_digit_lower,
    hex_digit_upper, lowercase_of, name_choice, name_clear, name_color, name_end, name_ff,
    name_firstname, name_lastname, name_nickname, name_nl, name_wait, parse_unsigned,
    raw_code_at, raw_code_bytes, single_byte_element, spec_decode_string,
    spec_elements_to_display, spec_encode_control_tag, spec_encode_display_string, starts_with,
    tag, two_byte_code, two_byte_element, CharTableView, ControlCode, TextElement,
};
use crate::script::ends_with_terminator;

verus! {

/// The string terminator `FF 01`.
pub open spec fn terminator() -> Seq<u8> {
    seq![0xFFu8, 0x01u8]
}

/// A character that the encoder reads as itself in a display string.
pub open spec fn plain_char(c: char) -> bool {
    c != '[' && c != '|'
}

/// The number of bytes of the code that starts at `raw[i]`.
pub open spec fn token_width(raw: Seq<u8>, i: int) -> int {
    if raw[i] == 0xFF {
        control_at(raw, i).1
    } else if raw[i] >= 0x80 {
        2
    } else {
        1
    }
}

/// The element that the code at `raw[i]` decodes to.
pub open spec fn token_element(raw: Seq<u8>, t: CharTableView, i: int) -> TextElement {
    if raw[i] == 0xFF {
        TextElement::Control(control_at(raw, i).0)
    } else if raw[i] >= 0x80 {
        two_byte_element(t, raw[i], raw[i + 1])
    } else {
        single_byte_element(t, raw[i])
    }
}

/// The code at `raw[i]` lies whole in `raw` and its display is encoded back to
/// the same bytes: it is not a null byte, not the terminator, a wait
/// code ends with its 0 byte, and a character that the table shows encodes back
/// to the code it came from and is not a bracket or bar.
pub open spec fn token_round_trips(raw: Seq<u8>, t: CharTableView, i: int) -> bool {
    let b = raw[i];
    if b == 0xFF {
        &&& i + 1 < raw.len()
        &&& raw[i + 1] != 0x01
        &&& (raw[i + 1] == 0x05 ==> i + 3 < raw.len() && raw[i + 3] == 0)
        &&& (raw[i + 1] == 0x06 || raw[i + 1] == 0x0E ==> i + 2 < raw.len())
    } else if b >= 0x80 {
        &&& i + 1 < raw.len()
        &&& t.code_to_char.contains_key(two_byte_code(b, raw[i + 1])) ==> {
            let c = t.code_to_char[two_byte_code(b, raw[i + 1])];
            &&& plain_char(c)
            &&& !t.single_byte_rev.contains_key(code_point(c))
            &&& t.char_to_code.contains_key(code_point(c))
            &&& t.char_to_code[code_point(c)] == two_byte_code(b, raw[i + 1])
        }
    } else if b >= 0x01 {
        t.single_byte.contains_key(b) ==> {
            let c = t.single_byte[b];
            &&& plain_char(c)
            &&& t.single_byte_rev.contains_key(code_point(c))
            &&& t.single_byte_rev[code_point(c)] == b
        }
    } else {
        false
    }
}

/// Every code of `raw` from byte `i` on round-trips, and the codes end exactly
/// at the end of `raw`.
pub open spec fn round_trips_from(raw: Seq<u8>, t: CharTableView, i: int) -> bool
    decreases raw.len() - i,
{
    if i < 0 || i > raw.len() {
        false
    } else if i == raw.len() {
        true
    } else if token_round_trips(raw, t, i) {
        round_trips_from(raw, t, i + token_width(raw, i))
    } else {
        false
    }
}

proof fn lemma_token_fits(raw: Seq<u8>, t: CharTableView, i: int)
    requires
        0 <= i < raw.len(),
        token_round_trips(raw, t, i),
    ensures
        1 <= token_width(raw, i),
        i + token_width(raw, i) <= raw.len(),
        decode_from(raw, t, i) == seq![token_element(raw, t, i)] + decode_from(
            raw,
            t,
            i + token_width(raw, i),
        ),
{
}

proof fn lemma_decode_with_terminator(body: Seq<u8>, t: CharTableView, i: int)
    requires
        0 <= i <= body.len(),
        round_trips_from(body, t, i),
    ensures
        decode_from(body + terminator(), t, i) == decode_from(body, t, i) + seq![
            TextElement::Control(ControlCode::End),
        ],
    decreases body.len() - i,
{
    let raw = body + terminator();
    let n = body.len() as int;
    if i == n {
        assert(raw[n] == 0xFF && raw[n + 1] == 0x01);
        assert(decode_from(raw, t, n + 2) == Seq::<TextElement>::empty());
        assert(decode_from(raw, t, n) == seq![TextElement::Control(ControlCode::End)]
            + decode_from(raw, t, n + 2));
        assert(decode_from(body, t, n) == Seq::<TextElement>::empty());
        assert(decode_from(raw, t, i) =~= decode_from(body, t, i) + seq![
            TextElement::Control(ControlCode::End),
        ]);
    } else {
        lemma_token_fits(body, t, i);
        let w = token_width(body, i);
        assert(raw[i] == body[i]);
        if body[i] >= 0x80 {
            assert(raw[i + 1] == body[i + 1]);
        }
        if body[i] == 0xFF {
            if body[i + 1] == 0x05 || body[i + 1] == 0x06 || body[i + 1] == 0x0E {
                assert(raw[i + 2] == body[i + 2]);
            }
            assert(control_at(raw, i) == control_at(body, i));
        }
        assert(token_round_trips(raw, t, i));
        lemma_token_fits(raw, t, i);
        assert(token_element(raw, t, i) == token_element(body, t, i));
        assert(token_width(raw, i) == w);
        lemma_decode_with_terminator(body, t, i + w);
        assert(decode_from(raw, t, i) =~= decode_from(body, t, i) + seq![
            TextElement::Control(ControlCode::End),
        ]);
    }
}

proof fn lemma_display_append(a: Seq<TextElement>, b: Seq<TextElement>)
    ensures
        spec_elements_to_display(a + b) == spec_elements_to_display(a) + spec_elements_to_display(
            b,
        ),
    decreases b.len(),
{
    if b.len() == 0 {
        assert(a + b =~= a);
        assert(spec_elements_to_display(a) + spec_elements_to_display(b) =~= spec_elements_to_display(a));
    } else {
        lemma_display_append(a, b.drop_last());
        assert((a + b).drop_last() =~= a + b.drop_last());
        assert((a + b).last() == b.last());
        assert(spec_elements_to_display(a + b) =~= spec_elements_to_display(a)
            + spec_elements_to_display(b));
    }
}

proof fn lemma_display_single(e: TextElement)
    ensures
        spec_elements_to_display(seq![e]) == element_display(e),
{
    let s = seq![e];
    assert(s.drop_last() =~= Seq::<TextElement>::empty());
    assert(s.last() == e);
    assert(spec_elements_to_display(s.drop_last()) == Seq::<char>::empty());
    assert(Seq::<char>::empty() + element_display(e) =~= element_display(e));
}

proof fn lemma_find_char_shift(p: Seq<char>, q: Seq<char>, c: char, j: int)
    requires
        0 <= j,
    ensures
        find_char(p + q, c, p.len() + j) == (match find_char(q, c, j) {
            Some(k) => Some(k + p.len()),
            None => None,
        }),
    decreases q.len() - j,
{
    if j < q.len() {
        assert((p + q)[p.len() + j] == q[j]);
        if q[j] != c {
            lemma_find_char_shift(p, q, c, j + 1);
        }
    }
}

proof fn lemma_find_char_first(chars: Seq<char>, c: char, i: int, k: int)
    requires
        0 <= i <= k < chars.len(),
        chars[k] == c,
        forall|j: int| i <= j < k ==> chars[j] != c,
    ensures
        find_char(chars, c, i) == Some(k),
    decreases k - i,
{
    if i < k {
        lemma_find_char_first(chars, c, i + 1, k);
    }
}

/// Encoding only looks forward: what precedes a position does not change what
/// is encoded from it.
proof fn lemma_encode_shift(p: Seq<char>, q: Seq<char>, t: CharTableView, j: int)
    requires
        0 <= j,
    ensures
        encode_from(p + q, t, p.len() + j) == encode_from(q, t, j),
    decreases q.len() - j,
{
    let chars = p + q;
    let i = p.len() + j;
    if j < q.len() {
        assert(chars[i] == q[j]);
        lemma_find_char_shift(p, q, ']', j);
        crate::encoding::lemma_find_char(q, ']', j);
        if q[j] == '[' && find_char(q, ']', j) is Some {
            let k = find_char(q, ']', j)->0;
            assert(chars.subrange(i + 1, k + p.len()) =~= q.subrange(j + 1, k));
            lemma_encode_shift(p, q, t, k + 1);
            assert(p.len() + k + 1 == k + p.len() + 1);
        } else {
            if j + 4 < q.len() {
                assert(chars.subrange(i + 1, i + 5) =~= q.subrange(j + 1, j + 5));
            }
            assert(raw_code_at(chars, i) == raw_code_at(q, j));
            if raw_code_at(q, j) is Some {
                lemma_encode_shift(p, q, t, j + 5);
            } else {
                lemma_encode_shift(p, q, t, j + 1);
            }
        }
    }
}

/// ASCII text without capital letters or closing brackets: lowercasing keeps
/// it, and it can stand inside a tag.
pub open spec fn plain_ascii(s: Seq<char>) -> bool {
    forall|k: int|
        0 <= k < s.len() ==> (#[trigger] s[k] as u32) < 128 && !('A' <= s[k] <= 'Z') && s[k]
            != ']'
}

proof fn lemma_plain_concat(a: Seq<char>, b: Seq<char>)
    requires
        plain_ascii(a),
        plain_ascii(b),
    ensures
        plain_ascii(a + b),
{
    assert forall|k: int| 0 <= k < (a + b).len() implies ((#[trigger] (a + b)[k]) as u32) < 128
        && !('A' <= (a + b)[k] <= 'Z') && (a + b)[k] != ']' by {
        if k < a.len() {
            assert((a + b)[k] == a[k]);
        } else {
            assert((a + b)[k] == b[k - a.len()]);
        }
    }
}

proof fn lemma_lowercase_plain(name: Seq<char>)
    requires
        plain_ascii(name),
    ensures
        lowercase_of(name) == name,
{
    assert(all_ascii(name));
    assert(name.map_values(|c: char| ascii_lower(c)) =~= name);
}

/// A tag followed by more text encodes to the tag's bytes, then the rest.
proof fn lemma_encode_tag(name: Seq<char>, s: Seq<char>, t: CharTableView)
    requires
        forall|k: int| 0 <= k < name.len() ==> name[k] != ']',
    ensures
        encode_from(tag(name) + s, t, 0) == spec_encode_control_tag(name) + encode_from(s, t, 0),
{
    let x = tag(name);
    let chars = x + s;
    let m = name.len() as int;
    assert(chars[0] == '[');
    assert(chars[m + 1] == ']');
    assert forall|j: int| 0 <= j < m + 1 implies chars[j] != ']' by {
        if j > 0 {
            assert(chars[j] == name[j - 1]);
        }
    }
    lemma_find_char_first(chars, ']', 0, m + 1);
    assert(chars.subrange(1, m + 1) =~= name);
    lemma_encode_shift(x, s, t, 0);
}

proof fn lemma_decimal_digits(n: u8)
    ensures
        plain_ascii(decimal(n)),
        decimal(n).len() >= 1,
        parse_unsigned(decimal(n), 10, 255) == Some(n as int),
{
    let d = decimal(n);
    let v = n as int;
    reveal_with_fuel(digits_value, 4);
    if v >= 100 {
        assert(d.drop_last() =~= seq![digit_char(v / 100), digit_char((v / 10) % 10)]);
        assert(d.drop_last().drop_last() =~= seq![digit_char(v / 100)]);
        assert(d.drop_last().drop_last().drop_last() =~= Seq::<char>::empty());
        assert(digit_value(digit_char(v / 100), 10) == Some(v / 100));
        assert(digit_value(digit_char((v / 10) % 10), 10) == Some((v / 10) % 10));
        assert(digit_value(digit_char(v % 10), 10) == Some(v % 10));
    } else if v >= 10 {
        assert(d.drop_last() =~= seq![digit_char(v / 10)]);
        assert(d.drop_last().drop_last() =~= Seq::<char>::empty());
        assert(digit_value(digit_char(v / 10), 10) == Some(v / 10));
        assert(digit_value(digit_char(v % 10), 10) == Some(v % 10));
    } else {
        assert(d.drop_last() =~= Seq::<char>::empty());
        assert(digit_value(digit_char(v), 10) == Some(v));
    }
}

proof fn lemma_hex_digit(d: int)
    requires
        0 <= d < 16,
    ensures
        digit_value(hex_digit_upper(d), 16) == Some(d),
        digit_value(hex_digit_lower(d), 16) == Some(d),
        hex_digit_upper(d) != '+' && hex_digit_lower(d) != '+',
        hex_digit_upper(d) != ']' && hex_digit_lower(d) != ']',
        (hex_digit_lower(d) as u32) < 128 && !('A' <= hex_digit_lower(d) <= 'Z'),
{
}

proof fn lemma_hex2_lower(n: u8)
    ensures
        hex2_lower(n).len() == 2,
        parse_unsigned(hex2_lower(n), 16, 255) == Some(n as int),
        plain_ascii(hex2_lower(n)),
{
    let s = hex2_lower(n);
    let v = n as int;
    lemma_hex_digit(v / 16);
    lemma_hex_digit(v % 16);
    reveal_with_fuel(digits_value, 3);
    assert(s.drop_last() =~= seq![hex_digit_lower(v / 16)]);
    assert(s.drop_last().drop_last() =~= Seq::<char>::empty());
}

proof fn lemma_hex4_upper(hi: u8, lo: u8)
    ensures
        parse_unsigned(hex2_upper(hi) + hex2_upper(lo), 16, 0xFFFF) == Some(
            hi as int * 256 + lo as int,
        ),
{
    let s = hex2_upper(hi) + hex2_upper(lo);
    let h = hi as int;
    let l = lo as int;
    lemma_hex_digit(h / 16);
    lemma_hex_digit(h % 16);
    lemma_hex_digit(l / 16);
    lemma_hex_digit(l % 16);
    reveal_with_fuel(digits_value, 5);
    assert(s =~= seq![
        hex_digit_upper(h / 16),
        hex_digit_upper(h % 16),
        hex_digit_upper(l / 16),
        hex_digit_upper(l % 16),
    ]);
    assert(s.drop_last() =~= seq![
        hex_digit_upper(h / 16),
        hex_digit_upper(h % 16),
        hex_digit_upper(l / 16),
    ]);
    assert(s.drop_last().drop_last() =~= seq![hex_digit_upper(h / 16), hex_digit_upper(h % 16)]);
    assert(s.drop_last().drop_last().drop_last() =~= seq![hex_digit_upper(h / 16)]);
    assert(s.drop_last().drop_last().drop_last().drop_last() =~= Seq::<char>::empty());
}

proof fn lemma_not_prefix(s: Seq<char>, p: Seq<char>, k: int)
    requires
        0 <= k < p.len(),
        k < s.len(),
        s[k] != p[k],
    ensures
        !starts_with(s, p),
{
    if starts_with(s, p) {
        assert(s.take(p.len() as int)[k] == s[k]);
    }
}

proof fn lemma_tag_end()
    ensures
        plain_ascii(name_end()),
        spec_encode_control_tag(name_end()) == seq![0xFFu8, 0x02u8],
{
    lemma_lowercase_plain(name_end());
}

proof fn lemma_tag_nl()
    ensures
        plain_ascii(name_nl()),
        spec_encode_control_tag(name_nl()) == seq![0xFFu8, 0x03u8],
{
    lemma_lowercase_plain(name_nl());
}

proof fn lemma_tag_clear()
    ensures
        plain_ascii(name_clear()),
        spec_encode_control_tag(name_clear()) == seq![0xFFu8, 0x04u8],
{
    let name = name_clear();
    lemma_lowercase_plain(name);
    lemma_not_prefix(name, name_color(), 1);
}

proof fn lemma_tag_firstname()
    ensures
        plain_ascii(name_firstname()),
        spec_encode_control_tag(name_firstname()) == seq![0xFFu8, 0x07u8],
{
    let name = name_firstname();
    lemma_lowercase_plain(name);
    lemma_not_prefix(name, name_wait(), 0);
    lemma_not_prefix(name, name_color(), 0);
    lemma_not_prefix(name, name_choice(), 0);
}

proof fn lemma_tag_nickname()
    ensures
        plain_ascii(name_nickname()),
        spec_encode_control_tag(name_nickname()) == seq![0xFFu8, 0x08u8],
{
    let name = name_nickname();
    lemma_lowercase_plain(name);
    lemma_not_prefix(name, name_wait(), 0);
    lemma_not_prefix(name, name_color(), 0);
    lemma_not_prefix(name, name_choice(), 0);
    assert(name != name_firstname());
}

proof fn lemma_tag_lastname()
    ensures
        plain_ascii(name_lastname()),
        spec_encode_control_tag(name_lastname()) == seq![0xFFu8, 0x0Fu8],
{
    let name = name_lastname();
    lemma_lowercase_plain(name);
    lemma_not_prefix(name, name_wait(), 0);
    lemma_not_prefix(name, name_color(), 0);
    lemma_not_prefix(name, name_choice(), 0);
    assert(name != name_firstname());
    assert(name[0] != name_nickname()[0]);
    assert(name != name_nickname());
}

proof fn lemma_tag_wait(n: u8)
    ensures
        plain_ascii(name_wait() + decimal(n)),
        spec_encode_control_tag(name_wait() + decimal(n)) == seq![0xFFu8, 0x05u8, n, 0x00u8],
{
    let name = name_wait() + decimal(n);
    lemma_decimal_digits(n);
    lemma_plain_concat(name_wait(), decimal(n));
    lemma_lowercase_plain(name);
    assert(name.take(5) =~= name_wait());
    assert(name.skip(5) =~= decimal(n));
}

proof fn lemma_tag_color(n: u8)
    ensures
        plain_ascii(name_color() + decimal(n)),
        spec_encode_control_tag(name_color() + decimal(n)) == seq![0xFFu8, 0x06u8, n],
{
    let name = name_color() + decimal(n);
    lemma_decimal_digits(n);
    lemma_plain_concat(name_color(), decimal(n));
    lemma_lowercase_plain(name);
    lemma_not_prefix(name, name_wait(), 0);
    assert(name.take(6) =~= name_color());
    assert(name.skip(6) =~= decimal(n));
}

proof fn lemma_tag_choice(n: u8)
    ensures
        plain_ascii(name_choice() + decimal(n)),
        spec_encode_control_tag(name_choice() + decimal(n)) == seq![0xFFu8, 0x0Eu8, n],
{
    let name = name_choice() + decimal(n);
    lemma_decimal_digits(n);
    lemma_plain_concat(name_choice(), decimal(n));
    lemma_lowercase_plain(name);
    lemma_not_prefix(name, name_wait(), 0);
    lemma_not_prefix(name, name_color(), 1);
    assert(name.take(7) =~= name_choice());
    assert(name.skip(7) =~= decimal(n));
}

proof fn lemma_tag_unknown(n: u8)
    ensures
        plain_ascii(name_ff() + hex2_lower(n)),
        spec_encode_control_tag(name_ff() + hex2_lower(n)) == seq![0xFFu8, n],
{
    let name = name_ff() + hex2_lower(n);
    lemma_hex2_lower(n);
    lemma_plain_concat(name_ff(), hex2_lower(n));
    lemma_lowercase_plain(name);
    lemma_not_prefix(name, name_wait(), 0);
    lemma_not_prefix(name, name_color(), 0);
    lemma_not_prefix(name, name_choice(), 0);
    assert(name.take(2) =~= name_ff());
    assert(name.skip(2) =~= hex2_lower(n));
}

/// The display of every control code other than the terminator is a tag
/// whose name encodes back to that code's bytes.
proof fn lemma_control_tag_round_trip(raw: Seq<u8>, i: int) -> (name: Seq<char>)
    requires
        0 <= i,
        i + 1 < raw.len(),
        raw[i] == 0xFF,
        raw[i + 1] != 0x01,
        raw[i + 1] == 0x05 ==> i + 3 < raw.len() && raw[i + 3] == 0,
        raw[i + 1] == 0x06 || raw[i + 1] == 0x0E ==> i + 2 < raw.len(),
    ensures
        control_display(control_at(raw, i).0) == tag(name),
        plain_ascii(name),
        i + control_at(raw, i).1 <= raw.len(),
        spec_encode_control_tag(name) == raw.subrange(i, i + control_at(raw, i).1),
{
    let (code, w) = control_at(raw, i);
    let bytes = raw.subrange(i, i + w);
    match code {
        ControlCode::EndDialogue => {
            lemma_tag_end();
            assert(bytes =~= seq![0xFFu8, 0x02u8]);
            name_end()
        },
        ControlCode::Newline => {
            lemma_tag_nl();
            assert(bytes =~= seq![0xFFu8, 0x03u8]);
            name_nl()
        },
        ControlCode::Clear => {
            lemma_tag_clear();
            assert(bytes =~= seq![0xFFu8, 0x04u8]);
            name_clear()
        },
        ControlCode::Wait(n) => {
            lemma_tag_wait(n);
            assert(bytes =~= seq![0xFFu8, 0x05u8, n, 0x00u8]);
            name_wait() + decimal(n)
        },
        ControlCode::Color(n) => {
            lemma_tag_color(n);
            assert(bytes =~= seq![0xFFu8, 0x06u8, n]);
            name_color() + decimal(n)
        },
        ControlCode::FirstName => {
            lemma_tag_firstname();
            assert(bytes =~= seq![0xFFu8, 0x07u8]);
            name_firstname()
        },
        ControlCode::Nickname => {
            lemma_tag_nickname();
            assert(bytes =~= seq![0xFFu8, 0x08u8]);
            name_nickname()
        },
        ControlCode::Choice(n) => {
            lemma_tag_choice(n);
            assert(bytes =~= seq![0xFFu8, 0x0Eu8, n]);
            name_choice() + decimal(n)
        },
        ControlCode::LastName => {
            lemma_tag_lastname();
            assert(bytes =~= seq![0xFFu8, 0x0Fu8]);
            name_lastname()
        },
        ControlCode::Unknown(n) => {
            lemma_tag_unknown(n);
            assert(bytes =~= seq![0xFFu8, n]);
            name_ff() + hex2_lower(n)
        },
        _ => {
            assert(false);
            seq![]
        },
    }
}


/// The display of the code at `body[i]`, followed by more text, encodes to the
/// code's bytes, then to what the rest encodes to.
proof fn lemma_encode_token(body: Seq<u8>, t: CharTableView, i: int, s: Seq<char>)
    requires
        0 <= i < body.len(),
        token_round_trips(body, t, i),
    ensures
        encode_from(element_display(token_element(body, t, i)) + s, t, 0) == body.subrange(
            i,
            i + token_width(body, i),
        ) + encode_from(s, t, 0),
{
    lemma_token_fits(body, t, i);
    let e = token_element(body, t, i);
    let x = element_display(e);
    let chars = x + s;
    let w = token_width(body, i);
    let bytes = body.subrange(i, i + w);
    let b = body[i];
    if b == 0xFF {
        let name = lemma_control_tag_round_trip(body, i);
        lemma_encode_tag(name, s, t);
    } else if b >= 0x80 {
        let lo = body[i + 1];
        let code = two_byte_code(b, lo);
        assert(code as int == b as int * 256 + lo as int);
        assert(bytes =~= seq![b, lo]);
        if t.code_to_char.contains_key(code) {
            let c = t.code_to_char[code];
            assert(x == seq![c]);
            assert(chars[0] == c);
            assert(raw_code_at(chars, 0) is None);
            assert(char_bytes(t, c) =~= bytes);
            lemma_encode_shift(x, s, t, 0);
        } else {
            assert(x == seq!['|'] + hex2_upper(b) + hex2_upper(lo));
            assert(chars[0] == '|');
            assert(chars.subrange(1, 5) =~= hex2_upper(b) + hex2_upper(lo));
            lemma_hex4_upper(b, lo);
            assert(raw_code_at(chars, 0) == Some(b as int * 256 + lo as int));
            assert(raw_code_bytes(b as int * 256 + lo as int) =~= bytes);
            lemma_encode_shift(x, s, t, 0);
        }
    } else {
        assert(bytes =~= seq![b]);
        if t.single_byte.contains_key(b) {
            let c = t.single_byte[b];
            assert(x == seq![c]);
            assert(chars[0] == c);
            assert(raw_code_at(chars, 0) is None);
            assert(char_bytes(t, c) =~= bytes);
            lemma_encode_shift(x, s, t, 0);
        } else {
            assert(x == seq!['|'] + hex2_upper(0) + hex2_upper(b));
            assert(chars[0] == '|');
            assert(chars.subrange(1, 5) =~= hex2_upper(0) + hex2_upper(b));
            lemma_hex4_upper(0, b);
            assert(raw_code_at(chars, 0) == Some(b as int));
            assert(raw_code_bytes(b as int) =~= bytes);
            lemma_encode_shift(x, s, t, 0);
        }
    }
}

proof fn lemma_encode_displayed(body: Seq<u8>, t: CharTableView, i: int)
    requires
        0 <= i <= body.len(),
        round_trips_from(body, t, i),
    ensures
        encode_from(spec_elements_to_display(decode_from(body, t, i)), t, 0) == body.skip(i),
    decreases body.len() - i,
{
    if i == body.len() {
        assert(decode_from(body, t, i) == Seq::<TextElement>::empty());
        assert(spec_elements_to_display(decode_from(body, t, i)) =~= Seq::<char>::empty());
        assert(encode_from(Seq::<char>::empty(), t, 0) == Seq::<u8>::empty());
        assert(body.skip(i) =~= Seq::<u8>::empty());
    } else {
        lemma_token_fits(body, t, i);
        let w = token_width(body, i);
        let e = token_element(body, t, i);
        let rest = decode_from(body, t, i + w);
        lemma_encode_displayed(body, t, i + w);
        lemma_display_append(seq![e], rest);
        lemma_display_single(e);
        let tail = spec_elements_to_display(rest);
        assert(spec_elements_to_display(decode_from(body, t, i)) =~= element_display(e) + tail);
        lemma_encode_token(body, t, i, tail);
        assert(body.subrange(i, i + w) + body.skip(i + w) =~= body.skip(i));
    }
}

/// Showing a string and encoding the shown text gives back the string's bytes,
/// for a string that ends with the terminator `FF 01` and whose other codes all
/// round-trip: no null byte, no other terminator (also none formed by the last
/// byte before the final one), wait codes ending in 0, and every character that
/// the table shows encoding back to the code it came from.
pub proof fn lemma_display_round_trip(body: Seq<u8>, t: CharTableView)
    requires
        round_trips_from(body, t, 0),
        !ends_with_terminator(body),
    ensures
        spec_encode_display_string(
            spec_elements_to_display(spec_decode_string(body + terminator(), t)),
            t,
        ) == body + terminator(),
{
    lemma_decode_with_terminator(body, t, 0);
    let els = decode_from(body, t, 0);
    let end = seq![TextElement::Control(ControlCode::End)];
    lemma_display_append(els, end);
    lemma_display_single(TextElement::Control(ControlCode::End));
    assert(spec_elements_to_display(els) + spec_elements_to_display(end)
        =~= spec_elements_to_display(els));
    lemma_encode_displayed(body, t, 0);
    assert(body.skip(0) =~= body);
}


/// A control code whose tag encodes back to a code read as itself: not the
/// terminator (which has no tag), and not an unknown code whose number is one
/// of the known codes.
pub open spec fn shows_as_itself(c: ControlCode) -> bool {
    match c {
        ControlCode::End => false,
        ControlCode::Unknown(m) => !(1 <= m <= 8 || m == 0x0E || m == 0x0F),
        _ => true,
    }
}

proof fn lemma_tag_inner(a: Seq<char>, b: Seq<char>)
    requires
        tag(a) == tag(b),
    ensures
        a == b,
{
    assert(tag(a).subrange(1, tag(a).len() - 1) =~= a);
    assert(tag(b).subrange(1, tag(b).len() - 1) =~= b);
}

/// The tag shown for a control code encodes back to that code: decoding the
/// bytes of its name gives the code again.
pub proof fn lemma_control_tag_encodes_back(c: ControlCode, name: Seq<char>, t: CharTableView)
    requires
        shows_as_itself(c),
        control_display(c) == tag(name),
    ensures
        spec_decode_string(spec_encode_control_tag(name), t) == seq![TextElement::Control(c)],
{
    let bytes: Seq<u8> = match c {
        ControlCode::EndDialogue => seq![0xFFu8, 0x02u8],
        ControlCode::Newline => seq![0xFFu8, 0x03u8],
        ControlCode::Clear => seq![0xFFu8, 0x04u8],
        ControlCode::Wait(n) => seq![0xFFu8, 0x05u8, n, 0x00u8],
        ControlCode::Color(n) => seq![0xFFu8, 0x06u8, n],
        ControlCode::FirstName => seq![0xFFu8, 0x07u8],
        ControlCode::Nickname => seq![0xFFu8, 0x08u8],
        ControlCode::Choice(n) => seq![0xFFu8, 0x0Eu8, n],
        ControlCode::LastName => seq![0xFFu8, 0x0Fu8],
        ControlCode::Unknown(n) => seq![0xFFu8, n],
        ControlCode::End => seq![],
    };
    let found = lemma_control_tag_round_trip(bytes, 0);
    lemma_tag_inner(name, found);
    let w = control_at(bytes, 0).1;
    assert(bytes.subrange(0, w) =~= bytes);
    assert(control_at(bytes, 0).0 == c);
    assert(decode_from(bytes, t, w) == Seq::<TextElement>::empty());
    assert(decode_from(bytes, t, 0) =~= seq![TextElement::Control(c)]);
}

} // verus!
