//! Text encoding and decoding for Persona scripts.
//!
//! Original Japanese encoding:
//! - single byte 0x01-0x7F: kana characters (font glyph index);
//! - two bytes 0x80xx: kanji and punctuation (TBL lookup);
//! - 0xFF xx: control codes (newline, clear, wait, ...).
//!
//! For the Russian translation, single bytes 0x01-0x43 are remapped to Cyrillic.
use std::collections::HashMap;
use vstd::prelude::*;
use crate::bytes::append_bytes;
use crate::script::ends_with_terminator;

verus! {

broadcast use vstd::std_specs::hash::group_hash_axioms;

/// FF-prefix control code
#[derive(Debug, Clone, Copy, PartialEq, Eq, Structural)]
pub enum ControlCode {
    /// FF 01 (string terminator)
    End,
    /// FF 02
    EndDialogue,
    /// FF 03
    Newline,
    /// FF 04
    Clear,
    /// FF 05 XX 00
    Wait(u8),
    /// FF 06 XX
    Color(u8),
    /// FF 07
    FirstName,
    /// FF 08
    Nickname,
    /// FF 0E XX
    Choice(u8),
    /// FF 0F
    LastName,
    /// FF XX (anything else)
    Unknown(u8),
}

/// A decoded text element (either a character or control code)
#[derive(Debug, Clone, Copy, PartialEq, Eq, Structural)]
pub enum TextElement {
    /// A displayable character (decoded to Unicode)
    Char(char),
    /// A raw two-byte code that couldn't be decoded
    RawCode(u8, u8),
    /// A control code
    Control(ControlCode),
}

/// Character table mapping byte codes to Unicode characters and back.
///
/// The reverse maps are keyed by the character's code point.
#[derive(Debug, Clone)]
pub struct CharTable {
    /// Map from 2-byte code (big-endian u16) to character
    pub code_to_char: HashMap<u16, char>,
    /// Map from character (code point) to 2-byte code
    pub char_to_code: HashMap<u32, u16>,
    /// Single-byte glyph table (index -> char)
    pub single_byte: HashMap<u8, char>,
    /// Reverse single-byte (char code point -> index)
    pub single_byte_rev: HashMap<u32, u8>,
}

/// The value of a `CharTable`: its four maps.
pub struct CharTableView {
    pub code_to_char: Map<u16, char>,
    pub char_to_code: Map<u32, u16>,
    pub single_byte: Map<u8, char>,
    pub single_byte_rev: Map<u32, u8>,
}

impl View for CharTable {
    type V = CharTableView;

    open spec fn view(&self) -> CharTableView {
        CharTableView {
            code_to_char: self.code_to_char@,
            char_to_code: self.char_to_code@,
            single_byte: self.single_byte@,
            single_byte_rev: self.single_byte_rev@,
        }
    }
}

/// Standard Japanese kana table (single-byte 0x01-0x7F); 0x7F = 。 is the last
/// single-byte kana, 0x80+ are always first bytes of two-byte codes.
pub const KANA: [char; 128] = [
    '\0', 'あ', 'い', 'う', 'え', 'お', 'か', 'き', 'く', 'け', 'こ',
    'さ', 'し', 'す', 'せ', 'そ', 'た', 'ち', 'つ', 'て', 'と',
    'な', 'に', 'ぬ', 'ね', 'の', 'は', 'ひ', 'ふ', 'へ', 'ほ',
    'ま', 'み', 'む', 'め', 'も', 'や', 'ゆ', 'よ', 'ら', 'り',
    'る', 'れ', 'ろ', 'わ', 'を', 'ん',
    'ア', 'イ', 'ウ', 'エ', 'オ', 'カ', 'キ', 'ク', 'ケ', 'コ',
    'サ', 'シ', 'ス', 'セ', 'ソ', 'タ', 'チ', 'ツ', 'テ', 'ト',
    'ナ', 'ニ', 'ヌ', 'ネ', 'ノ', 'ハ', 'ヒ', 'フ', 'ヘ', 'ホ',
    'マ', 'ミ', 'ム', 'メ', 'モ', 'ヤ', 'ユ', 'ヨ', 'ラ', 'リ',
    'ル', 'レ', 'ロ', 'ワ', 'ヲ', 'ン',
    'ガ', 'ギ', 'グ', 'ゲ', 'ゴ', 'ザ', 'ジ', 'ズ', 'ゼ', 'ゾ',
    'ダ', 'ヂ', 'ヅ', 'デ', 'ド', 'バ', 'ビ', 'ブ', 'ベ', 'ボ',
    'パ', 'ピ', 'プ', 'ペ', 'ポ', 'ァ', 'ィ', 'ゥ', 'ェ', 'ォ',
    'ャ', 'ュ', 'ョ', 'ッ', '。',
];

/// Russian Cyrillic single-byte mapping (0x01-0x42); the space follows at 0x43.
pub const CYRILLIC: [char; 66] = [
    'А', 'Б', 'В', 'Г', 'Д', 'Е', 'Ё', 'Ж', 'З', 'И', 'Й',
    'К', 'Л', 'М', 'Н', 'О', 'П', 'Р', 'С', 'Т', 'У', 'Ф',
    'Х', 'Ц', 'Ч', 'Ш', 'Щ', 'Ъ', 'Ы', 'Ь', 'Э', 'Ю', 'Я',
    'а', 'б', 'в', 'г', 'д', 'е', 'ё', 'ж', 'з', 'и', 'й',
    'к', 'л', 'м', 'н', 'о', 'п', 'р', 'с', 'т', 'у', 'ф',
    'х', 'ц', 'ч', 'ш', 'щ', 'ъ', 'ы', 'ь', 'э', 'ю', 'я',
];

// ---------------------------------------------------------------------------
// Character tables
// ---------------------------------------------------------------------------

/// The code point of a character, the key of the reverse maps.
pub open spec fn code_point(c: char) -> u32 {
    c as u32
}

fn code_point_of(c: char) -> (r: u32)
    ensures
        r == code_point(c),
{
    c as u32
}

/// The single-byte codes of the Japanese table: 0x01-0x7F, one kana each.
pub open spec fn kana_single_bytes() -> Map<u8, char> {
    Map::new(|b: u8| 1 <= b < 128, |b: u8| KANA@[b as int])
}

/// The single-byte codes of the Russian table: the Cyrillic letters from 0x01
/// on, then the space.
pub open spec fn cyrillic_single_bytes() -> Map<u8, char> {
    Map::new(
        |b: u8| 1 <= b <= 67,
        |b: u8|
            if b <= 66 {
                CYRILLIC@[b - 1]
            } else {
                ' '
            },
    )
}

/// `rev` is the inverse of `m`: it maps exactly the characters of `m` back to
/// their codes.
pub open spec fn is_inverse(m: Map<u8, char>, rev: Map<u32, u8>) -> bool {
    &&& forall|b: u8| #[trigger] m.contains_key(b) ==> rev.contains_key(code_point(m[b]))
        && rev[code_point(m[b])] == b
    &&& forall|c: u32| #[trigger] rev.contains_key(c) ==> m.contains_key(rev[c]) && code_point(
        m[rev[c]],
    ) == c
}

proof fn lemma_insert_inverse(m: Map<u8, char>, rev: Map<u32, u8>, b: u8, c: char)
    requires
        is_inverse(m, rev),
        !m.contains_key(b),
        !rev.contains_key(code_point(c)),
    ensures
        is_inverse(m.insert(b, c), rev.insert(code_point(c), b)),
{
    let m2 = m.insert(b, c);
    let r2 = rev.insert(code_point(c), b);
    assert forall|x: u8| #[trigger] m2.contains_key(x) implies r2.contains_key(code_point(m2[x]))
        && r2[code_point(m2[x])] == x by {
        if x != b {
            assert(rev.contains_key(code_point(m[x])));
        }
    }
    assert forall|y: u32| #[trigger] r2.contains_key(y) implies m2.contains_key(r2[y]) && code_point(
        m2[r2[y]],
    ) == y by {
        if y != code_point(c) {
            assert(m.contains_key(rev[y]));
        }
    }
}

/// The Japanese single-byte table read against `KANA`: byte b (0x01-0x7F) is
/// the kana at index b, both ways.
proof fn lemma_kana_table(m: Map<u8, char>, rev: Map<u32, u8>)
    requires
        m == kana_single_bytes(),
        is_inverse(m, rev),
    ensures
        forall|b: u8| #[trigger] m.contains_key(b) <==> 0x01 <= b <= 0x7F,
        forall|b: u8| 0x01 <= b <= 0x7F ==> #[trigger] m[b] == KANA@[b as int],
        forall|b: u8|
            0x01 <= b <= 0x7F ==> #[trigger] rev.contains_key(code_point(KANA@[b as int])),
        forall|b: u8|
            0x01 <= b <= 0x7F ==> #[trigger] rev[code_point(KANA@[b as int])] == b,
{
    assert forall|b: u8| 0x01 <= b <= 0x7F implies #[trigger] rev.contains_key(code_point(KANA@[b as int])) by {
        assert(m.contains_key(b));
        assert(m[b] == KANA@[b as int]);
    }
    assert forall|b: u8| 0x01 <= b <= 0x7F implies #[trigger] rev[code_point(KANA@[b as int])] == b by {
        assert(m.contains_key(b));
        assert(m[b] == KANA@[b as int]);
    }
}

/// The Russian single-byte table read against `CYRILLIC`: code b (0x01-0x42)
/// is letter b - 1, 0x43 is the space, both ways.
proof fn lemma_cyrillic_table(m: Map<u8, char>, rev: Map<u32, u8>)
    requires
        m == cyrillic_single_bytes(),
        is_inverse(m, rev),
    ensures
        forall|b: u8| #[trigger] m.contains_key(b) <==> 0x01 <= b <= 0x43,
        forall|b: u8| 0x01 <= b <= 0x42 ==> #[trigger] m[b] == CYRILLIC@[b - 1],
        m[0x43] == ' ',
        forall|b: u8|
            0x01 <= b <= 0x42 ==> #[trigger] rev.contains_key(code_point(CYRILLIC@[b - 1])),
        forall|b: u8|
            0x01 <= b <= 0x42 ==> #[trigger] rev[code_point(CYRILLIC@[b - 1])] == b,
        rev[code_point(' ')] == 0x43,
{
    assert forall|b: u8| 0x01 <= b <= 0x42 implies #[trigger] rev.contains_key(code_point(CYRILLIC@[b - 1])) by {
        assert(m.contains_key(b));
        assert(m[b] == CYRILLIC@[b - 1]);
    }
    assert forall|b: u8| 0x01 <= b <= 0x42 implies #[trigger] rev[code_point(CYRILLIC@[b - 1])] == b by {
        assert(m.contains_key(b));
        assert(m[b] == CYRILLIC@[b - 1]);
    }
    assert(m.contains_key(0x43u8));
}

impl CharTable {
    /// Create a table for original Japanese encoding
    #[verifier::spinoff_prover]
    pub fn japanese() -> (t: Self)
        ensures
            t@.code_to_char == Map::<u16, char>::empty(),
            t@.char_to_code == Map::<u32, u16>::empty(),
            t@.single_byte == kana_single_bytes(),
            is_inverse(t@.single_byte, t@.single_byte_rev),
            // byte b (0x01-0x7F) is the kana at index b of KANA, both ways
            forall|b: u8| #[trigger] t@.single_byte.contains_key(b) <==> 0x01 <= b <= 0x7F,
            forall|b: u8|
                0x01 <= b <= 0x7F ==> #[trigger] t@.single_byte[b] == KANA@[b as int],
            forall|b: u8|
                0x01 <= b <= 0x7F ==> #[trigger] t@.single_byte_rev.contains_key(code_point(KANA@[b as int])),
            forall|b: u8|
                0x01 <= b <= 0x7F ==> #[trigger] t@.single_byte_rev[code_point(KANA@[b as int])] == b,
    {
        let mut single_byte: HashMap<u8, char> = HashMap::new();
        let mut single_byte_rev: HashMap<u32, u8> = HashMap::new();
        assert(forall|i: int, j: int| 1 <= i < j < 128 ==> KANA@[i] != KANA@[j]);
        let mut i: usize = 1;
        while i < KANA.len()
            invariant
                1 <= i <= 128,
                single_byte@ == Map::new(|b: u8| 1 <= b < i, |b: u8| KANA@[b as int]),
                is_inverse(single_byte@, single_byte_rev@),
                forall|i: int, j: int| 1 <= i < j < 128 ==> KANA@[i] != KANA@[j],
            decreases 128 - i,
        {
            let ch = KANA[i];
            proof {
                assert(!single_byte_rev@.contains_key(code_point(ch))) by {
                    if single_byte_rev@.contains_key(code_point(ch)) {
                        let b = single_byte_rev@[code_point(ch)];
                        assert(single_byte@.contains_key(b));
                        assert(code_point(KANA@[b as int]) == code_point(KANA@[i as int]));
                    }
                }
                lemma_insert_inverse(single_byte@, single_byte_rev@, i as u8, ch);
            }
            if ch != '\0' {
                single_byte.insert(i as u8, ch);
                single_byte_rev.insert(code_point_of(ch), i as u8);
            }
            i += 1;
            assert(single_byte@ =~= Map::new(|b: u8| 1 <= b < i, |b: u8| KANA@[b as int]));
        }
        assert(single_byte@ =~= kana_single_bytes());
        let t = CharTable {
            code_to_char: HashMap::new(),
            char_to_code: HashMap::new(),
            single_byte,
            single_byte_rev,
        };
        assert(t@.single_byte_rev == single_byte_rev@ && t@.single_byte == single_byte@);
        proof { lemma_kana_table(t@.single_byte, t@.single_byte_rev); }
        t
    }

    /// Create a table for Russian Cyrillic encoding
    #[verifier::spinoff_prover]
    pub fn russian() -> (t: Self)
        ensures
            t@.code_to_char == Map::<u16, char>::empty(),
            t@.char_to_code == Map::<u32, u16>::empty(),
            t@.single_byte == cyrillic_single_bytes(),
            is_inverse(t@.single_byte, t@.single_byte_rev),
            // code b (0x01-0x42) is letter b - 1 of CYRILLIC, 0x43 the space, both ways
            forall|b: u8| #[trigger] t@.single_byte.contains_key(b) <==> 0x01 <= b <= 0x43,
            forall|b: u8|
                0x01 <= b <= 0x42 ==> #[trigger] t@.single_byte[b] == CYRILLIC@[b - 1],
            t@.single_byte[0x43] == ' ',
            forall|b: u8|
                0x01 <= b <= 0x42 ==> #[trigger] t@.single_byte_rev.contains_key(code_point(CYRILLIC@[b - 1])),
            forall|b: u8|
                0x01 <= b <= 0x42 ==> #[trigger] t@.single_byte_rev[code_point(CYRILLIC@[b - 1])] == b,
            t@.single_byte_rev[code_point(' ')] == 0x43,
    {
        let mut single_byte: HashMap<u8, char> = HashMap::new();
        let mut single_byte_rev: HashMap<u32, u8> = HashMap::new();
        assert(forall|i: int, j: int| 0 <= i < j < 66 ==> CYRILLIC@[i] != CYRILLIC@[j]);
        assert(forall|i: int| 0 <= i < 66 ==> CYRILLIC@[i] != ' ');
        let mut i: usize = 0;
        while i < CYRILLIC.len()
            invariant
                0 <= i <= 66,
                single_byte@ == Map::new(|b: u8| 1 <= b <= i, |b: u8| CYRILLIC@[b - 1]),
                is_inverse(single_byte@, single_byte_rev@),
                forall|i: int, j: int| 0 <= i < j < 66 ==> CYRILLIC@[i] != CYRILLIC@[j],
            decreases 66 - i,
        {
            let ch = CYRILLIC[i];
            let code = (i + 1) as u8;
            proof {
                assert(!single_byte_rev@.contains_key(code_point(ch))) by {
                    if single_byte_rev@.contains_key(code_point(ch)) {
                        let b = single_byte_rev@[code_point(ch)];
                        assert(single_byte@.contains_key(b));
                        assert(code_point(CYRILLIC@[b - 1]) == code_point(CYRILLIC@[i as int]));
                    }
                }
                lemma_insert_inverse(single_byte@, single_byte_rev@, code, ch);
            }
            single_byte.insert(code, ch);
            single_byte_rev.insert(code_point_of(ch), code);
            i += 1;
            assert(single_byte@ =~= Map::new(|b: u8| 1 <= b <= i, |b: u8| CYRILLIC@[b - 1]));
        }
        // Space = 0x43, right after the letters
        let space_code = (CYRILLIC.len() + 1) as u8;
        proof {
            assert(!single_byte_rev@.contains_key(code_point(' '))) by {
                if single_byte_rev@.contains_key(code_point(' ')) {
                    let b = single_byte_rev@[code_point(' ')];
                    assert(single_byte@.contains_key(b));
                    assert(CYRILLIC@[b - 1] != ' ');
                }
            }
            lemma_insert_inverse(single_byte@, single_byte_rev@, space_code, ' ');
        }
        single_byte.insert(space_code, ' ');
        single_byte_rev.insert(code_point_of(' '), space_code);
        assert(single_byte@ =~= cyrillic_single_bytes());
        assert(single_byte@.contains_key(0x43u8));
        let t = CharTable {
            code_to_char: HashMap::new(),
            char_to_code: HashMap::new(),
            single_byte,
            single_byte_rev,
        };
        assert(t@.single_byte_rev == single_byte_rev@ && t@.single_byte == single_byte@);
        proof { lemma_cyrillic_table(t@.single_byte, t@.single_byte_rev); }
        t
    }
}


// ---------------------------------------------------------------------------
// Decoding
// ---------------------------------------------------------------------------

/// The control code whose `FF` byte is at `raw[i]` (with `raw[i + 1]` present),
/// and the number of bytes it takes. A missing parameter byte reads as 0.
pub open spec fn control_at(raw: Seq<u8>, i: int) -> (ControlCode, int) {
    let cmd = raw[i + 1];
    let arg: u8 = if i + 2 < raw.len() {
        raw[i + 2]
    } else {
        0
    };
    if cmd == 0x01 {
        (ControlCode::End, 2)
    } else if cmd == 0x02 {
        (ControlCode::EndDialogue, 2)
    } else if cmd == 0x03 {
        (ControlCode::Newline, 2)
    } else if cmd == 0x04 {
        (ControlCode::Clear, 2)
    } else if cmd == 0x05 {
        (ControlCode::Wait(arg), 4)
    } else if cmd == 0x06 {
        (ControlCode::Color(arg), 3)
    } else if cmd == 0x07 {
        (ControlCode::FirstName, 2)
    } else if cmd == 0x08 {
        (ControlCode::Nickname, 2)
    } else if cmd == 0x0E {
        (ControlCode::Choice(arg), 3)
    } else if cmd == 0x0F {
        (ControlCode::LastName, 2)
    } else {
        (ControlCode::Unknown(cmd), 2)
    }
}

/// The two-byte code `hi lo`, big-endian.
pub open spec fn two_byte_code(hi: u8, lo: u8) -> u16 {
    (hi as int * 256 + lo as int) as u16
}

/// The character for a two-byte code, or the raw code when the table lacks it.
pub open spec fn two_byte_element(t: CharTableView, hi: u8, lo: u8) -> TextElement {
    if t.code_to_char.contains_key(two_byte_code(hi, lo)) {
        TextElement::Char(t.code_to_char[two_byte_code(hi, lo)])
    } else {
        TextElement::RawCode(hi, lo)
    }
}

/// The character for a single-byte code, or the raw code when the table lacks it.
pub open spec fn single_byte_element(t: CharTableView, b: u8) -> TextElement {
    if t.single_byte.contains_key(b) {
        TextElement::Char(t.single_byte[b])
    } else {
        TextElement::RawCode(0, b)
    }
}

/// The elements decoded from byte `i` on. A control code or two-byte code cut
/// short by the end of the data ends the decoding; null bytes are skipped.
pub open spec fn decode_from(raw: Seq<u8>, t: CharTableView, i: int) -> Seq<TextElement>
    decreases raw.len() + 4 - i,
{
    if i < 0 || i >= raw.len() {
        seq![]
    } else {
        let b = raw[i];
        if b == 0xFF {
            if i + 1 >= raw.len() {
                seq![]
            } else {
                let (c, w) = control_at(raw, i);
                seq![TextElement::Control(c)] + decode_from(raw, t, i + w)
            }
        } else if b >= 0x80 {
            if i + 1 >= raw.len() {
                seq![]
            } else {
                seq![two_byte_element(t, b, raw[i + 1])] + decode_from(raw, t, i + 2)
            }
        } else if b >= 0x01 {
            seq![single_byte_element(t, b)] + decode_from(raw, t, i + 1)
        } else {
            decode_from(raw, t, i + 1)
        }
    }
}

/// The elements decoded from raw script bytes.
pub open spec fn spec_decode_string(raw: Seq<u8>, t: CharTableView) -> Seq<TextElement> {
    decode_from(raw, t, 0)
}

/// Decoding only looks forward: what precedes a position does not change
/// what is decoded from it.
proof fn lemma_decode_shift(p: Seq<u8>, q: Seq<u8>, t: CharTableView, j: int)
    requires
        0 <= j,
    ensures
        decode_from(p + q, t, p.len() + j) == decode_from(q, t, j),
    decreases q.len() + 4 - j,
{
    let raw = p + q;
    let i = p.len() + j;
    if j < q.len() {
        assert(raw[i] == q[j]);
        if j + 1 < q.len() {
            assert(raw[i + 1] == q[j + 1]);
        }
        if j + 2 < q.len() {
            assert(raw[i + 2] == q[j + 2]);
        }
        if q[j] == 0xFF && j + 1 < q.len() {
            assert(control_at(raw, i) == control_at(q, j));
            lemma_decode_shift(p, q, t, j + control_at(q, j).1);
        } else if q[j] >= 0x80 && q[j] != 0xFF && j + 1 < q.len() {
            lemma_decode_shift(p, q, t, j + 2);
        } else if q[j] < 0x80 {
            lemma_decode_shift(p, q, t, j + 1);
        }
    }
}

/// The bytes are single-byte codes or null bytes only.
pub open spec fn single_byte_text(a: Seq<u8>) -> bool {
    forall|k: int| 0 <= k < a.len() ==> #[trigger] a[k] < 0x80
}

/// The number of bytes of `a` that are not null.
pub open spec fn count_nonzero(a: Seq<u8>) -> nat
    decreases a.len(),
{
    if a.len() == 0 {
        0
    } else {
        count_nonzero(a.drop_last()) + if a.last() != 0 {
            1nat
        } else {
            0nat
        }
    }
}

proof fn lemma_decode_split_from(a: Seq<u8>, b: Seq<u8>, t: CharTableView, i: int)
    requires
        single_byte_text(a),
        0 <= i <= a.len(),
    ensures
        decode_from(a + b, t, i) == decode_from(a, t, i) + decode_from(b, t, 0),
        decode_from(a, t, i).len() + count_nonzero(a.take(i)) == count_nonzero(a),
    decreases a.len() - i,
{
    if i == a.len() {
        lemma_decode_shift(a, b, t, 0);
        assert(decode_from(a, t, i) =~= Seq::<TextElement>::empty());
        assert(decode_from(a + b, t, i) =~= decode_from(a, t, i) + decode_from(b, t, 0));
        assert(a.take(i) =~= a);
    } else {
        lemma_decode_split_from(a, b, t, i + 1);
        assert((a + b)[i] == a[i]);
        assert(a[i] < 0x80);
        assert(a.take(i + 1).drop_last() =~= a.take(i));
        assert(a.take(i + 1).last() == a[i]);
        assert(decode_from(a + b, t, i) =~= decode_from(a, t, i) + decode_from(b, t, 0));
    }
}

/// Decoding a run of single-byte codes and null bytes followed by more bytes
/// decodes the run, then the rest; the run gives one element per non-null byte.
pub proof fn lemma_decode_split(a: Seq<u8>, b: Seq<u8>, t: CharTableView)
    requires
        single_byte_text(a),
    ensures
        spec_decode_string(a + b, t) == spec_decode_string(a, t) + spec_decode_string(b, t),
        spec_decode_string(a, t).len() == count_nonzero(a),
{
    lemma_decode_split_from(a, b, t, 0);
    assert(a.take(0) =~= Seq::<u8>::empty());
}

/// Decode raw script bytes into text elements
pub fn decode_string(raw: &[u8], table: &CharTable) -> (r: Vec<TextElement>)
    requires
        raw@.len() <= isize::MAX,
    ensures
        r@ == spec_decode_string(raw@, table@),
{
    let ghost t = table@;
    let mut result: Vec<TextElement> = Vec::new();
    let mut i: usize = 0;
    while i < raw.len()
        invariant
            raw@.len() <= isize::MAX,
            t == table@,
            i <= raw@.len() + 3,
            spec_decode_string(raw@, t) == result@ + decode_from(raw@, t, i as int),
        ensures
            spec_decode_string(raw@, t) == result@,
        decreases raw@.len() + 4 - i,
    {
        let ghost before = result@;
        let b = raw[i];
        if b == 0xFF {
            // Control code
            if i + 1 >= raw.len() {
                assert(result@ + seq![] =~= result@);
                break;
            }
            let cmd = raw[i + 1];
            let ghost w = control_at(raw@, i as int).1;
            let ctrl = match cmd {
                0x01 => {
                    i += 2;
                    ControlCode::End
                },
                0x02 => {
                    i += 2;
                    ControlCode::EndDialogue
                },
                0x03 => {
                    i += 2;
                    ControlCode::Newline
                },
                0x04 => {
                    i += 2;
                    ControlCode::Clear
                },
                0x05 => {
                    let val = if i + 2 < raw.len() {
                        raw[i + 2]
                    } else {
                        0
                    };
                    i += 4;  // FF 05 XX 00
                    ControlCode::Wait(val)
                },
                0x06 => {
                    let val = if i + 2 < raw.len() {
                        raw[i + 2]
                    } else {
                        0
                    };
                    i += 3;
                    ControlCode::Color(val)
                },
                0x07 => {
                    i += 2;
                    ControlCode::FirstName
                },
                0x08 => {
                    i += 2;
                    ControlCode::Nickname
                },
                0x0E => {
                    let val = if i + 2 < raw.len() {
                        raw[i + 2]
                    } else {
                        0
                    };
                    i += 3;
                    ControlCode::Choice(val)
                },
                0x0F => {
                    i += 2;
                    ControlCode::LastName
                },
                _ => {
                    i += 2;
                    ControlCode::Unknown(cmd)
                },
            };
            result.push(TextElement::Control(ctrl));
            assert(result@ + decode_from(raw@, t, i as int) =~= before + decode_from(
                raw@,
                t,
                i - w,
            ));
        } else if b >= 0x80 {
            // Two-byte character (kanji, punctuation via TBL)
            if i + 1 >= raw.len() {
                assert(result@ + seq![] =~= result@);
                break;
            }
            let hi = b;
            let lo = raw[i + 1];
            let code = ((hi as u16) << 8) | (lo as u16);
            assert(((hi as u16) << 8) | (lo as u16) == hi as int * 256 + lo as int) by (bit_vector);
            assert(code == two_byte_code(hi, lo));
            if let Some(ch) = table.code_to_char.get(&code) {
                result.push(TextElement::Char(*ch));
            } else {
                result.push(TextElement::RawCode(hi, lo));
            }
            i += 2;
            assert(result@ + decode_from(raw@, t, i as int) =~= before + decode_from(
                raw@,
                t,
                i - 2,
            ));
        } else if b >= 0x01 {
            // Single-byte character (0x01-0x7F kana only)
            if let Some(ch) = table.single_byte.get(&b) {
                result.push(TextElement::Char(*ch));
            } else {
                result.push(TextElement::RawCode(0x00, b));
            }
            i += 1;
            assert(result@ + decode_from(raw@, t, i as int) =~= before + decode_from(
                raw@,
                t,
                i - 1,
            ));
        } else {
            // Null byte - skip
            i += 1;
        }
    }
    result
}


// ---------------------------------------------------------------------------
// Display strings
// ---------------------------------------------------------------------------

/// The decimal digit `d` (0-9).
pub open spec fn digit_char(d: int) -> char {
    (48 + d) as char
}

/// An uppercase hexadecimal digit (0-15).
pub open spec fn hex_digit_upper(d: int) -> char {
    if d < 10 {
        (48 + d) as char
    } else {
        (55 + d) as char
    }
}

/// A lowercase hexadecimal digit (0-15).
pub open spec fn hex_digit_lower(d: int) -> char {
    if d < 10 {
        (48 + d) as char
    } else {
        (87 + d) as char
    }
}

/// `n` in decimal, without leading zeros.
pub open spec fn decimal(n: u8) -> Seq<char> {
    let v = n as int;
    if v >= 100 {
        seq![digit_char(v / 100), digit_char((v / 10) % 10), digit_char(v % 10)]
    } else if v >= 10 {
        seq![digit_char(v / 10), digit_char(v % 10)]
    } else {
        seq![digit_char(v)]
    }
}

/// `b` as two uppercase hexadecimal digits.
pub open spec fn hex2_upper(b: u8) -> Seq<char> {
    seq![hex_digit_upper(b as int / 16), hex_digit_upper(b as int % 16)]
}

/// `b` as two lowercase hexadecimal digits.
pub open spec fn hex2_lower(b: u8) -> Seq<char> {
    seq![hex_digit_lower(b as int / 16), hex_digit_lower(b as int % 16)]
}

/// A control tag: the name in square brackets.
pub open spec fn tag(name: Seq<char>) -> Seq<char> {
    seq!['['] + name + seq![']']
}

pub open spec fn name_end() -> Seq<char> {
    seq!['e', 'n', 'd']
}

pub open spec fn name_nl() -> Seq<char> {
    seq!['n', 'l']
}

pub open spec fn name_clear() -> Seq<char> {
    seq!['c', 'l', 'e', 'a', 'r']
}

pub open spec fn name_wait() -> Seq<char> {
    seq!['w', 'a', 'i', 't', '=']
}

pub open spec fn name_color() -> Seq<char> {
    seq!['c', 'o', 'l', 'o', 'r', '=']
}

pub open spec fn name_firstname() -> Seq<char> {
    seq!['f', 'i', 'r', 's', 't', 'n', 'a', 'm', 'e']
}

pub open spec fn name_nickname() -> Seq<char> {
    seq!['n', 'i', 'c', 'k', 'n', 'a', 'm', 'e']
}

pub open spec fn name_choice() -> Seq<char> {
    seq!['c', 'h', 'o', 'i', 'c', 'e', '=']
}

pub open spec fn name_lastname() -> Seq<char> {
    seq!['l', 'a', 's', 't', 'n', 'a', 'm', 'e']
}

pub open spec fn name_close() -> Seq<char> {
    seq!['c', 'l', 'o', 's', 'e']
}

pub open spec fn name_ff() -> Seq<char> {
    seq!['f', 'f']
}

/// How a control code is shown: a tag, or nothing for the string terminator
/// `FF 01`; the end of dialogue `FF 02` is shown as `[end]`.
pub open spec fn control_display(c: ControlCode) -> Seq<char> {
    match c {
        ControlCode::End => seq![],
        ControlCode::EndDialogue => tag(name_end()),
        ControlCode::Newline => tag(name_nl()),
        ControlCode::Clear => tag(name_clear()),
        ControlCode::Wait(n) => tag(name_wait() + decimal(n)),
        ControlCode::Color(n) => tag(name_color() + decimal(n)),
        ControlCode::FirstName => tag(name_firstname()),
        ControlCode::Nickname => tag(name_nickname()),
        ControlCode::Choice(n) => tag(name_choice() + decimal(n)),
        ControlCode::LastName => tag(name_lastname()),
        ControlCode::Unknown(n) => tag(name_ff() + hex2_lower(n)),
    }
}

/// How a text element is shown: the character itself, `|XXYY` for a raw
/// code, or the control tag.
pub open spec fn element_display(e: TextElement) -> Seq<char> {
    match e {
        TextElement::Char(c) => seq![c],
        TextElement::RawCode(hi, lo) => seq!['|'] + hex2_upper(hi) + hex2_upper(lo),
        TextElement::Control(c) => control_display(c),
    }
}

/// The display string of a sequence of elements: their displays, in order.
pub open spec fn spec_elements_to_display(els: Seq<TextElement>) -> Seq<char>
    decreases els.len(),
{
    if els.len() == 0 {
        seq![]
    } else {
        spec_elements_to_display(els.drop_last()) + element_display(els.last())
    }
}

fn push_all(out: &mut Vec<char>, s: &[char])
    ensures
        final(out)@ == old(out)@ + s@,
{
    let ghost start = out@;
    let mut k: usize = 0;
    while k < s.len()
        invariant
            k <= s@.len(),
            out@ == start + s@.subrange(0, k as int),
        decreases s@.len() - k,
    {
        out.push(s[k]);
        k += 1;
        assert(out@ =~= start + s@.subrange(0, k as int));
    }
    assert(s@.subrange(0, s@.len() as int) =~= s@);
}

fn digit(d: u8) -> (c: char)
    requires
        d < 10,
    ensures
        c == digit_char(d as int),
{
    (48 + d) as char
}

fn hex_digit(d: u8, upper: bool) -> (c: char)
    requires
        d < 16,
    ensures
        c == (if upper {
            hex_digit_upper(d as int)
        } else {
            hex_digit_lower(d as int)
        }),
{
    if d < 10 {
        (48 + d) as char
    } else if upper {
        (55 + d) as char
    } else {
        (87 + d) as char
    }
}

fn push_decimal(out: &mut Vec<char>, n: u8)
    ensures
        final(out)@ == old(out)@ + decimal(n),
{
    if n >= 100 {
        out.push(digit(n / 100));
        out.push(digit((n / 10) % 10));
        out.push(digit(n % 10));
    } else if n >= 10 {
        out.push(digit(n / 10));
        out.push(digit(n % 10));
    } else {
        out.push(digit(n));
    }
    assert(final(out)@ =~= old(out)@ + decimal(n));
}

fn push_hex2(out: &mut Vec<char>, b: u8, upper: bool)
    ensures
        final(out)@ == old(out)@ + (if upper {
            hex2_upper(b)
        } else {
            hex2_lower(b)
        }),
{
    out.push(hex_digit(b / 16, upper));
    out.push(hex_digit(b % 16, upper));
    assert(final(out)@ =~= old(out)@ + (if upper {
        hex2_upper(b)
    } else {
        hex2_lower(b)
    }));
}

fn push_tag(out: &mut Vec<char>, name: &[char])
    ensures
        final(out)@ == old(out)@ + tag(name@),
{
    out.push('[');
    push_all(out, name);
    out.push(']');
    assert(final(out)@ =~= old(out)@ + tag(name@));
}

fn push_tag_with_number(out: &mut Vec<char>, name: &[char], n: u8)
    ensures
        final(out)@ == old(out)@ + tag(name@ + decimal(n)),
{
    out.push('[');
    push_all(out, name);
    push_decimal(out, n);
    out.push(']');
    assert(final(out)@ =~= old(out)@ + tag(name@ + decimal(n)));
}

fn push_control(out: &mut Vec<char>, ctrl: ControlCode)
    ensures
        final(out)@ == old(out)@ + control_display(ctrl),
{
    match ctrl {
        ControlCode::End => {
            assert(old(out)@ + seq![] =~= old(out)@);
        },  // the terminator is not shown
        ControlCode::EndDialogue => {
            push_tag(out, &['e', 'n', 'd']);
            assert(['e', 'n', 'd']@ =~= name_end());
        },
        ControlCode::Newline => {
            push_tag(out, &['n', 'l']);
            assert(['n', 'l']@ =~= name_nl());
        },
        ControlCode::Clear => {
            push_tag(out, &['c', 'l', 'e', 'a', 'r']);
            assert(['c', 'l', 'e', 'a', 'r']@ =~= name_clear());
        },
        ControlCode::Wait(n) => {
            push_tag_with_number(out, &['w', 'a', 'i', 't', '='], n);
            assert(['w', 'a', 'i', 't', '=']@ =~= name_wait());
        },
        ControlCode::Color(n) => {
            push_tag_with_number(out, &['c', 'o', 'l', 'o', 'r', '='], n);
            assert(['c', 'o', 'l', 'o', 'r', '=']@ =~= name_color());
        },
        ControlCode::FirstName => {
            push_tag(out, &['f', 'i', 'r', 's', 't', 'n', 'a', 'm', 'e']);
            assert(['f', 'i', 'r', 's', 't', 'n', 'a', 'm', 'e']@ =~= name_firstname());
        },
        ControlCode::Nickname => {
            push_tag(out, &['n', 'i', 'c', 'k', 'n', 'a', 'm', 'e']);
            assert(['n', 'i', 'c', 'k', 'n', 'a', 'm', 'e']@ =~= name_nickname());
        },
        ControlCode::Choice(n) => {
            push_tag_with_number(out, &['c', 'h', 'o', 'i', 'c', 'e', '='], n);
            assert(['c', 'h', 'o', 'i', 'c', 'e', '=']@ =~= name_choice());
        },
        ControlCode::LastName => {
            push_tag(out, &['l', 'a', 's', 't', 'n', 'a', 'm', 'e']);
            assert(['l', 'a', 's', 't', 'n', 'a', 'm', 'e']@ =~= name_lastname());
        },
        ControlCode::Unknown(n) => {
            out.push('[');
            out.push('f');
            out.push('f');
            push_hex2(out, n, false);
            out.push(']');
            assert(final(out)@ =~= old(out)@ + tag(name_ff() + hex2_lower(n)));
        },
    }
}

/// The characters collected into a `String`.
#[verifier::external_body]
fn string_from_chars(chars: &Vec<char>) -> (s: String)
    ensures
        s@ == chars@,
{
    chars.iter().collect()
}

/// Convert text elements back to a display string (for the editor UI)
pub fn elements_to_display(elements: &[TextElement]) -> (s: String)
    ensures
        s@ == spec_elements_to_display(elements@),
{
    let mut out: Vec<char> = Vec::new();
    let mut k: usize = 0;
    while k < elements.len()
        invariant
            k <= elements@.len(),
            out@ == spec_elements_to_display(elements@.take(k as int)),
        decreases elements@.len() - k,
    {
        let el = elements[k];
        proof {
            assert(elements@.take(k + 1).drop_last() =~= elements@.take(k as int));
        }
        match el {
            TextElement::Char(ch) => out.push(ch),
            TextElement::RawCode(hi, lo) => {
                out.push('|');
                push_hex2(&mut out, hi, true);
                push_hex2(&mut out, lo, true);
            },
            TextElement::Control(ctrl) => push_control(&mut out, ctrl),
        }
        k += 1;
        assert(out@ =~= spec_elements_to_display(elements@.take(k as int)));
    }
    assert(elements@.take(elements@.len() as int) =~= elements@);
    string_from_chars(&out)
}


fn chars_of(s: &str) -> (v: Vec<char>)
    ensures
        v@ == s@,
{
    let mut v: Vec<char> = Vec::new();
    for c in it: s.chars()
        invariant
            v@ == it.seq().take(it.index() as int),
    {
        v.push(c);
    }
    v
}


// ---------------------------------------------------------------------------
// Numbers in display strings
// ---------------------------------------------------------------------------

/// The value of `c` as a digit in `radix` (2-36): 0-9, then the letters of
/// either case from 10 on.
pub open spec fn digit_value(c: char, radix: int) -> Option<int> {
    let v = c as int;
    let d = if 48 <= v <= 57 {
        v - 48
    } else if 97 <= v <= 122 {
        v - 87
    } else if 65 <= v <= 90 {
        v - 55
    } else {
        36
    };
    if d < radix {
        Some(d)
    } else {
        None
    }
}

/// The value of a string of digits (0 for the empty string), or `None` when a
/// character is not a digit.
pub open spec fn digits_value(s: Seq<char>, radix: int) -> Option<int>
    decreases s.len(),
{
    if s.len() == 0 {
        Some(0)
    } else {
        match (digits_value(s.drop_last(), radix), digit_value(s.last(), radix)) {
            (Some(a), Some(d)) => Some(a * radix + d),
            _ => None,
        }
    }
}

/// An unsigned number in `radix`: an optional `+`, then at least one digit,
/// with a value of at most `max`.
pub open spec fn parse_unsigned(s: Seq<char>, radix: int, max: int) -> Option<int> {
    let digits = if s.len() > 0 && s[0] == '+' {
        s.skip(1)
    } else {
        s
    };
    if digits.len() == 0 {
        None
    } else {
        match digits_value(digits, radix) {
            Some(v) => if v <= max {
                Some(v)
            } else {
                None
            },
            None => None,
        }
    }
}

proof fn lemma_digits_value_grows(s: Seq<char>, radix: int, k: int)
    requires
        1 <= radix,
        0 <= k <= s.len(),
    ensures
        digits_value(s.take(k), radix) is None ==> digits_value(s, radix) is None,
        digits_value(s.take(k), radix) matches Some(a) ==> (digits_value(s, radix) matches Some(
            b,
        ) ==> a <= b),
        digits_value(s, radix) matches Some(b) ==> b >= 0,
    decreases s.len() - k,
{
    if k == s.len() {
        assert(s.take(k) =~= s);
        lemma_digits_value_nonneg(s, radix);
    } else {
        lemma_digits_value_grows(s, radix, k + 1);
        assert(s.take(k + 1).drop_last() =~= s.take(k));
        lemma_digits_value_nonneg(s.take(k), radix);
        if let Some(a) = digits_value(s.take(k), radix) {
            if let Some(d) = digit_value(s.take(k + 1).last(), radix) {
                assert(a * radix + d >= a) by (nonlinear_arith)
                    requires
                        a >= 0,
                        radix >= 1,
                        d >= 0,
                ;
            }
        }
    }
}

proof fn lemma_digits_value_nonneg(s: Seq<char>, radix: int)
    requires
        1 <= radix,
    ensures
        digits_value(s, radix) matches Some(b) ==> b >= 0,
    decreases s.len(),
{
    if s.len() > 0 {
        lemma_digits_value_nonneg(s.drop_last(), radix);
        if let Some(a) = digits_value(s.drop_last(), radix) {
            if let Some(d) = digit_value(s.last(), radix) {
                assert(a * radix + d >= 0) by (nonlinear_arith)
                    requires
                        a >= 0,
                        radix >= 1,
                        d >= 0,
                ;
            }
        }
    }
}

fn digit_of(c: char, radix: u32) -> (r: Option<u32>)
    requires
        2 <= radix <= 36,
    ensures
        match digit_value(c, radix as int) {
            Some(d) => r == Some(d as u32),
            None => r is None,
        },
{
    let v = c as u32;
    let d = if 48 <= v && v <= 57 {
        v - 48
    } else if 97 <= v && v <= 122 {
        v - 87
    } else if 65 <= v && v <= 90 {
        v - 55
    } else {
        36
    };
    if d < radix {
        Some(d)
    } else {
        None
    }
}

/// Parse an unsigned number in `radix` with a value of at most `max`.
fn parse_number(s: &[char], radix: u32, max: u32) -> (r: Option<u32>)
    requires
        2 <= radix <= 16,
        max <= 0xFFFF,
    ensures
        match parse_unsigned(s@, radix as int, max as int) {
            Some(v) => r == Some(v as u32),
            None => r is None,
        },
        parse_unsigned(s@, radix as int, max as int) matches Some(v) ==> 0 <= v <= max,
        r matches Some(x) ==> x <= max,
{
    let start: usize = if s.len() > 0 && s[0] == '+' {
        1
    } else {
        0
    };
    let ghost digits = s@.skip(start as int);
    proof {
        lemma_digits_value_nonneg(digits, radix as int);
        if start == 0 {
            assert(digits =~= s@);
        }
    }
    if start >= s.len() {
        return None;
    }
    let mut v: u32 = 0;
    let mut k: usize = start;
    proof {
        assert(digits.take(0) =~= Seq::<char>::empty());
    }
    while k < s.len()
        invariant
            start <= k <= s@.len(),
            start < s@.len(),
            digits == s@.skip(start as int),
            parse_unsigned(s@, radix as int, max as int) == (if digits.len() == 0 {
                None
            } else {
                match digits_value(digits, radix as int) {
                    Some(x) => if x <= max {
                        Some(x)
                    } else {
                        None
                    },
                    None => None,
                }
            }),
            2 <= radix <= 16,
            max <= 0xFFFF,
            v <= max,
            digits_value(digits.take(k - start), radix as int) == Some(v as int),
        decreases s@.len() - k,
    {
        let ghost j = k - start;
        proof {
            assert(digits.take(j + 1).drop_last() =~= digits.take(j));
            assert(digits.take(j + 1).last() == s@[k as int]);
            lemma_digits_value_grows(digits, radix as int, j + 1);
        }
        let d = match digit_of(s[k], radix) {
            Some(d) => d,
            None => {
                assert(digits_value(digits.take(j + 1), radix as int) is None);
                return None;
            },
        };
        assert(v * radix + d <= 0xFFFF * 16 + 15) by (nonlinear_arith)
            requires
                v <= 0xFFFF,
                radix <= 16,
                d < 16,
        ;
        v = v * radix + d;
        k += 1;
        assert(digits_value(digits.take(j + 1), radix as int) == Some(v as int));
        if v > max {
            return None;
        }
    }
    proof {
        assert(digits.take(k - start) =~= digits);
    }
    Some(v)
}

// ---------------------------------------------------------------------------
// Encoding
// ---------------------------------------------------------------------------

/// `s` starts with `p`.
pub open spec fn starts_with(s: Seq<char>, p: Seq<char>) -> bool {
    p.len() <= s.len() && s.take(p.len() as int) == p
}

/// The lowercase form of a string that holds a non-ASCII character, as
/// `str::to_lowercase` computes it.
pub uninterp spec fn lowercase(s: Seq<char>) -> Seq<char>;

/// An ASCII letter in lowercase; other characters unchanged.
pub open spec fn ascii_lower(c: char) -> char {
    if 'A' <= c <= 'Z' {
        ((c as u32) + 32) as char
    } else {
        c
    }
}

/// Every character of `s` is ASCII.
pub open spec fn all_ascii(s: Seq<char>) -> bool {
    forall|k: int| 0 <= k < s.len() ==> (s[k] as u32) < 128
}

/// The lowercase form of a string: letter by letter for ASCII text, Unicode's
/// lowercase mapping otherwise.
pub open spec fn lowercase_of(s: Seq<char>) -> Seq<char> {
    if all_ascii(s) {
        s.map_values(|c: char| ascii_lower(c))
    } else {
        lowercase(s)
    }
}

/// `str::to_lowercase` on the characters of `s`. For ASCII text the result
/// lowercases the letters one by one and keeps everything else; for other
/// text it is Unicode's lowercase mapping of the input, a function of the
/// input alone.
#[verifier::external_body]
fn to_lowercase(s: &[char]) -> (r: Vec<char>)
    ensures
        all_ascii(s@) ==> r@ == s@.map_values(|c: char| ascii_lower(c)),
        !all_ascii(s@) ==> r@ == lowercase(s@),
{
    s.iter().collect::<String>().to_lowercase().chars().collect()
}

/// The value of a `wait=`/`color=`/`choice=` parameter, or `default` when it
/// is not a number from 0 to 255.
pub open spec fn number_or(s: Seq<char>, default: u8) -> u8 {
    match parse_unsigned(s, 10, 255) {
        Some(v) => v as u8,
        None => default,
    }
}

/// The bytes of a control tag whose name has been lowercased.
pub open spec fn control_tag_bytes(lower: Seq<char>) -> Seq<u8> {
    if starts_with(lower, name_wait()) {
        seq![0xFFu8, 0x05u8, number_or(lower.skip(5), 32), 0x00u8]
    } else if starts_with(lower, name_color()) {
        seq![0xFFu8, 0x06u8, number_or(lower.skip(6), 0)]
    } else if starts_with(lower, name_choice()) {
        seq![0xFFu8, 0x0Eu8, number_or(lower.skip(7), 0)]
    } else if lower.len() == 4 && starts_with(lower, name_ff()) && parse_unsigned(
        lower.skip(2),
        16,
        255,
    ) is Some {
        seq![0xFFu8, parse_unsigned(lower.skip(2), 16, 255)->0 as u8]
    } else if lower == name_end() {
        seq![0xFFu8, 0x02u8]
    } else if lower == name_nl() {
        seq![0xFFu8, 0x03u8]
    } else if lower == name_clear() {
        seq![0xFFu8, 0x04u8]
    } else if lower == name_firstname() {
        seq![0xFFu8, 0x07u8]
    } else if lower == name_nickname() {
        seq![0xFFu8, 0x08u8]
    } else if lower == name_lastname() {
        seq![0xFFu8, 0x0Fu8]
    } else if lower == name_close() {
        seq![0xFFu8, 0x01u8]
    } else {
        seq![]
    }
}

/// The bytes of the control tag `tag` (the text between the brackets); an
/// unknown tag gives no bytes.
pub open spec fn spec_encode_control_tag(tag: Seq<char>) -> Seq<u8> {
    control_tag_bytes(lowercase_of(tag))
}

fn starts_with_chars(s: &[char], p: &[char]) -> (b: bool)
    ensures
        b == starts_with(s@, p@),
{
    if p.len() > s.len() {
        return false;
    }
    let mut k: usize = 0;
    while k < p.len()
        invariant
            p@.len() <= s@.len(),
            k <= p@.len(),
            forall|j: int| 0 <= j < k ==> s@[j] == p@[j],
        decreases p@.len() - k,
    {
        if s[k] != p[k] {
            assert(s@.take(p@.len() as int)[k as int] != p@[k as int]);
            return false;
        }
        k += 1;
    }
    assert(s@.take(p@.len() as int) =~= p@);
    true
}

fn equals_chars(s: &[char], p: &[char]) -> (b: bool)
    ensures
        b == (s@ == p@),
{
    if s.len() != p.len() {
        return false;
    }
    let r = starts_with_chars(s, p);
    proof {
        if r {
            assert(s@.take(p@.len() as int) =~= s@);
        } else if s@ == p@ {
            assert(s@.take(p@.len() as int) =~= s@);
        }
    }
    r
}

/// The number after a `name=` prefix, or `default`.
fn number_after(lower: &Vec<char>, skip: usize, default: u8) -> (v: u8)
    requires
        skip <= lower@.len(),
    ensures
        v == number_or(lower@.skip(skip as int), default),
{
    let rest = &lower.as_slice()[skip..lower.len()];
    assert(rest@ =~= lower@.skip(skip as int));
    match parse_number(rest, 10, 255) {
        Some(v) => v as u8,
        None => default,
    }
}

/// Encode a single control tag like "nl", "clear", "wait=32", "choice=16"
fn encode_control_tag(tag: &[char]) -> (out: Vec<u8>)
    ensures
        out@ == spec_encode_control_tag(tag@),
{
    let lower = to_lowercase(tag);

    // Check for tags with values: "wait=X", "color=X", "choice=X"
    if starts_with_chars(lower.as_slice(), &['w', 'a', 'i', 't', '=']) {
        assert(['w', 'a', 'i', 't', '=']@ =~= name_wait());
        let val = number_after(&lower, 5, 32);
        let out = vec![0xFFu8, 0x05u8, val, 0x00u8];
        assert(out@ =~= spec_encode_control_tag(tag@));
        return out;
    }
    assert(['w', 'a', 'i', 't', '=']@ =~= name_wait());
    if starts_with_chars(lower.as_slice(), &['c', 'o', 'l', 'o', 'r', '=']) {
        assert(['c', 'o', 'l', 'o', 'r', '=']@ =~= name_color());
        let val = number_after(&lower, 6, 0);
        let out = vec![0xFFu8, 0x06u8, val];
        assert(out@ =~= spec_encode_control_tag(tag@));
        return out;
    }
    assert(['c', 'o', 'l', 'o', 'r', '=']@ =~= name_color());
    if starts_with_chars(lower.as_slice(), &['c', 'h', 'o', 'i', 'c', 'e', '=']) {
        assert(['c', 'h', 'o', 'i', 'c', 'e', '=']@ =~= name_choice());
        let val = number_after(&lower, 7, 0);
        let out = vec![0xFFu8, 0x0Eu8, val];
        assert(out@ =~= spec_encode_control_tag(tag@));
        return out;
    }
    assert(['c', 'h', 'o', 'i', 'c', 'e', '=']@ =~= name_choice());

    // Check for ff## pattern (raw FF code)
    assert(['f', 'f']@ =~= name_ff());
    if lower.len() == 4 && starts_with_chars(lower.as_slice(), &['f', 'f']) {
        let rest = &lower.as_slice()[2..4];
        assert(rest@ =~= lower@.skip(2));
        if let Some(val) = parse_number(rest, 16, 255) {
            let out = vec![0xFFu8, val as u8];
            assert(out@ =~= spec_encode_control_tag(tag@));
            return out;
        }
    }

    let out = if equals_chars(lower.as_slice(), &['e', 'n', 'd']) {
        vec![0xFFu8, 0x02u8]
    } else if equals_chars(lower.as_slice(), &['n', 'l']) {
        vec![0xFFu8, 0x03u8]
    } else if equals_chars(lower.as_slice(), &['c', 'l', 'e', 'a', 'r']) {
        vec![0xFFu8, 0x04u8]
    } else if equals_chars(lower.as_slice(), &['f', 'i', 'r', 's', 't', 'n', 'a', 'm', 'e']) {
        vec![0xFFu8, 0x07u8]
    } else if equals_chars(lower.as_slice(), &['n', 'i', 'c', 'k', 'n', 'a', 'm', 'e']) {
        vec![0xFFu8, 0x08u8]
    } else if equals_chars(lower.as_slice(), &['l', 'a', 's', 't', 'n', 'a', 'm', 'e']) {
        vec![0xFFu8, 0x0Fu8]
    } else if equals_chars(lower.as_slice(), &['c', 'l', 'o', 's', 'e']) {
        vec![0xFFu8, 0x01u8]  // close = terminator
    } else {
        vec![]
    };
    proof {
        assert(['e', 'n', 'd']@ =~= name_end());
        assert(['n', 'l']@ =~= name_nl());
        assert(['c', 'l', 'e', 'a', 'r']@ =~= name_clear());
        assert(['f', 'i', 'r', 's', 't', 'n', 'a', 'm', 'e']@ =~= name_firstname());
        assert(['n', 'i', 'c', 'k', 'n', 'a', 'm', 'e']@ =~= name_nickname());
        assert(['l', 'a', 's', 't', 'n', 'a', 'm', 'e']@ =~= name_lastname());
        assert(['c', 'l', 'o', 's', 'e']@ =~= name_close());
        assert(out@ =~= spec_encode_control_tag(tag@));
    }
    out
}


/// The first position at or after `i` that holds `c`.
pub open spec fn find_char(chars: Seq<char>, c: char, i: int) -> Option<int>
    decreases chars.len() - i,
{
    if i < 0 || i >= chars.len() {
        None
    } else if chars[i] == c {
        Some(i)
    } else {
        find_char(chars, c, i + 1)
    }
}

/// Facts about the first occurrence of a character.
pub proof fn lemma_find_char(chars: Seq<char>, c: char, i: int)
    requires
        0 <= i,
    ensures
        find_char(chars, c, i) matches Some(k) ==> i <= k < chars.len() && chars[k] == c,
        find_char(chars, c, i) matches Some(k) ==> forall|j: int| i <= j < k ==> chars[j] != c,
        find_char(chars, c, i) is None ==> forall|j: int| i <= j < chars.len() ==> chars[j] != c,
    decreases chars.len() - i,
{
    if 0 <= i < chars.len() && chars[i] != c {
        lemma_find_char(chars, c, i + 1);
    }
}

/// The bytes of a character: its single-byte code if it has one, else its
/// two-byte code (high byte first), else nothing.
pub open spec fn char_bytes(t: CharTableView, c: char) -> Seq<u8> {
    if t.single_byte_rev.contains_key(code_point(c)) {
        seq![t.single_byte_rev[code_point(c)]]
    } else if t.char_to_code.contains_key(code_point(c)) {
        let code = t.char_to_code[code_point(c)];
        seq![(code / 256) as u8, (code % 256) as u8]
    } else {
        seq![]
    }
}

/// The bytes of a raw code `|XXYY`: one byte when it is at most 0xFF, else two.
pub open spec fn raw_code_bytes(v: int) -> Seq<u8> {
    if v <= 0xFF {
        seq![v as u8]
    } else {
        seq![(v / 256) as u8, (v % 256) as u8]
    }
}

/// The four characters after a `|` at `i` form a raw code.
pub open spec fn raw_code_at(chars: Seq<char>, i: int) -> Option<int> {
    if chars[i] == '|' && i + 4 < chars.len() {
        parse_unsigned(chars.subrange(i + 1, i + 5), 16, 0xFFFF)
    } else {
        None
    }
}

/// The bytes encoded from position `i` of a display string on: a `[` with a
/// later `]` is a control tag, a `|` followed by four hex digits (and more
/// text) is a raw code, anything else a character.
pub open spec fn encode_from(chars: Seq<char>, t: CharTableView, i: int) -> Seq<u8>
    decreases chars.len() - i,
{
    if i < 0 || i >= chars.len() {
        seq![]
    } else if chars[i] == '[' && find_char(chars, ']', i) is Some {
        let k = find_char(chars, ']', i)->0;
        proof {
            lemma_find_char(chars, ']', i);
        }
        spec_encode_control_tag(chars.subrange(i + 1, k)) + encode_from(chars, t, k + 1)
    } else if raw_code_at(chars, i) is Some {
        raw_code_bytes(raw_code_at(chars, i)->0) + encode_from(chars, t, i + 5)
    } else {
        char_bytes(t, chars[i]) + encode_from(chars, t, i + 1)
    }
}

/// The raw script bytes encoded from a display string, ending with `FF 01`.
pub open spec fn spec_encode_display_string(text: Seq<char>, t: CharTableView) -> Seq<u8> {
    let b = encode_from(text, t, 0);
    if ends_with_terminator(b) {
        b
    } else {
        b + seq![0xFFu8, 0x01u8]
    }
}

/// Encode a display string (with [nl], [clear], etc.) back to raw script bytes.
/// It undoes decode_string + elements_to_display for strings that end with the
/// terminator `FF 01` and whose codes the table shows faithfully (see
/// `round_trip::lemma_display_round_trip`).
pub fn encode_display_string(text: &str, table: &CharTable) -> (out: Vec<u8>)
    requires
        text@.len() <= isize::MAX,
    ensures
        out@ == spec_encode_display_string(text@, table@),
{
    let ghost t = table@;
    let mut out: Vec<u8> = Vec::new();
    let chars = chars_of(text);
    let mut i: usize = 0;

    while i < chars.len()
        invariant
            t == table@,
            chars@ == text@,
            chars@.len() + 5 <= usize::MAX,
            i <= chars@.len(),
            encode_from(chars@, t, 0) == out@ + encode_from(chars@, t, i as int),
        decreases chars@.len() - i,
    {
        let ghost before = out@;
        let ghost start = i;
        let ch = chars[i];

        if ch == '[' {
            // Parse control code tag
            let mut k = i;
            while k < chars.len() && chars[k] != ']'
                invariant
                    i <= k <= chars@.len(),
                    forall|j: int| i <= j < k ==> chars@[j] != ']',
                decreases chars@.len() - k,
            {
                k += 1;
            }
            proof {
                lemma_find_char(chars@, ']', i as int);
                if k < chars@.len() {
                    assert(find_char(chars@, ']', i as int) == Some(k as int));
                } else {
                    assert(find_char(chars@, ']', i as int) is None);
                }
            }
            if k < chars.len() {
                let encoded = encode_control_tag(&chars.as_slice()[i + 1..k]);
                append_bytes(&mut out, encoded.as_slice());
                i = k + 1;
                assert(out@ + encode_from(chars@, t, i as int) =~= before + encode_from(
                    chars@,
                    t,
                    start as int,
                ));
                continue;
            }
        }
        if ch == '|' && i + 4 < chars.len() {
            // Raw hex code |XXYY
            let hex = &chars.as_slice()[i + 1..i + 5];
            if let Some(val) = parse_number(hex, 16, 0xFFFF) {
                assert(hex@ =~= chars@.subrange(i + 1, i + 5));
                assert((val >> 8) as u8 == val / 256) by (bit_vector)
                    requires
                        val <= 0xFFFF,
                ;
                assert((val & 0xFF) as u8 == val % 256) by (bit_vector);
                if val <= 0xFF {
                    out.push(val as u8);
                } else {
                    out.push((val >> 8) as u8);
                    out.push((val & 0xFF) as u8);
                }
                i += 5;
                assert(out@ + encode_from(chars@, t, i as int) =~= before + encode_from(
                    chars@,
                    t,
                    start as int,
                ));
                continue;
            }
        }

        // Try single-byte encoding first
        let cp = code_point_of(ch);
        if let Some(code) = table.single_byte_rev.get(&cp) {
            out.push(*code);
        } else if let Some(code) = table.char_to_code.get(&cp) {
            // Two-byte encoding
            out.push((*code >> 8) as u8);
            out.push((*code & 0xFF) as u8);
        }
        // Unknown character - skipped

        i += 1;
        proof {
            if table@.char_to_code.contains_key(cp) {
                let code = table@.char_to_code[cp];
                assert((code >> 8) as u8 == code / 256) by (bit_vector);
                assert((code & 0xFF) as u8 == code % 256) by (bit_vector);
            }
            assert(out@ + encode_from(chars@, t, i as int) =~= before + encode_from(
                chars@,
                t,
                start as int,
            ));
        }
    }

    // Ensure string ends with FF 01
    assert(out@ + seq![] =~= out@);
    let n = out.len();
    if !(n >= 2 && out[n - 2] == 0xFF && out[n - 1] == 0x01) {
        out.push(0xFF);
        out.push(0x01);
    }
    assert(out@ =~= spec_encode_display_string(text@, t));
    out
}


// ---------------------------------------------------------------------------
// TBL files
// ---------------------------------------------------------------------------

/// Unicode's White_Space property, which `char::is_whitespace` tests: tab to
/// carriage return, space, next line, no-break space, ogham space mark, the
/// spaces from en quad to hair space, line and paragraph separators, narrow
/// no-break space, medium mathematical space and the ideographic space.
pub open spec fn white_space(c: char) -> bool {
    let v = code_point(c);
    ||| 0x09 <= v <= 0x0D
    ||| v == 0x20
    ||| v == 0x85
    ||| v == 0xA0
    ||| v == 0x1680
    ||| 0x2000 <= v <= 0x200A
    ||| v == 0x2028
    ||| v == 0x2029
    ||| v == 0x202F
    ||| v == 0x205F
    ||| v == 0x3000
}

/// Whether `c` is white space.
fn is_white_space(c: char) -> (b: bool)
    ensures
        b == white_space(c),
{
    let v = code_point_of(c);
    (0x09 <= v && v <= 0x0D) || v == 0x20 || v == 0x85 || v == 0xA0 || v == 0x1680 || (0x2000
        <= v && v <= 0x200A) || v == 0x2028 || v == 0x2029 || v == 0x202F || v == 0x205F || v
        == 0x3000
}

/// `s` without its leading white space.
pub open spec fn trim_start(s: Seq<char>) -> Seq<char>
    decreases s.len(),
{
    if s.len() > 0 && white_space(s[0]) {
        trim_start(s.drop_first())
    } else {
        s
    }
}

/// `s` without its trailing white space.
pub open spec fn trim_end(s: Seq<char>) -> Seq<char>
    decreases s.len(),
{
    if s.len() > 0 && white_space(s.last()) {
        trim_end(s.drop_last())
    } else {
        s
    }
}

/// `s` without leading and trailing white space, as `str::trim` gives it.
pub open spec fn trim(s: Seq<char>) -> Seq<char> {
    trim_end(trim_start(s))
}

/// The bounds of `s` without leading and trailing white space.
fn trim_bounds(s: &[char]) -> (r: (usize, usize))
    ensures
        r.0 <= r.1 <= s@.len(),
        s@.subrange(r.0 as int, r.1 as int) == trim(s@),
{
    let mut a: usize = 0;
    assert(s@.skip(0) =~= s@);
    while a < s.len() && is_white_space(s[a])
        invariant
            a <= s@.len(),
            trim_start(s@) == trim_start(s@.skip(a as int)),
        decreases s@.len() - a,
    {
        assert(s@.skip(a as int).drop_first() =~= s@.skip(a + 1));
        a += 1;
    }
    assert(trim_start(s@.skip(a as int)) == s@.skip(a as int));
    let ghost rest = s@.skip(a as int);
    let mut b: usize = s.len();
    assert(rest.take(b - a) =~= rest);
    while b > a && is_white_space(s[b - 1])
        invariant
            a <= b <= s@.len(),
            rest == s@.skip(a as int),
            trim_end(rest) == trim_end(rest.take(b - a)),
        decreases b,
    {
        assert(rest.take(b - a).drop_last() =~= rest.take(b - a - 1));
        assert(rest.take(b - a).last() == s@[b - 1]);
        b -= 1;
    }
    assert(trim_end(rest.take(b - a)) == rest.take(b - a));
    assert(rest.take(b - a) =~= s@.subrange(a as int, b as int));
    (a, b)
}

/// A line without the `\r` of a `\r\n` line ending.
pub open spec fn line_body(line: Seq<char>) -> Seq<char> {
    if line.len() > 0 && line.last() == '\r' {
        line.drop_last()
    } else {
        line
    }
}

/// The mapping on one TBL line `XXXX=c`: the hex code (white space around it
/// allowed) and the character right after `=`, which may itself be white space
/// such as the ideographic space; `None` when the line has no `=`, no valid
/// code, or nothing after the `=` but the line ending.
pub open spec fn tbl_line_entry(line: Seq<char>) -> Option<(u16, char)> {
    let l = line_body(line);
    match find_char(l, '=', 0) {
        Some(k) => match parse_unsigned(trim(l.take(k)), 16, 0xFFFF) {
            Some(code) => if k + 1 < l.len() {
                Some((code as u16, l[k + 1]))
            } else {
                None
            },
            None => None,
        },
        None => None,
    }
}

/// The lines of a text: split at each `\n` (a `\r` before it is part of the
/// line ending, see `line_body`).
pub open spec fn split_lines(s: Seq<char>) -> Seq<Seq<char>>
    decreases s.len(),
{
    if s.len() == 0 {
        seq![seq![]]
    } else {
        let l = split_lines(s.drop_last());
        if s.last() == '\n' {
            l.push(seq![])
        } else {
            l.update(l.len() - 1, l.last().push(s.last()))
        }
    }
}

/// The table with one TBL mapping added: the code now shows the character,
/// and the character encodes to this code unless it already had one.
pub open spec fn add_tbl_entry(t: CharTableView, e: Option<(u16, char)>) -> CharTableView {
    match e {
        Some((code, ch)) => CharTableView {
            code_to_char: t.code_to_char.insert(code, ch),
            char_to_code: if t.char_to_code.contains_key(code_point(ch)) {
                t.char_to_code
            } else {
                t.char_to_code.insert(code_point(ch), code)
            },
            single_byte: t.single_byte,
            single_byte_rev: t.single_byte_rev,
        },
        None => t,
    }
}

/// The table with the mappings of the given lines added, in order.
pub open spec fn add_tbl_lines(t: CharTableView, lines: Seq<Seq<char>>) -> CharTableView
    decreases lines.len(),
{
    if lines.len() == 0 {
        t
    } else {
        add_tbl_entry(add_tbl_lines(t, lines.drop_last()), tbl_line_entry(lines.last()))
    }
}

/// The table after loading the TBL text `content`.
pub open spec fn spec_load_tbl(t: CharTableView, content: Seq<char>) -> CharTableView {
    add_tbl_lines(t, split_lines(content))
}

proof fn lemma_split_lines_nonempty(s: Seq<char>)
    ensures
        split_lines(s).len() >= 1,
    decreases s.len(),
{
    if s.len() > 0 {
        lemma_split_lines_nonempty(s.drop_last());
    }
}

impl CharTable {
    /// Add the mapping of one TBL line.
    fn load_tbl_line(&mut self, line: &[char])
        ensures
            final(self)@ == add_tbl_entry(old(self)@, tbl_line_entry(line@)),
    {
        let end = if line.len() > 0 && line[line.len() - 1] == '\r' {
            line.len() - 1
        } else {
            line.len()
        };
        let l = &line[0..end];
        assert(l@ =~= line_body(line@));
        let mut k: usize = 0;
        while k < l.len() && l[k] != '='
            invariant
                k <= l@.len(),
                forall|j: int| 0 <= j < k ==> l@[j] != '=',
            decreases l@.len() - k,
        {
            k += 1;
        }
        proof {
            lemma_find_char(l@, '=', 0);
        }
        if k >= l.len() {
            return;
        }
        assert(find_char(l@, '=', 0) == Some(k as int));
        let hex = &l[0..k];
        let (ha, hb) = trim_bounds(hex);
        assert(hex@ =~= l@.take(k as int));
        let code = match parse_number(&hex[ha..hb], 16, 0xFFFF) {
            Some(code) => code as u16,
            None => {
                return;
            },
        };
        if k + 1 < l.len() {
            let ch = l[k + 1];
            self.code_to_char.insert(code, ch);
            let cp = code_point_of(ch);
            if !self.char_to_code.contains_key(&cp) {
                self.char_to_code.insert(cp, code);
            }
        }
    }

    /// Load a TBL file to populate two-byte mappings
    pub fn load_tbl(&mut self, tbl_content: &str)
        ensures
            final(self)@ == spec_load_tbl(old(self)@, tbl_content@),
    {
        let ghost t0 = self@;
        let chars = chars_of(tbl_content);
        let mut line: Vec<char> = Vec::new();
        let mut k: usize = 0;
        proof {
            assert(chars@.take(0) =~= Seq::<char>::empty());
            assert(split_lines(chars@.take(0)).drop_last() =~= Seq::<Seq<char>>::empty());
        }
        while k < chars.len()
            invariant
                chars@ == tbl_content@,
                k <= chars@.len(),
                self@ == add_tbl_lines(t0, split_lines(chars@.take(k as int)).drop_last()),
                line@ == split_lines(chars@.take(k as int)).last(),
            decreases chars@.len() - k,
        {
            let ghost p = chars@.take(k as int);
            let ghost q = chars@.take(k + 1);
            proof {
                assert(q.drop_last() =~= p);
                assert(q.last() == chars@[k as int]);
                lemma_split_lines_nonempty(p);
            }
            if chars[k] == '\n' {
                self.load_tbl_line(line.as_slice());
                line = Vec::new();
                proof {
                    assert(split_lines(q) == split_lines(p).push(seq![]));
                    assert(split_lines(q).drop_last() =~= split_lines(p));
                    assert(split_lines(p) =~= split_lines(p).drop_last().push(split_lines(p).last()));
                }
            } else {
                line.push(chars[k]);
                proof {
                    let l = split_lines(p);
                    assert(split_lines(q) == l.update(l.len() - 1, l.last().push(chars@[k as int])));
                    assert(split_lines(q).drop_last() =~= l.drop_last());
                }
            }
            k += 1;
        }
        self.load_tbl_line(line.as_slice());
        proof {
            assert(chars@.take(k as int) =~= chars@);
            let l = split_lines(chars@);
            lemma_split_lines_nonempty(chars@);
            assert(l =~= l.drop_last().push(l.last()));
        }
    }
}

} // verus!
