use persona_script_editor::encoding::{
    decode_string, elements_to_display, encode_display_string, CharTable, ControlCode,
    TextElement,
};

fn table_with_tbl() -> CharTable {
    let mut t = CharTable::japanese();
    t.load_tbl("80A5=。\n80CB=：\r\n  80D0 = ？\n80D1=！\nnot a line\n80ZZ=x\n80D5=");
    t
}

#[test]
fn japanese_table_maps_kana_both_ways() {
    let t = CharTable::japanese();
    assert_eq!(t.single_byte.len(), 127);
    assert_eq!(t.single_byte[&0x01], 'あ');
    assert_eq!(t.single_byte[&0x2F], 'ア');
    assert_eq!(t.single_byte[&0x7F], '。');
    assert_eq!(t.single_byte_rev[&('あ' as u32)], 0x01);
    assert_eq!(t.single_byte_rev[&('。' as u32)], 0x7F);
    assert!(t.code_to_char.is_empty());
    assert!(t.char_to_code.is_empty());
}

#[test]
fn russian_table_maps_cyrillic_and_space() {
    let t = CharTable::russian();
    assert_eq!(t.single_byte.len(), 67);
    assert_eq!(t.single_byte[&0x01], 'А');
    assert_eq!(t.single_byte[&0x07], 'Ё');
    assert_eq!(t.single_byte[&0x42], 'я');
    assert_eq!(t.single_byte[&0x43], ' ');
    assert_eq!(t.single_byte_rev[&(' ' as u32)], 0x43);
    assert_eq!(t.single_byte_rev[&('я' as u32)], 0x42);
}

#[test]
fn load_tbl_reads_code_lines() {
    let t = table_with_tbl();
    assert_eq!(t.code_to_char.len(), 4);
    assert_eq!(t.code_to_char[&0x80A5], '。');
    assert_eq!(t.code_to_char[&0x80CB], '：');
    // white space around the code is trimmed, but not before the character
    assert_eq!(t.code_to_char[&0x80D0], ' ');
    assert_eq!(t.code_to_char[&0x80D1], '！');
    assert_eq!(t.char_to_code[&('！' as u32)], 0x80D1);
}

#[test]
fn load_tbl_keeps_first_code_of_a_character() {
    let mut t = CharTable::japanese();
    t.load_tbl("80A0=x\n80A1=x\n80A0=y");
    assert_eq!(t.code_to_char[&0x80A0], 'y');
    assert_eq!(t.code_to_char[&0x80A1], 'x');
    assert_eq!(t.char_to_code[&('x' as u32)], 0x80A0);
    assert_eq!(t.char_to_code[&('y' as u32)], 0x80A0);
}

#[test]
fn load_tbl_keeps_a_white_space_character() {
    // the ideographic space after `=` is the mapped character; white space
    // around the code, and the line ending, are trimmed
    let mut t = CharTable::japanese();
    t.load_tbl("80CC=\u{3000}\r\n+80cd=z\n\u{3000}80CE\t=b\n80CF=\r\n");
    assert_eq!(t.code_to_char[&0x80CC], '\u{3000}');
    assert_eq!(t.char_to_code[&('\u{3000}' as u32)], 0x80CC);
    assert_eq!(t.code_to_char[&0x80CD], 'z');
    assert_eq!(t.code_to_char[&0x80CE], 'b');
    assert!(!t.code_to_char.contains_key(&0x80CF));
    assert_eq!(t.code_to_char.len(), 3);
}

#[test]
fn decode_reads_characters_codes_and_controls() {
    let t = table_with_tbl();
    let raw = [
        0x01, 0x80, 0xA5, 0x80, 0x99, 0xFF, 0x03, 0xFF, 0x05, 0x20, 0x00, 0xFF, 0x06, 0x02,
        0xFF, 0x0E, 0x10, 0xFF, 0x09, 0x00, 0xFF, 0x02, 0xFF, 0x01,
    ];
    let els = decode_string(&raw, &t);
    assert_eq!(
        els,
        vec![
            TextElement::Char('あ'),
            TextElement::Char('。'),
            TextElement::RawCode(0x80, 0x99),
            TextElement::Control(ControlCode::Newline),
            TextElement::Control(ControlCode::Wait(0x20)),
            TextElement::Control(ControlCode::Color(2)),
            TextElement::Control(ControlCode::Choice(16)),
            TextElement::Control(ControlCode::Unknown(9)),
            TextElement::Control(ControlCode::EndDialogue),
            TextElement::Control(ControlCode::End),
        ]
    );
}

#[test]
fn decode_stops_at_cut_codes() {
    let t = CharTable::japanese();
    assert_eq!(decode_string(&[0x01, 0xFF], &t), vec![TextElement::Char('あ')]);
    assert_eq!(decode_string(&[0x80], &t), vec![]);
    assert_eq!(
        decode_string(&[0xFF, 0x05, 0x07], &t),
        vec![TextElement::Control(ControlCode::Wait(7))]
    );
    assert_eq!(
        decode_string(&[0xFF, 0x06], &t),
        vec![TextElement::Control(ControlCode::Color(0))]
    );
    // unmapped single byte
    let r = CharTable::russian();
    assert_eq!(decode_string(&[0x50], &r), vec![TextElement::RawCode(0, 0x50)]);
}

#[test]
fn display_shows_tags_and_raw_codes() {
    let els = vec![
        TextElement::Char('あ'),
        TextElement::RawCode(0x80, 0xAB),
        TextElement::RawCode(0x00, 0x5F),
        TextElement::Control(ControlCode::Newline),
        TextElement::Control(ControlCode::Clear),
        TextElement::Control(ControlCode::Wait(255)),
        TextElement::Control(ControlCode::Color(7)),
        TextElement::Control(ControlCode::Choice(42)),
        TextElement::Control(ControlCode::FirstName),
        TextElement::Control(ControlCode::Nickname),
        TextElement::Control(ControlCode::LastName),
        TextElement::Control(ControlCode::Unknown(0x0A)),
        TextElement::Control(ControlCode::EndDialogue),
        TextElement::Control(ControlCode::End),
    ];
    assert_eq!(
        elements_to_display(&els),
        "あ|80AB|005F[nl][clear][wait=255][color=7][choice=42][firstname][nickname][lastname][ff0a][end]"
    );
    assert_eq!(elements_to_display(&[]), "");
    // FF 02 ends the dialogue and shows as [end]; the terminator FF 01 is not shown
    assert_eq!(
        elements_to_display(&[TextElement::Control(ControlCode::EndDialogue)]),
        "[end]"
    );
    assert_eq!(elements_to_display(&[TextElement::Control(ControlCode::End)]), "");
}

#[test]
fn encode_reads_tags_codes_and_characters() {
    let t = table_with_tbl();
    // 。 has a single-byte code, which wins over its two-byte code
    let out = encode_display_string("あ。：[NL][wait=5][Color=3][choice=+16][ff0A][close]", &t);
    assert_eq!(
        out,
        vec![
            0x01, 0x7F, 0x80, 0xCB, 0xFF, 0x03, 0xFF, 0x05, 5, 0x00, 0xFF, 0x06, 3, 0xFF, 0x0E, 16,
            0xFF, 0x0A, 0xFF, 0x01
        ]
    );
}

#[test]
fn encode_defaults_and_unknowns() {
    let t = table_with_tbl();
    // bad numbers fall back to their defaults; unknown tags and characters vanish
    assert_eq!(
        encode_display_string("[wait=x][color=300][bogus]Zあ", &t),
        vec![0xFF, 0x05, 32, 0x00, 0xFF, 0x06, 0, 0x01, 0xFF, 0x01]
    );
    // raw codes; a `|` without four more characters is not a code
    assert_eq!(
        encode_display_string("|80AB|005Fx|1234", &t),
        vec![0x80, 0xAB, 0x5F, 0x12, 0x34, 0xFF, 0x01]
    );
    assert_eq!(encode_display_string("|12", &t), vec![0xFF, 0x01]);
    // a bracket without its closing bracket is an ordinary (unknown) character
    assert_eq!(encode_display_string("[nl", &t), vec![0xFF, 0x01]);
    // the terminator is not doubled
    assert_eq!(encode_display_string("あ[close]", &t), vec![0x01, 0xFF, 0x01]);
    assert_eq!(encode_display_string("", &t), vec![0xFF, 0x01]);
}

#[test]
fn dialogue_strings_survive_display_and_encoding() {
    let t = table_with_tbl();
    let raw = vec![
        0x01, 0x02, 0x80, 0xCB, 0xFF, 0x03, 0x80, 0x42, 0xFF, 0x05, 0x10, 0x00, 0x55, 0xFF,
        0x0D, 0xFF, 0x02, 0xFF, 0x01,
    ];
    let shown = elements_to_display(&decode_string(&raw, &t));
    assert_eq!(shown, "あい：[nl]|8042[wait=16]ラ[ff0d][end]");
    assert_eq!(encode_display_string(&shown, &t), raw);
}

#[test]
fn terminated_strings_survive_display_and_encoding() {
    let t = table_with_tbl();
    let raw = vec![0x01, 0xFF, 0x01];
    let shown = elements_to_display(&decode_string(&raw, &t));
    assert_eq!(shown, "あ");
    assert_eq!(encode_display_string(&shown, &t), raw);
    // an end of dialogue inside the string is kept
    let raw = vec![0x01, 0xFF, 0x02, 0x02, 0xFF, 0x01];
    let shown = elements_to_display(&decode_string(&raw, &t));
    assert_eq!(shown, "あ[end]い");
    assert_eq!(encode_display_string(&shown, &t), raw);
    // the bare terminator
    let raw = vec![0xFF, 0x01];
    assert_eq!(elements_to_display(&decode_string(&raw, &t)), "");
    assert_eq!(encode_display_string("", &t), raw);
}

#[test]
fn decoding_splits_after_single_byte_codes() {
    let t = CharTable::japanese();
    let a = [0x01u8, 0x00, 0x02];
    let b = [0x80u8, 0x41, 0xFF, 0x03];
    let whole = decode_string(&[&a[..], &b[..]].concat(), &t);
    let mut parts = decode_string(&a, &t);
    assert_eq!(parts.len(), 2);
    parts.extend(decode_string(&b, &t));
    assert_eq!(whole, parts);
}

#[test]
fn control_tags_encode_back_to_their_codes() {
    let t = CharTable::japanese();
    for c in [
        ControlCode::EndDialogue,
        ControlCode::Newline,
        ControlCode::Clear,
        ControlCode::Wait(7),
        ControlCode::Color(200),
        ControlCode::FirstName,
        ControlCode::Nickname,
        ControlCode::Choice(3),
        ControlCode::LastName,
        ControlCode::Unknown(0x0A),
        ControlCode::Unknown(0x00),
        ControlCode::Unknown(0xFF),
    ] {
        let shown = elements_to_display(&[TextElement::Control(c)]);
        let bytes = encode_display_string(&shown, &t);
        assert_eq!(
            decode_string(&bytes, &t),
            vec![TextElement::Control(c), TextElement::Control(ControlCode::End)]
        );
    }
}
