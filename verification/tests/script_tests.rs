use persona_script_editor::script::{parse_script, rebuild_script};

#[test]
fn test_parse_empty() {
    assert!(parse_script(&[]).is_none());
    assert!(parse_script(&[0; 50]).is_none());
}

/// A sub-file with an 8-byte header, `ett` = 0x80, `table_ptr` = 0x70 and two
/// string pointers at data offsets 0x74 and 0x7C.
fn sample_sub_file() -> Vec<u8> {
    let mut data = vec![0u8; 0xA0];
    data[52] = 0x80; // ett
    data[96] = 0x70; // table_ptr
    // pointer to 0x80
    data[0x70..0x78].copy_from_slice(&[0xFF, 0x55, 0x00, 0x00, 0x80, 0x00, 0x10, 0x80]);
    // pointer to 0x85
    data[0x78..0x80].copy_from_slice(&[0xFF, 0x55, 0x00, 0x00, 0x85, 0x00, 0x10, 0x80]);
    data[0x80..0x85].copy_from_slice(&[0x01, 0x02, 0x03, 0xFF, 0x01]);
    data[0x85..0x88].copy_from_slice(&[0x04, 0xFF, 0x01]);
    data[0x88..0x8A].copy_from_slice(&[0xEE, 0xEE]);
    let mut sub = vec![8, 0, 0x10, 0x80, 0, 0, 0x10, 0x80];
    sub.extend_from_slice(&data);
    sub
}

#[test]
fn parse_finds_strings_through_pointer_table() {
    let s = parse_script(&sample_sub_file()).unwrap();
    assert_eq!(s.header_size, 8);
    assert_eq!(s.header, vec![8, 0, 0x10, 0x80, 0, 0, 0x10, 0x80]);
    assert_eq!(s.ett, 0x80);
    assert_eq!(s.table_ptr, 0x70);
    assert_eq!(s.data.len(), 0xA0);
    assert_eq!(s.strings.len(), 2);
    assert_eq!(s.strings[0].ptr_table_offset, 0x74);
    assert_eq!(s.strings[0].text_offset, 0x80);
    assert_eq!(s.strings[0].raw, vec![0x01, 0x02, 0x03, 0xFF, 0x01]);
    assert_eq!(s.strings[1].ptr_table_offset, 0x7C);
    assert_eq!(s.strings[1].text_offset, 0x85);
    assert_eq!(s.strings[1].raw, vec![0x04, 0xFF, 0x01]);
}

#[test]
fn parse_rejects_bad_header_sizes() {
    let mut big = vec![0u8; 400];
    big[0] = 3;
    assert!(parse_script(&big).is_none());
    big[0] = 4;
    assert!(parse_script(&big).is_some());
    big[0] = 0;
    big[1] = 1; // 256 is still accepted
    assert_eq!(parse_script(&big).unwrap().data.len(), 144);
    big[0] = 1; // 257
    assert!(parse_script(&big).is_none());
    // header leaving fewer than 100 data bytes
    let mut small = vec![0u8; 120];
    small[0] = 30;
    assert!(parse_script(&small).is_none());
    // header as long as the whole sub-file
    let mut exact = vec![0u8; 108];
    exact[0] = 108;
    assert!(parse_script(&exact).is_none());
}

#[test]
fn parse_skips_strings_without_terminator() {
    let mut sub = sample_sub_file();
    // break the terminator of the second string and everything after it
    for b in sub[8 + 0x86..].iter_mut() {
        *b = 0;
    }
    let s = parse_script(&sub).unwrap();
    assert_eq!(s.strings.len(), 1);
}

#[test]
fn parse_finds_no_strings_without_table() {
    // table_ptr 0xFFFF: the sub-file has no strings, though pointers are present
    let mut sub = sample_sub_file();
    sub[8 + 96] = 0xFF;
    sub[8 + 97] = 0xFF;
    let s = parse_script(&sub).unwrap();
    assert_eq!(s.table_ptr, 0xFFFF);
    assert!(s.strings.is_empty());
    assert_eq!(s.data.len(), sub.len() - 8);
}

#[test]
fn parse_scans_everything_past_the_data() {
    // a table_ptr beyond the data falls back to scanning the whole data section
    let mut sub = sample_sub_file();
    sub[8 + 96] = 0xFE;
    sub[8 + 97] = 0xFF;
    let s = parse_script(&sub).unwrap();
    assert_eq!(s.strings.len(), 2);
}

#[test]
fn rebuild_moves_text_and_updates_pointers() {
    let s = parse_script(&sample_sub_file()).unwrap();
    let new_strings = vec![vec![0x10, 0x11, 0x12, 0x13], vec![0x20, 0xFF, 0x01]];
    let out = rebuild_script(&s, &new_strings).unwrap();
    let data = &out[8..];
    // first string at ett, terminator added
    assert_eq!(&data[0x80..0x86], &[0x10, 0x11, 0x12, 0x13, 0xFF, 0x01]);
    // second string right after it, kept as is
    assert_eq!(&data[0x86..0x89], &[0x20, 0xFF, 0x01]);
    // pointers updated
    assert_eq!(&data[0x74..0x76], &[0x80, 0x00]);
    assert_eq!(&data[0x7C..0x7E], &[0x86, 0x00]);
    // trailing data follows
    assert_eq!(&data[0x89..0x8B], &[0xEE, 0xEE]);
    assert_eq!(out.len(), 8 + 0x89 + (0xA0 - 0x88));
    // and the rebuilt script reads back with the new strings
    let again = parse_script(&out).unwrap();
    assert_eq!(again.strings.len(), 2);
    assert_eq!(again.strings[0].raw, vec![0x10, 0x11, 0x12, 0x13, 0xFF, 0x01]);
    assert_eq!(again.strings[1].raw, vec![0x20, 0xFF, 0x01]);
}

#[test]
fn rebuild_refuses_wrong_string_count() {
    let s = parse_script(&sample_sub_file()).unwrap();
    assert!(rebuild_script(&s, &[vec![1]]).is_none());
}

#[test]
fn rebuilding_with_own_strings_gives_the_sub_file_back() {
    // the sample's strings lie one after the other from ett on
    let sub = sample_sub_file();
    let s = parse_script(&sub).unwrap();
    let own: Vec<Vec<u8>> = s.strings.iter().map(|x| x.raw.clone()).collect();
    assert_eq!(rebuild_script(&s, &own).unwrap(), sub);
}
