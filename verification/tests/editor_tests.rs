use persona_script_editor::e0::Container;
use persona_script_editor::editor::{
    apply_translations, export_scene_strings, export_scenes, file_name, keeps_translation,
    scene_summaries, translated_strings, translations_fit, written_in_place,
};
use persona_script_editor::encoding::CharTable;
use persona_script_editor::script::{parse_script, rebuild_script, EventScript, ScriptString};

#[test]
fn file_names_of_the_text_containers() {
    assert_eq!(file_name(273), "E0.BIN");
    assert_eq!(file_name(274), "E1.BIN");
    assert_eq!(file_name(275), "E2.BIN");
    assert_eq!(file_name(276), "E3.BIN");
    assert_eq!(file_name(5), "unknown");
    assert_eq!(file_name(277), "unknown");
}

#[test]
fn only_new_non_empty_translations_are_kept() {
    let original = "あ[end]".to_string();
    assert!(!keeps_translation(&original, &original.clone()));
    assert!(!keeps_translation(&original, &String::new()));
    assert!(keeps_translation(&original, &"A[end]".to_string()));
}

#[test]
fn translated_strings_replace_only_translated_ones() {
    let script = EventScript {
        header_size: 8,
        header: vec![8, 0, 0, 0, 0, 0, 0, 0],
        ett: 0,
        table_ptr: 0,
        strings: vec![
            ScriptString { ptr_table_offset: 4, text_offset: 0, raw: vec![0x01, 0xFF, 0x01] },
            ScriptString { ptr_table_offset: 12, text_offset: 3, raw: vec![0x02, 0xFF, 0x01] },
        ],
        data: vec![],
    };
    let table = CharTable::japanese();
    let (strings, applied) =
        translated_strings(&script, &vec![None, Some("う[nl]".to_string())], &table);
    assert_eq!(applied, 1);
    assert_eq!(strings, vec![vec![0x01, 0xFF, 0x01], vec![0x03, 0xFF, 0x03, 0xFF, 0x01]]);
    let (same, none) = translated_strings(&script, &vec![None, None], &table);
    assert_eq!(none, 0);
    assert_eq!(same, vec![vec![0x01, 0xFF, 0x01], vec![0x02, 0xFF, 0x01]]);
}

#[test]
fn rebuilt_containers_stay_in_place_when_they_fit() {
    assert!(written_in_place(4096, 4096));
    assert!(written_in_place(0, 0));
    assert!(!written_in_place(4097, 4096));
}

/// A sub-file with an 8-byte header, `ett` = 0x80, `table_ptr` = 0x70 and two
/// strings, `あいう` and `え`.
fn scene() -> Vec<u8> {
    let mut data = vec![0u8; 0xA0];
    data[52] = 0x80;
    data[96] = 0x70;
    data[0x70..0x78].copy_from_slice(&[0xFF, 0x55, 0x00, 0x00, 0x80, 0x00, 0x10, 0x80]);
    data[0x78..0x80].copy_from_slice(&[0xFF, 0x55, 0x00, 0x00, 0x85, 0x00, 0x10, 0x80]);
    data[0x80..0x85].copy_from_slice(&[0x01, 0x02, 0x03, 0xFF, 0x01]);
    data[0x85..0x88].copy_from_slice(&[0x04, 0xFF, 0x01]);
    let mut sub = vec![8, 0, 0x10, 0x80, 0, 0, 0x10, 0x80];
    sub.extend_from_slice(&data);
    sub
}

fn sample_container() -> Container {
    Container { sub_files: vec![vec![1, 2, 3], scene(), scene()] }
}

#[test]
fn applying_translations_rebuilds_translated_scenes_only() {
    let c = sample_container();
    let table = CharTable::japanese();
    let scenes = vec![
        (2, vec![None, Some("か[nl]".to_string())]),
        (1, vec![None, None]),
        (0, vec![Some("x".to_string())]),
        (9, vec![Some("x".to_string())]),
    ];
    assert!(translations_fit(&c, &scenes, &table));
    let (out, applied) = apply_translations(&c, &scenes, &table);
    assert_eq!(applied, 1);
    // not a script, untranslated and out-of-range scenes are left alone
    assert_eq!(out.sub_files[0], c.sub_files[0]);
    assert_eq!(out.sub_files[1], c.sub_files[1]);
    assert_eq!(out.sub_files.len(), 3);
    // scene 2 is rebuilt with its second string replaced
    let parsed = parse_script(&c.sub_files[2]).unwrap();
    let expected =
        rebuild_script(&parsed, &[vec![0x01, 0x02, 0x03, 0xFF, 0x01], vec![0x06, 0xFF, 0x03, 0xFF, 0x01]])
            .unwrap();
    assert_eq!(out.sub_files[2], expected);
    let again = parse_script(&out.sub_files[2]).unwrap();
    assert_eq!(again.strings[1].raw, vec![0x06, 0xFF, 0x03, 0xFF, 0x01]);
}

#[test]
fn nothing_is_applied_without_translations() {
    let c = sample_container();
    let table = CharTable::japanese();
    let (out, applied) = apply_translations(&c, &vec![], &table);
    assert_eq!(applied, 0);
    assert_eq!(out.sub_files, c.sub_files);
}

#[test]
fn export_lists_scenes_with_strings() {
    let c = sample_container();
    let table = CharTable::japanese();
    let scenes = vec![(2, vec![Some("か".to_string())])];
    let out = export_scenes(&c, &scenes, &table);
    assert_eq!(out.len(), 2);
    assert_eq!(out[0].0, 1);
    assert_eq!(
        out[0].1,
        vec![
            (0, "あいう".to_string(), "あいう".to_string()),
            (1, "え".to_string(), "え".to_string()),
        ]
    );
    assert_eq!(out[1].0, 2);
    assert_eq!(
        out[1].1,
        vec![
            (0, "あいう".to_string(), "か".to_string()),
            (1, "え".to_string(), "え".to_string()),
        ]
    );
}

#[test]
fn scene_strings_show_originals_and_translations() {
    let parsed = parse_script(&scene()).unwrap();
    let table = CharTable::japanese();
    let ts = vec![None, Some("お".to_string()), Some("ignored".to_string())];
    let out = export_scene_strings(&parsed, Some(&ts), &table);
    assert_eq!(
        out,
        vec![(0, "あいう".to_string(), "あいう".to_string()), (1, "え".to_string(), "お".to_string())]
    );
    assert_eq!(export_scene_strings(&parsed, None, &table)[1].2, "え");
}

#[test]
fn scene_summaries_give_sizes_and_string_counts() {
    let c = sample_container();
    assert_eq!(scene_summaries(&c), vec![(3, 0), (0xA8, 2), (0xA8, 2)]);
}
