use persona_script_editor::e0::{build_container, built_size, parse_container, Container, ALIGNMENT};

#[test]
fn test_roundtrip() {
    // Create a simple container with 2 sub-files
    let container = Container {
        sub_files: vec![vec![0x42; 100], vec![0x55; 200]],
    };
    let built = build_container(&container);
    let parsed = parse_container(&built);
    assert_eq!(parsed.sub_files.len(), 2);
    // Sub-files are padded to ALIGNMENT in the container
    assert!(parsed.sub_files[0].starts_with(&[0x42; 100]));
    assert!(parsed.sub_files[1].starts_with(&[0x55; 200]));
}

#[test]
fn build_lays_out_pointer_table_and_slots() {
    let container = Container {
        sub_files: vec![vec![1, 2, 3], vec![], vec![7; ALIGNMENT + 1]],
    };
    let built = build_container(&container);
    // 1 unit for the table, 1 + 1 + 2 units for the sub-files
    assert_eq!(built.len(), 5 * ALIGNMENT);
    assert_eq!(&built[0..10], &[1, 0, 2, 0, 3, 0, 5, 0, 0, 0]);
    assert_eq!(&built[ALIGNMENT..ALIGNMENT + 4], &[1, 2, 3, 0]);
    assert!(built[2 * ALIGNMENT..3 * ALIGNMENT].iter().all(|&b| b == 0));
    assert_eq!(built[3 * ALIGNMENT], 7);
    assert_eq!(built[4 * ALIGNMENT], 7);
    assert_eq!(built[4 * ALIGNMENT + 1], 0);
}

#[test]
fn parse_gives_back_padded_sub_files() {
    let container = Container {
        sub_files: vec![vec![9; 10], vec![]],
    };
    let parsed = parse_container(&build_container(&container));
    assert_eq!(parsed.sub_files.len(), 2);
    let mut first = vec![9u8; 10];
    first.resize(ALIGNMENT, 0);
    assert_eq!(parsed.sub_files[0], first);
    assert_eq!(parsed.sub_files[1], vec![0u8; ALIGNMENT]);
}

#[test]
fn rebuilding_a_parsed_container_is_stable() {
    let container = Container {
        sub_files: vec![vec![0xAB; 3000], vec![0xCD; 1], vec![]],
    };
    let built = build_container(&container);
    let rebuilt = build_container(&parse_container(&built));
    assert_eq!(rebuilt, built);
}

#[test]
fn parse_stops_at_non_increasing_pointer() {
    // pointers 1, 2, then 2 again: only two entries, one sub-file
    let mut data = vec![0u8; 3 * ALIGNMENT];
    data[0..6].copy_from_slice(&[1, 0, 2, 0, 2, 0]);
    data[ALIGNMENT] = 0x11;
    let parsed = parse_container(&data);
    assert_eq!(parsed.sub_files.len(), 1);
    assert_eq!(parsed.sub_files[0].len(), ALIGNMENT);
    assert_eq!(parsed.sub_files[0][0], 0x11);
}

#[test]
fn parse_clips_to_data_and_empties_out_of_range_slots() {
    // pointers 1, 3, 5 but only 2 units of data
    let mut data = vec![0u8; 2 * ALIGNMENT];
    data[0..6].copy_from_slice(&[1, 0, 3, 0, 5, 0]);
    let parsed = parse_container(&data);
    assert_eq!(parsed.sub_files.len(), 2);
    assert_eq!(parsed.sub_files[0].len(), ALIGNMENT);
    assert!(parsed.sub_files[1].is_empty());
}

#[test]
fn parse_of_empty_or_table_less_data() {
    assert!(parse_container(&[]).sub_files.is_empty());
    assert!(parse_container(&[0, 0, 1, 0]).sub_files.is_empty());
    assert!(parse_container(&[4, 0]).sub_files.is_empty());
}

#[test]
fn built_size_is_the_length_of_the_built_container() {
    let container = Container {
        sub_files: vec![vec![5; 1], vec![], vec![6; 2 * ALIGNMENT]],
    };
    assert_eq!(built_size(&container), Some(build_container(&container).len()));
    assert_eq!(built_size(&container), Some(5 * ALIGNMENT));
    assert_eq!(built_size(&Container { sub_files: vec![] }), Some(ALIGNMENT));
}
