use std::path::PathBuf;
use persona_script_editor::e0::{build_container, Container, ALIGNMENT};
use persona_script_editor::iso::{
    IsoError, IsoImage, FILE_IDX_E0, FSECT_LBA, SECTOR_SIZE, USER_OFFSET, USER_SIZE,
};

#[test]
fn open_accepts_whole_sectors_only() {
    let image = IsoImage::open(PathBuf::from("disc.bin"), 3 * SECTOR_SIZE as u64).unwrap();
    assert_eq!(image.sector_count, 3);
    assert_eq!(image.path, PathBuf::from("disc.bin"));
    assert_eq!(
        IsoImage::open(PathBuf::from("disc.bin"), 2048).err(),
        Some(IsoError::NotRawImage { file_size: 2048 })
    );
    assert_eq!(IsoImage::open(PathBuf::new(), 0).unwrap().sector_count, 0);
}

#[test]
fn sector_arithmetic() {
    assert_eq!(IsoImage::user_data_offset(0), USER_OFFSET as u64);
    assert_eq!(IsoImage::user_data_offset(10), 10 * 2352 + 24);
    assert_eq!(IsoImage::sectors_for(0), 0);
    assert_eq!(IsoImage::sectors_for(1), 1);
    assert_eq!(IsoImage::sectors_for(USER_SIZE), 1);
    assert_eq!(IsoImage::sectors_for(USER_SIZE + 1), 2);
}

#[test]
fn read_file_trims_to_size() {
    assert_eq!(IsoImage::read_file(vec![1, 2, 3, 4], 2), vec![1, 2]);
    assert_eq!(IsoImage::read_file(vec![1, 2], 5), vec![1, 2]);
}

#[test]
fn chunks_and_raw_sectors() {
    let data: Vec<u8> = (0..3000u32).map(|v| (v % 251) as u8).collect();
    let c0 = IsoImage::user_data_chunk(&data, 0);
    let c1 = IsoImage::user_data_chunk(&data, 1);
    assert_eq!(c0.len(), USER_SIZE);
    assert_eq!(&c0[..], &data[..USER_SIZE]);
    assert_eq!(&c1[..3000 - USER_SIZE], &data[USER_SIZE..]);
    assert!(c1[3000 - USER_SIZE..].iter().all(|&b| b == 0));
    let sector = IsoImage::raw_sector(&c1);
    assert_eq!(sector.len(), SECTOR_SIZE);
    assert!(sector[..USER_OFFSET].iter().all(|&b| b == 0));
    assert_eq!(&sector[USER_OFFSET..USER_OFFSET + USER_SIZE], &c1[..]);
    assert!(sector[USER_OFFSET + USER_SIZE..].iter().all(|&b| b == 0));
    let short = IsoImage::raw_sector(&[9, 8]);
    assert_eq!(&short[USER_OFFSET..USER_OFFSET + 3], &[9, 8, 0]);
}

#[test]
fn fsect_entries_read_back_what_was_written() {
    assert_eq!(IsoImage::fsect_location(FILE_IDX_E0), (FSECT_LBA, 273 * 4));
    assert_eq!(IsoImage::fsect_location(600), (FSECT_LBA + 1, 352));
    let mut sector = vec![0u8; USER_SIZE];
    IsoImage::write_fsect_entry(&mut sector, 273, 0x0012_3456);
    IsoImage::write_fsect_entry(&mut sector, 274, 0xDEAD_BEEF);
    assert_eq!(&sector[1092..1100], &[0x56, 0x34, 0x12, 0x00, 0xEF, 0xBE, 0xAD, 0xDE]);
    assert_eq!(IsoImage::read_fsect_entry(&sector, 273), 0x0012_3456);
    assert_eq!(IsoImage::read_fsect_entry(&sector, 274), 0xDEAD_BEEF);
    assert_eq!(IsoImage::read_fsect_entry(&sector, 275), 0);
}

#[test]
fn container_size_from_first_sector() {
    let container = Container {
        sub_files: vec![vec![1; 5000], vec![2; 10]],
    };
    let built = build_container(&container);
    assert_eq!(IsoImage::get_container_size(&built[..USER_SIZE]), built.len() as u32);
    assert_eq!(IsoImage::get_container_size(&[0, 0]), 0);
    assert_eq!(IsoImage::get_container_size(&[3, 0, 2, 0]), 3 * ALIGNMENT as u32);
}

#[test]
fn text_files_take_their_sizes_from_their_first_sectors() {
    let mut first = vec![0u8; USER_SIZE];
    first[0..4].copy_from_slice(&[1, 0, 9, 0]);
    let empty = vec![0u8; USER_SIZE];
    let files = IsoImage::get_text_files(
        &[100, 200, 300, 400],
        &[first.clone(), empty.clone(), first, empty],
    );
    assert_eq!(files.len(), 4);
    assert_eq!(files[0].index, 273);
    assert_eq!(files[0].name, "E0.BIN");
    assert_eq!(files[0].lba, 100);
    assert_eq!(files[0].size, 9 * 2048);
    assert_eq!(files[1].name, "E1.BIN");
    assert_eq!(files[1].size, 0);
    assert_eq!(files[3].index, 276);
    assert_eq!(files[3].name, "E3.BIN");
    assert_eq!(files[3].lba, 400);
}
