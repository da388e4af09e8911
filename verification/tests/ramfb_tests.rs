use handheld::ramfb::ramfb_setup;
use handheld::ramfb::dma_descriptor;
use handheld::ramfb::{find_fw_cfg_file, fw_cfg_entry_select, ramfb_config, Ramfb, FB_SIZE};

#[test]
fn config_is_big_endian() {
    let cfg = ramfb_config(0x1122_3344_5566_7788);
    assert_eq!(cfg.len(), 28);
    assert_eq!(&cfg[0..8], &[0x11, 0x22, 0x33, 0x44, 0x55, 0x66, 0x77, 0x88]);
    assert_eq!(&cfg[8..12], &[0x34, 0x32, 0x52, 0x58]);
    assert_eq!(&cfg[12..16], &[0, 0, 0, 0]);
    assert_eq!(&cfg[16..20], &[0, 0, 0x01, 0x40]);
    assert_eq!(&cfg[20..24], &[0, 0, 0, 0xF0]);
    assert_eq!(&cfg[24..28], &[0, 0, 0x05, 0x00]);
}

fn entry(select: u16, name: &[u8]) -> Vec<u8> {
    let mut e = vec![0u8; 64];
    e[4] = (select >> 8) as u8;
    e[5] = select as u8;
    e[8..8 + name.len()].copy_from_slice(name);
    e
}

#[test]
fn directory_entries_match_by_name() {
    let e = entry(0x0123, b"etc/ramfb");
    assert_eq!(fw_cfg_entry_select(&e, "etc/ramfb"), Some(0x0123));
    assert_eq!(fw_cfg_entry_select(&e, "etc/ramf"), None);
    assert_eq!(fw_cfg_entry_select(&e, "etc/ramfb2"), None);
    let bad = entry(7, &[0xFF, 0xFE]);
    assert_eq!(fw_cfg_entry_select(&bad, "x"), None);
    assert_eq!(fw_cfg_entry_select(&bad, ""), Some(7));
    let dir = vec![entry(1, b"bootorder"), entry(0x20, b"etc/ramfb"), entry(0x21, b"etc/ramfb")];
    assert_eq!(find_fw_cfg_file(&dir, "etc/ramfb"), Some(0x20));
    assert_eq!(find_fw_cfg_file(&dir, "etc/none"), None);
}

#[test]
fn blit_writes_bgrx() {
    let mut fb = Ramfb::new();
    assert_eq!(fb.bytes().len(), FB_SIZE);
    let mut indexed = vec![0u8; 76800];
    indexed[1] = 2;
    let mut palette = vec![(0u8, 0u8, 0u8); 256];
    palette[2] = (10, 20, 30);
    palette[0] = (1, 2, 3);
    fb.blit(&indexed, &palette);
    assert_eq!(&fb.bytes()[0..8], &[3, 2, 1, 0xFF, 30, 20, 10, 0xFF]);
    assert_eq!(&fb.bytes()[FB_SIZE - 4..], &[3, 2, 1, 0xFF]);
}

#[test]
fn dma_descriptor_is_big_endian() {
    let d = dma_descriptor(0x19, 28, 0x1122_3344_5566_7788);
    assert_eq!(d, vec![0, 0x19, 0, 0x18, 0, 0, 0, 28, 0x11, 0x22, 0x33, 0x44, 0x55, 0x66, 0x77, 0x88]);
}

#[test]
fn setup_buffer_needs_the_ramfb_file() {
    let dir = vec![entry(1, b"bootorder"), entry(0x0123, b"etc/ramfb"), entry(0x21, b"etc/ramfb")];
    let buf = ramfb_setup(&dir, 0x8000_0000, 0x8100_0000).unwrap();
    assert_eq!(buf.len(), 48);
    assert_eq!(&buf[0..28], ramfb_config(0x8000_0000).as_slice());
    assert_eq!(&buf[28..32], &[0, 0, 0, 0]);
    assert_eq!(&buf[32..48], dma_descriptor(0x0123, 28, 0x8100_0000).as_slice());
    assert_eq!(&buf[32..36], &[0x01, 0x23, 0x00, 0x18]);
    let none = vec![entry(1, b"bootorder"), entry(2, b"etc/ramf")];
    assert_eq!(ramfb_setup(&none, 0, 0), None);
    assert_eq!(ramfb_setup(&[], 0, 0), None);
}
