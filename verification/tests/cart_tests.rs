use handheld::cart::{CartError, CartReader, CartWriter};

fn sample_cart(with_sprites: bool) -> Vec<u8> {
    let mut w = CartWriter::new();
    w.set_meta("Snake", "Jonas", "1.2").set_wasm(&[0, 97, 115, 109]);
    if with_sprites {
        w.set_spritesheet(&[7u8; 10]);
    }
    w.build()
}

#[test]
fn build_then_read_sections() {
    let data = sample_cart(false);
    let reader = CartReader::new(&data).unwrap();
    assert_eq!(reader.wasm(), Some(&[0u8, 97, 115, 109][..]));
    assert!(reader.spritesheet().is_none());
    let meta = reader.meta().unwrap();
    assert_eq!(meta.name(), "Snake");
    assert_eq!(meta.author(), "Jonas");
    assert_eq!(meta.version_str(), "1.2");
}

#[test]
fn build_with_spritesheet() {
    let data = sample_cart(true);
    assert_eq!(&data[0..8], &[0x43, 0x41, 0x52, 0x54, 1, 3, 0, 0]);
    let reader = CartReader::new(&data).unwrap();
    assert_eq!(reader.spritesheet(), Some(&[7u8; 10][..]));
}

#[test]
fn header_layout() {
    let data = sample_cart(false);
    // header, two table entries, then the payloads
    assert_eq!(data[5], 2);
    assert_eq!(data[8], 1);
    assert_eq!(&data[12..16], &[32, 0, 0, 0]);
    let meta_len = "name=Snake\nauthor=Jonas\nversion=1.2\n".len();
    assert_eq!(data[16] as usize, meta_len);
    assert_eq!(data[20], 2);
    assert_eq!(data.len(), 32 + meta_len + 4);
}

#[test]
fn reader_errors() {
    assert_eq!(CartReader::new(&[1, 2, 3]).err(), Some(CartError::TooShort));
    assert_eq!(CartReader::new(&[0x58, 0x41, 0x52, 0x54, 1, 0, 0, 0]).err(), Some(CartError::BadMagic));
    assert_eq!(CartReader::new(&[0x43, 0x41, 0x52, 0x54, 2, 0, 0, 0]).err(), Some(CartError::BadVersion));
    // one section announced, no room for its table entry
    assert_eq!(CartReader::new(&[0x43, 0x41, 0x52, 0x54, 1, 1, 0, 0]).err(), Some(CartError::TooShort));
    assert_eq!(CartError::BadMagic.message(), "bad magic");
    assert_eq!(CartError::TooShort.message(), "too short");
    assert_eq!(CartError::BadVersion.message(), "bad version");
    assert_eq!(CartError::BadSection.message(), "bad section");
}

#[test]
fn section_out_of_bounds_is_skipped() {
    let mut data = vec![0x43, 0x41, 0x52, 0x54, 1, 1, 0, 0];
    data.extend_from_slice(&[2, 0, 0, 0, 100, 0, 0, 0, 5, 0, 0, 0]);
    let reader = CartReader::new(&data).unwrap();
    assert!(reader.wasm().is_none());
    assert!(reader.meta().is_none());
}

#[test]
fn missing_field_reads_empty() {
    let mut data = vec![0x43, 0x41, 0x52, 0x54, 1, 1, 0, 0];
    let text = b"name=Solo\n";
    data.extend_from_slice(&[1, 0, 0, 0, 20, 0, 0, 0, text.len() as u8, 0, 0, 0]);
    data.extend_from_slice(text);
    let reader = CartReader::new(&data).unwrap();
    let meta = reader.meta().unwrap();
    assert_eq!(meta.name(), "Solo");
    assert_eq!(meta.author(), "");
}
