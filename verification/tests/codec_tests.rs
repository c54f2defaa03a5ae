use bbf::bbf::{petrify_bytes, Builder, Reader, BBF_VARIABLE_REAM_SIZE_FLAG};

/// Adds a page and collects the bytes the builder hands out.
fn add(builder: &mut Builder, out: &mut Vec<u8>, ext: &str, data: &[u8]) {
    assert!(builder.add_page(Some(ext), data, 0, 0).unwrap());
    out.extend(builder.take_output());
}

/// Finishes a container: the rest of its bytes, then the header over the blank one.
fn finish(builder: Builder, mut out: Vec<u8>) -> Vec<u8> {
    let done = builder.finalize().expect("Failed to finalize container");
    out.extend(done.tail);
    out[0..64].copy_from_slice(&done.header);
    out
}

fn three_pages_with_metadata() -> Vec<u8> {
    let mut builder = Builder::new(12, 16, BBF_VARIABLE_REAM_SIZE_FLAG);
    let mut out = Vec::new();
    add(&mut builder, &mut out, "png", b"PNG_FAKE_IMAGE_DATA_1");
    add(&mut builder, &mut out, "png", b"PNG_FAKE_IMAGE_DATA_2_DIFFERENT");
    add(&mut builder, &mut out, "png", b"PNG_FAKE_IMAGE_DATA_1");
    assert!(builder.add_meta("title", "Test Book", None));
    assert!(builder.add_meta("author", "Rust Team", Some("credits")));
    assert!(builder.add_section("Chapter 1", 0, None));
    assert!(builder.add_section("Chapter 2", 1, Some("Chapter 1")));
    finish(builder, out)
}

#[test]
fn test_build_read_petrify_roundtrip() {
    let bytes = three_pages_with_metadata();
    {
        let reader = Reader::new(bytes.clone()).expect("Failed to open reader");
        assert_eq!(reader.header.version, 3);
        assert_eq!(reader.header.alignment, 12);
        assert_eq!(reader.header.ream_size, 16);
        assert_eq!(reader.header.flags & 1, 0);
        assert_eq!(reader.footer.asset_count, 2);
        assert_eq!(reader.footer.page_count, 3);
        assert_eq!(reader.footer.meta_count, 2);
        assert_eq!(reader.footer.section_count, 2);
        assert!(reader.verify_footer_hash());

        let page0 = reader.get_page(0).unwrap();
        let page1 = reader.get_page(1).unwrap();
        let page2 = reader.get_page(2).unwrap();
        assert_eq!(page0.asset_index, 0);
        assert_eq!(page1.asset_index, 1);
        assert_eq!(page2.asset_index, 0);

        let asset0 = reader.get_asset(0).unwrap();
        let asset0_data = reader.get_asset_data(&asset0).unwrap();
        assert_eq!(asset0_data, b"PNG_FAKE_IMAGE_DATA_1");
        assert_eq!(asset0.asset_type, 0x02);
        assert!(reader.verify_asset_hash(0));

        let asset1 = reader.get_asset(1).unwrap();
        let asset1_data = reader.get_asset_data(&asset1).unwrap();
        assert_eq!(asset1_data, b"PNG_FAKE_IMAGE_DATA_2_DIFFERENT");
        assert_eq!(asset1.asset_type, 0x02);
        assert!(reader.verify_asset_hash(1));

        let meta0 = reader.get_meta(0).unwrap();
        assert_eq!(reader.get_string(meta0.key_offset).unwrap(), "title");
        assert_eq!(reader.get_string(meta0.value_offset).unwrap(), "Test Book");
        assert_eq!(meta0.parent_offset, 0xFFFFFFFFFFFFFFFF);

        let meta1 = reader.get_meta(1).unwrap();
        assert_eq!(reader.get_string(meta1.key_offset).unwrap(), "author");
        assert_eq!(reader.get_string(meta1.value_offset).unwrap(), "Rust Team");
        assert_eq!(reader.get_string(meta1.parent_offset).unwrap(), "credits");

        let sec0 = reader.get_section(0).unwrap();
        assert_eq!(reader.get_string(sec0.title_offset).unwrap(), "Chapter 1");
        assert_eq!(sec0.start_index, 0);
        assert_eq!(sec0.parent_offset, 0xFFFFFFFFFFFFFFFF);

        let sec1 = reader.get_section(1).unwrap();
        assert_eq!(reader.get_string(sec1.title_offset).unwrap(), "Chapter 2");
        assert_eq!(sec1.start_index, 1);
        assert_eq!(reader.get_string(sec1.parent_offset).unwrap(), "Chapter 1");
    }

    let petrified = petrify_bytes(&bytes).expect("Failed to petrify");
    {
        let reader = Reader::new(petrified).expect("Failed to open petrified reader");
        assert_eq!(reader.header.version, 3);
        assert_eq!(reader.header.alignment, 12);
        assert_eq!(reader.header.ream_size, 16);
        assert_ne!(reader.header.flags & 1, 0);
        assert_eq!(reader.footer.asset_count, 2);
        assert_eq!(reader.footer.page_count, 3);
        assert_eq!(reader.footer.meta_count, 2);
        assert_eq!(reader.footer.section_count, 2);
        assert!(reader.verify_footer_hash());

        let asset0 = reader.get_asset(0).unwrap();
        let asset0_data = reader.get_asset_data(&asset0).unwrap();
        assert_eq!(asset0_data, b"PNG_FAKE_IMAGE_DATA_1");
        assert!(reader.verify_asset_hash(0));

        let asset1 = reader.get_asset(1).unwrap();
        let asset1_data = reader.get_asset_data(&asset1).unwrap();
        assert_eq!(asset1_data, b"PNG_FAKE_IMAGE_DATA_2_DIFFERENT");
        assert!(reader.verify_asset_hash(1));
    }
}

#[test]
fn test_logical_page_order_preservation() {
    let mut builder = Builder::new(12, 16, 0);
    let mut out = Vec::new();
    add(&mut builder, &mut out, "png", b"IMAGE_CONTENT_B");
    add(&mut builder, &mut out, "png", b"IMAGE_CONTENT_C");
    add(&mut builder, &mut out, "png", b"IMAGE_CONTENT_A");
    let bytes = finish(builder, out);

    let reader = Reader::new(bytes).unwrap();
    assert_eq!(reader.footer.page_count, 3);
    assert_eq!(reader.footer.asset_count, 3);

    let p0 = reader.get_page(0).unwrap();
    let p1 = reader.get_page(1).unwrap();
    let p2 = reader.get_page(2).unwrap();
    let asset0 = reader.get_asset(p0.asset_index).unwrap();
    let asset1 = reader.get_asset(p1.asset_index).unwrap();
    let asset2 = reader.get_asset(p2.asset_index).unwrap();
    assert_eq!(reader.get_asset_data(&asset0).unwrap(), b"IMAGE_CONTENT_B");
    assert_eq!(reader.get_asset_data(&asset1).unwrap(), b"IMAGE_CONTENT_C");
    assert_eq!(reader.get_asset_data(&asset2).unwrap(), b"IMAGE_CONTENT_A");
}

#[test]
fn finished_layout_and_aligned_linearization() {
    let bytes = three_pages_with_metadata();
    assert_eq!(bytes.len(), 708);
    let reader = Reader::new(bytes.clone()).unwrap();
    assert_eq!(reader.header.footer_offset, 452);
    assert_eq!(reader.header.flags, 2);
    let f = &reader.footer;
    assert_eq!(
        (f.asset_offset, f.page_offset, f.section_offset, f.meta_offset),
        (119, 215, 263, 327)
    );
    assert_eq!((f.string_pool_offset, f.string_pool_size), (391, 61));
    assert_eq!(
        &bytes[391..452],
        &b"title\0Test Book\0author\0Rust Team\0credits\0Chapter 1\0Chapter 2\0"[..]
    );
    assert_eq!(reader.get_asset(0).unwrap().file_offset, 64);
    assert_eq!(reader.get_asset(1).unwrap().file_offset, 88);
    assert_eq!(reader.get_asset(1).unwrap().file_size, 31);

    let petrified = petrify_bytes(&bytes).unwrap();
    // Offsets 64 and 88 need a granule of 64: the footer and 333 index bytes, 589 in all,
    // are padded to 640.
    assert_eq!(petrified.len(), 64 + 640 + (119 - 64));
    let moved = Reader::new(petrified).unwrap();
    for i in 0..2 {
        let a = moved.get_asset(i).unwrap();
        assert_eq!(a.file_offset, reader.get_asset(i).unwrap().file_offset + 640);
        assert_eq!(a.file_offset % 8, 0);
        assert!(moved.verify_asset_hash(i));
    }
    assert!(moved.verify_footer_hash());
}

#[test]
fn linearizing_with_the_largest_alignment_exponent() {
    let mut builder = Builder::new(63, 16, BBF_VARIABLE_REAM_SIZE_FLAG);
    let mut out = Vec::new();
    add(&mut builder, &mut out, "png", b"tiny page one");
    add(&mut builder, &mut out, "png", b"tiny page two!");
    let bytes = finish(builder, out);
    let reader = Reader::new(bytes.clone()).unwrap();
    assert_eq!(reader.get_asset(0).unwrap().file_offset, 64);
    assert_eq!(reader.get_asset(1).unwrap().file_offset, 80);

    let petrified = petrify_bytes(&bytes).unwrap();
    let moved = Reader::new(petrified).unwrap();
    // Offsets 64 and 80 need a granule of 64; 256 + 128 index bytes is 384, already a multiple.
    assert_eq!(moved.get_asset(0).unwrap().file_offset, 64 + 384);
    assert_eq!(moved.get_asset(1).unwrap().file_offset, 80 + 384);
    assert_eq!(moved.get_asset_data(&moved.get_asset(1).unwrap()).unwrap(), b"tiny page two!");
    assert!(moved.verify_asset_hash(0) && moved.verify_asset_hash(1));
    assert!(moved.verify_footer_hash());
}
