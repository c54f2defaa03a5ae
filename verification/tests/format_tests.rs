use bbf::archive::ArchiveFormat;
use bbf::bbf::reader::{direct_copy_len, open_overflows};
use bbf::bbf::writer::detect_type;
use bbf::bbf::{
    petrify_bytes, Asset, BbfError, Builder, Footer, Header, Meta, Page, Reader, Section, Table,
    BBF_VARIABLE_REAM_SIZE_FLAG,
};
use xxhash_rust::xxh3::{xxh3_128, xxh3_64};

fn add(builder: &mut Builder, out: &mut Vec<u8>, ext: &str, data: &[u8]) {
    assert!(builder.add_page(Some(ext), data, 0, 0).unwrap());
    out.extend(builder.take_output());
}

fn finish(builder: Builder, mut out: Vec<u8>) -> Vec<u8> {
    let done = builder.finalize().unwrap();
    out.extend(done.tail);
    out[0..64].copy_from_slice(&done.header);
    out
}

fn sample_header() -> Header {
    Header {
        magic: *b"BBF3",
        version: 3,
        header_len: 64,
        flags: 0x0102_0304,
        alignment: 12,
        ream_size: 16,
        reserved_extra: 0xBEEF,
        footer_offset: 0x1122_3344_5566_7788,
    }
}

fn blank_footer() -> Footer {
    Footer {
        asset_offset: 0,
        page_offset: 0,
        section_offset: 0,
        meta_offset: 0,
        expansion_offset: 0,
        string_pool_offset: 0,
        string_pool_size: 0,
        asset_count: 0,
        page_count: 0,
        section_count: 0,
        meta_count: 0,
        expansion_count: 0,
        flags: 0,
        footer_len: 0,
        padding: [0, 0, 0],
        footer_hash: 0,
    }
}

/// A container of `extra` bytes between header and footer, with the given footer.
fn container(extra: &[u8], footer: &Footer) -> Vec<u8> {
    let mut h = sample_header();
    h.footer_offset = 64 + extra.len() as u64;
    let mut v = h.to_bytes().to_vec();
    v.extend_from_slice(extra);
    v.extend_from_slice(&footer.to_bytes());
    v
}

#[test]
fn header_encodes_fields_little_endian() {
    let h = sample_header();
    let b = h.to_bytes();
    assert_eq!(&b[0..4], b"BBF3");
    assert_eq!(&b[4..6], &[3, 0]);
    assert_eq!(&b[6..8], &[64, 0]);
    assert_eq!(&b[8..12], &[0x04, 0x03, 0x02, 0x01]);
    assert_eq!(b[12], 12);
    assert_eq!(b[13], 16);
    assert_eq!(&b[14..16], &[0xEF, 0xBE]);
    assert_eq!(&b[16..24], &[0x88, 0x77, 0x66, 0x55, 0x44, 0x33, 0x22, 0x11]);
    assert!(b[24..].iter().all(|&x| x == 0));
    let back = Header::from_bytes(&b).unwrap();
    assert_eq!(back.magic, h.magic);
    assert_eq!(back.flags, h.flags);
    assert_eq!(back.reserved_extra, h.reserved_extra);
    assert_eq!(back.footer_offset, h.footer_offset);
    assert!(Header::from_bytes(&b[..63]).is_none());
}

#[test]
fn footer_roundtrip_and_reencode_zeroes_rest() {
    let mut f = blank_footer();
    f.asset_offset = 1;
    f.page_offset = 2;
    f.section_offset = 3;
    f.meta_offset = 4;
    f.expansion_offset = 5;
    f.string_pool_offset = 6;
    f.string_pool_size = 7;
    f.asset_count = 8;
    f.page_count = 9;
    f.section_count = 10;
    f.meta_count = 11;
    f.expansion_count = 12;
    f.flags = 13;
    f.footer_len = 14;
    f.padding = [15, 16, 17];
    f.footer_hash = 18;
    let b = f.to_bytes();
    assert_eq!(b[96], 13);
    assert_eq!(b[100], 14);
    assert_eq!(&b[101..104], &[15, 16, 17]);
    assert_eq!(b[104], 18);
    let back = Footer::from_bytes(&b).unwrap();
    assert_eq!(back.to_bytes(), b);
    let mut noisy = b;
    noisy[200] = 0xAA;
    assert_eq!(Footer::from_bytes(&noisy).unwrap().to_bytes(), b);
    assert!(Footer::from_bytes(&b[..255]).is_none());
}

#[test]
fn entries_roundtrip() {
    let a = Asset {
        file_offset: 4096,
        asset_hash: [0x0102030405060708, 0x1112131415161718],
        file_size: 21,
        flags: 7,
        reserved_value: 9,
        asset_type: 2,
    };
    let b = a.to_bytes();
    assert_eq!(b[8], 0x08);
    assert_eq!(b[16], 0x18);
    assert_eq!(b[38], 2);
    let back = Asset::from_bytes(&b).unwrap();
    assert_eq!(back.asset_hash, a.asset_hash);
    assert_eq!(back.to_bytes(), b);
    assert!(Asset::from_bytes(&b[..47]).is_none());
    assert_eq!(
        a.hash_bytes(),
        [8, 7, 6, 5, 4, 3, 2, 1, 0x18, 0x17, 0x16, 0x15, 0x14, 0x13, 0x12, 0x11]
    );

    let p = Page { asset_index: 3, flags: 0xAABBCCDD };
    let pb = p.to_bytes();
    assert_eq!(&pb[8..12], &[0xDD, 0xCC, 0xBB, 0xAA]);
    assert_eq!(Page::from_bytes(&pb).unwrap().asset_index, 3);
    assert!(Page::from_bytes(&pb[..15]).is_none());

    let s = Section { title_offset: 1, start_index: 2, parent_offset: u64::MAX };
    let sb = s.to_bytes();
    let sback = Section::from_bytes(&sb).unwrap();
    assert_eq!((sback.title_offset, sback.start_index, sback.parent_offset), (1, 2, u64::MAX));

    let m = Meta { key_offset: 5, value_offset: 6, parent_offset: 7 };
    let mback = Meta::from_bytes(&m.to_bytes()).unwrap();
    assert_eq!((mback.key_offset, mback.value_offset, mback.parent_offset), (5, 6, 7));
    assert!(Meta::from_bytes(&[0u8; 31]).is_none());
}

#[test]
fn media_types_by_extension() {
    assert_eq!(detect_type(Some("avif")), 1);
    assert_eq!(detect_type(Some("PNG")), 2);
    assert_eq!(detect_type(Some("WebP")), 3);
    assert_eq!(detect_type(Some("jxl")), 4);
    assert_eq!(detect_type(Some("bmp")), 5);
    assert_eq!(detect_type(Some("gif")), 7);
    assert_eq!(detect_type(Some("tif")), 8);
    assert_eq!(detect_type(Some("TIFF")), 8);
    assert_eq!(detect_type(Some("jpg")), 9);
    assert_eq!(detect_type(Some("JPEG")), 9);
    assert_eq!(detect_type(Some("txt")), 0);
    assert_eq!(detect_type(Some("")), 0);
    assert_eq!(detect_type(Some("pngx")), 0);
    assert_eq!(detect_type(Some("pñg")), 0);
    assert_eq!(detect_type(None), 0);
}

#[test]
fn reader_rejects_bad_containers() {
    assert_eq!(Reader::new(vec![0u8; 319]).err(), Some(BbfError::ContainerTooSmall));

    let mut bad_magic = container(&[], &blank_footer());
    bad_magic[0] = b'X';
    assert_eq!(Reader::new(bad_magic).err(), Some(BbfError::InvalidMagic));

    let mut old_version = container(&[], &blank_footer());
    old_version[4] = 2;
    assert_eq!(Reader::new(old_version).err(), Some(BbfError::UnsupportedVersion(2)));

    let mut short = container(&[], &blank_footer());
    short[16] = 65;
    assert_eq!(Reader::new(short).err(), Some(BbfError::FooterOutOfBounds));

    let ok = container(&[], &blank_footer());
    assert!(!open_overflows(&ok));
    let mut huge = ok.clone();
    huge[16..24].copy_from_slice(&u64::MAX.to_le_bytes());
    assert!(open_overflows(&huge));
}

#[test]
fn reader_entry_errors() {
    let mut f = blank_footer();
    f.page_count = 5;
    f.page_offset = 10_000;
    f.asset_count = 5;
    f.asset_offset = u64::MAX - 10;
    let reader = Reader::new(container(&[], &f)).unwrap();
    assert_eq!(reader.get_page(5).err(), Some(BbfError::IndexOutOfBounds(Table::Page, 5)));
    assert_eq!(reader.get_page(0).err(), Some(BbfError::EntryOutOfBounds(Table::Page)));
    assert_eq!(reader.get_asset(1).err(), Some(BbfError::OffsetOverflow(Table::Asset)));
    assert_eq!(reader.get_section(0).err(), Some(BbfError::IndexOutOfBounds(Table::Section, 0)));
    assert_eq!(reader.get_meta(2).err(), Some(BbfError::IndexOutOfBounds(Table::Meta, 2)));
    assert!(reader.is_safe(0, 320));
    assert!(!reader.is_safe(0, 321));
    assert!(!reader.is_safe(u64::MAX, 2));
}

#[test]
fn reader_string_errors() {
    let pool = b"ok\0\xff\0abc";
    let mut f = blank_footer();
    f.string_pool_offset = 64;
    f.string_pool_size = pool.len() as u64;
    let reader = Reader::new(container(pool, &f)).unwrap();
    assert_eq!(reader.get_string(0).unwrap(), "ok");
    assert_eq!(reader.get_string(1).unwrap(), "k");
    assert_eq!(reader.get_string(3).err(), Some(BbfError::InvalidUtf8));
    assert_eq!(reader.get_string(5).err(), Some(BbfError::UnterminatedString));
    assert_eq!(reader.get_string(u64::MAX).err(), Some(BbfError::NullString));
    assert_eq!(
        reader.get_string(8).err(),
        Some(BbfError::StringOffsetOutOfPool { offset: 8, pool_size: 8 })
    );
    assert_eq!(reader.get_parent_string(u64::MAX).unwrap(), "");
    assert_eq!(reader.get_parent_string(0).unwrap(), "ok");
    assert!(!reader.string_scan_overruns(0));

    let mut g = blank_footer();
    g.string_pool_offset = u64::MAX;
    g.string_pool_size = 4;
    let r2 = Reader::new(container(b"", &g)).unwrap();
    assert_eq!(r2.get_string(1).err(), Some(BbfError::StringOffsetOverflow));
    g.string_pool_offset = u64::MAX - 2;
    let r3 = Reader::new(container(b"", &g)).unwrap();
    assert_eq!(r3.get_string(1).err(), Some(BbfError::StringPoolEndOverflow));
    g.string_pool_offset = 1000;
    let r4 = Reader::new(container(b"", &g)).unwrap();
    assert_eq!(r4.get_string(1).err(), Some(BbfError::StringOutOfFile));

    let mut h = blank_footer();
    h.string_pool_offset = 300;
    h.string_pool_size = 10_000;
    let r5 = Reader::new(container(b"", &h)).unwrap();
    assert!(r5.string_scan_overruns(0));
}

#[test]
fn asset_data_bounds() {
    let reader = Reader::new(container(b"payload", &blank_footer())).unwrap();
    let a = Asset {
        file_offset: 64,
        asset_hash: [0, 0],
        file_size: 7,
        flags: 0,
        reserved_value: 0,
        asset_type: 0,
    };
    assert_eq!(reader.get_asset_data(&a).unwrap(), b"payload");
    let far = Asset { file_offset: 1000, ..a };
    assert_eq!(reader.get_asset_data(&far).err(), Some(BbfError::AssetDataOutOfBounds));
}

#[test]
fn hashes_are_xxh3_of_the_bytes() {
    let mut builder = Builder::new(4, 4, 0);
    let mut out = Vec::new();
    add(&mut builder, &mut out, "gif", b"GIF89a-payload");
    assert!(builder.add_meta("k", "v", None));
    let bytes = finish(builder, out);
    let reader = Reader::new(bytes.clone()).unwrap();
    let a = reader.get_asset(0).unwrap();
    let h = xxh3_128(b"GIF89a-payload");
    assert_eq!(a.asset_hash, [h as u64, (h >> 64) as u64]);
    assert_eq!(a.asset_type, 7);
    let start = reader.footer.asset_offset as usize;
    let end = (reader.footer.string_pool_offset + reader.footer.string_pool_size) as usize;
    assert_eq!(reader.footer.footer_hash, xxh3_64(&bytes[start..end]));
    assert!(reader.verify_footer_hash());
    assert!(reader.verify_asset_hash(0));
    assert!(!reader.verify_asset_hash(1));

    let mut corrupt_index = bytes.clone();
    corrupt_index[start + 20] ^= 1;
    assert!(!Reader::new(corrupt_index).unwrap().verify_footer_hash());

    let mut corrupt_payload = bytes.clone();
    corrupt_payload[a.file_offset as usize] ^= 1;
    let r2 = Reader::new(corrupt_payload).unwrap();
    assert!(r2.verify_footer_hash());
    assert!(!r2.verify_asset_hash(0));
}

#[test]
fn builder_aligns_and_deduplicates() {
    let mut builder = Builder::new(12, 16, 0);
    let mut out = Vec::new();
    add(&mut builder, &mut out, "png", b"first");
    add(&mut builder, &mut out, "png", b"second");
    let before = builder.current_offset();
    add(&mut builder, &mut out, "jpg", b"first");
    assert_eq!(builder.current_offset(), before);
    let bytes = finish(builder, out);
    let reader = Reader::new(bytes).unwrap();
    assert_eq!(reader.get_asset(0).unwrap().file_offset, 4096);
    assert_eq!(reader.get_asset(1).unwrap().file_offset, 8192);
    assert_eq!(reader.footer.asset_count, 2);
    assert_eq!(reader.get_page(2).unwrap().asset_index, 0);

    let mut small = Builder::new(12, 16, BBF_VARIABLE_REAM_SIZE_FLAG);
    let mut out2 = Vec::new();
    add(&mut small, &mut out2, "png", b"abc");
    add(&mut small, &mut out2, "png", b"defg");
    let r2 = Reader::new(finish(small, out2)).unwrap();
    assert_eq!(r2.get_asset(0).unwrap().file_offset, 64);
    assert_eq!(r2.get_asset(1).unwrap().file_offset, 72);
}

#[test]
fn builder_strings_sections_and_empty() {
    let mut builder = Builder::new(12, 16, 0);
    let mut out = Vec::new();
    assert!(!builder.add_section("too far", 1, None));
    add(&mut builder, &mut out, "png", b"x");
    assert!(builder.add_section("one", 1, None));
    assert!(builder.add_meta("one", "one", Some("one")));
    let bytes = finish(builder, out);
    let reader = Reader::new(bytes).unwrap();
    assert_eq!(reader.footer.section_count, 1);
    assert_eq!(reader.footer.string_pool_size, 4);
    let m = reader.get_meta(0).unwrap();
    assert_eq!(m.key_offset, 0);
    assert_eq!(m.value_offset, 0);
    assert_eq!(m.parent_offset, 0);
    assert_eq!(reader.header.footer_offset + 256, reader.source.as_ref().len() as u64);
    assert_eq!(reader.footer.footer_len, 0);

    let empty = Builder::new(12, 16, 0);
    assert!(empty.finalize_fits());
    assert_eq!(empty.finalize().err(), Some(BbfError::NoAssets));
}

#[test]
fn petrify_refusals() {
    let mut builder = Builder::new(12, 16, 0);
    let mut out = Vec::new();
    add(&mut builder, &mut out, "png", b"payload");
    let bytes = finish(builder, out);
    let petrified = petrify_bytes(&bytes).unwrap();
    // 256 footer bytes + 64 index bytes, padded to the 4096-byte granule.
    assert_eq!(petrified.len(), bytes.len() + 3776);
    let moved = Reader::new(petrified.clone()).unwrap();
    let asset = moved.get_asset(0).unwrap();
    assert_eq!(asset.file_offset, 4096 + 4096);
    assert_eq!(moved.get_asset_data(&asset).unwrap(), b"payload");
    assert!(petrified[384..4096 + 64].iter().all(|&b| b == 0));
    assert_eq!(petrify_bytes(&petrified).err(), Some(BbfError::AlreadyPetrified));
    assert_eq!(petrify_bytes(&bytes[..63]).err(), Some(BbfError::UnexpectedEof));
    assert_eq!(petrify_bytes(&bytes[..bytes.len() - 1]).err(), Some(BbfError::UnexpectedEof));
    let mut bad = bytes.clone();
    bad[3] = b'2';
    assert_eq!(petrify_bytes(&bad).err(), Some(BbfError::InvalidMagic));

    let mut f = blank_footer();
    f.asset_offset = 100;
    assert_eq!(petrify_bytes(&container(&[], &f)).err(), Some(BbfError::InvalidFooterOffsets));
    f.asset_offset = 10;
    assert_eq!(petrify_bytes(&container(&[], &f)).err(), Some(BbfError::InvalidAssetTableOffset));
    let mut big = container(&[], &blank_footer());
    big.splice(64..64, std::iter::repeat(0u8).take(16_000_001));
    big[16..24].copy_from_slice(&(64u64 + 16_000_001).to_le_bytes());
    let mut g = blank_footer();
    g.asset_offset = 64;
    let fb = g.to_bytes();
    let n = big.len();
    big[n - 256..].copy_from_slice(&fb);
    assert_eq!(petrify_bytes(&big).err(), Some(BbfError::IndexTooLarge));
}

#[test]
fn direct_copy_and_archive_formats() {
    assert_eq!(direct_copy_len(10, 100, 0, 50), Ok(10));
    assert_eq!(direct_copy_len(10, 100, 5, 3), Ok(3));
    assert_eq!(direct_copy_len(10, 12, 5, 10), Err(-6));
    assert_eq!(direct_copy_len(10, 100, -1, 3), Err(-5));
    assert_eq!(direct_copy_len(10, 100, 0, -3), Err(-5));

    assert_eq!(ArchiveFormat::from_code(0), ArchiveFormat::Cbz);
    assert_eq!(ArchiveFormat::from_code(1), ArchiveFormat::Cbt);
    assert_eq!(ArchiveFormat::from_code(2), ArchiveFormat::Cb7);
    assert_eq!(ArchiveFormat::from_code(7), ArchiveFormat::Cbr);
    assert_eq!(ArchiveFormat::Cbr.check_writable(), Err(BbfError::UnsupportedArchiveFormat));
    assert_eq!(ArchiveFormat::Cbz.check_writable(), Ok(()));
}

#[test]
fn keyed_pages_and_given_footer_hash() {
    let mut builder = Builder::new(4, 4, 0);
    let mut out = Vec::new();
    assert!(builder.add_page_with_hash(Some("png"), b"one", 7, 0, 0).unwrap());
    out.extend(builder.take_output());
    let before = builder.current_offset();
    assert!(builder.add_page_with_hash(Some("png"), b"two", 7, 1, 0).unwrap());
    assert_eq!(builder.current_offset(), before);
    assert!(builder.add_page_with_hash(Some("jpeg"), b"three", (5u128 << 64) | 9, 0, 2).unwrap());
    out.extend(builder.take_output());
    let index = builder.index_bytes();
    assert_eq!(index.len(), 2 * 48 + 3 * 16);
    let done = builder.finalize_with_hash(index, 0xABCD).unwrap();
    out.extend(done.tail);
    out[0..64].copy_from_slice(&done.header);

    let reader = Reader::new(out).unwrap();
    assert_eq!(reader.footer.footer_hash, 0xABCD);
    assert!(!reader.verify_footer_hash());
    assert_eq!(reader.footer.asset_count, 2);
    assert_eq!(reader.footer.page_count, 3);
    let page = reader.get_page(1).unwrap();
    assert_eq!((page.asset_index, page.flags), (0, 1));
    let first = reader.get_asset(0).unwrap();
    assert_eq!(first.asset_hash, [7, 0]);
    assert_eq!(first.file_offset, 64);
    let second = reader.get_asset(1).unwrap();
    assert_eq!(second.asset_hash, [9, 5]);
    assert_eq!(second.file_offset, 80);
    assert_eq!(second.asset_type, 9);
    assert_eq!(second.flags, 2);
    assert_eq!(reader.get_asset_data(&second).unwrap(), b"three");
    assert!(second.hash_matches((5u128 << 64) | 9));
    assert!(!second.hash_matches((9u128 << 64) | 5));
    assert!(!reader.verify_asset_hash(1));
}

#[test]
fn strings_are_pooled_once() {
    let mut builder = Builder::new(12, 16, 0);
    assert_eq!(builder.add_string(b"alpha"), 0);
    assert_eq!(builder.add_string(b"beta"), 6);
    assert_eq!(builder.add_string(b"alpha"), 0);
    assert!(builder.add_meta("beta", "gamma", Some("alpha")));
    let mut out = Vec::new();
    add(&mut builder, &mut out, "png", b"p");
    let bytes = finish(builder, out);
    let reader = Reader::new(bytes.clone()).unwrap();
    assert_eq!(reader.footer.string_pool_size, 17);
    let start = reader.footer.string_pool_offset as usize;
    assert_eq!(&bytes[start..start + 17], &b"alpha\0beta\0gamma\0"[..]);
    let m = reader.get_meta(0).unwrap();
    assert_eq!((m.key_offset, m.value_offset, m.parent_offset), (6, 11, 0));
}
