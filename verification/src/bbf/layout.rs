//! The byte layout of the on-disk records, stated field by field.
use crate::bbf::bytes::{lemma_le_bytes_lengths, u16_at, u32_at, u64_at, zeros};
use crate::bbf::types::{
    lemma_asset_roundtrip, lemma_asset_spec_parse, lemma_footer_roundtrip, lemma_footer_spec_parse,
    lemma_header_roundtrip, lemma_header_spec_parse, lemma_meta_roundtrip, lemma_meta_spec_parse,
    lemma_page_roundtrip, lemma_page_spec_parse, lemma_section_roundtrip,
    lemma_section_spec_parse, Asset, Footer, Header, Meta, Page, Section,
};
use vstd::prelude::*;

verus! {

/// The on-disk layout of a header record: magic at bytes 0..4, version and header length as
/// little-endian u16 at 4 and 6, flags as a little-endian u32 at 8, alignment and ream-size
/// exponents at 12 and 13, the reserved u16 at 14 and the footer offset as a little-endian
/// u64 at 16; the other bytes up to 64 are zero.
pub proof fn law_header_layout(x: Header)
    ensures
        x.spec_bytes().len() == 64,
        x.spec_bytes().subrange(0, 4) == x.magic@,
        u16_at(x.spec_bytes(), 4) == x.version,
        u16_at(x.spec_bytes(), 6) == x.header_len,
        u32_at(x.spec_bytes(), 8) == x.flags,
        x.spec_bytes()[12] == x.alignment,
        x.spec_bytes()[13] == x.ream_size,
        u16_at(x.spec_bytes(), 14) == x.reserved_extra,
        u64_at(x.spec_bytes(), 16) == x.footer_offset,
        x.spec_bytes().subrange(24, 64) == zeros(40),
{
    lemma_header_roundtrip(x);
    lemma_le_bytes_lengths();
    assert(x.spec_bytes().subrange(24, 64) =~= zeros(40));
}

/// Decoding a header record reads each field from its place in the layout of
/// `law_header_layout`.
pub proof fn law_header_decoding(s: Seq<u8>)
    requires
        s.len() >= 64,
    ensures
        s.subrange(0, 4) == Header::spec_parse(s).magic@,
        u16_at(s, 4) == Header::spec_parse(s).version,
        u16_at(s, 6) == Header::spec_parse(s).header_len,
        u32_at(s, 8) == Header::spec_parse(s).flags,
        s[12] == Header::spec_parse(s).alignment,
        s[13] == Header::spec_parse(s).ream_size,
        u16_at(s, 14) == Header::spec_parse(s).reserved_extra,
        u64_at(s, 16) == Header::spec_parse(s).footer_offset,
{
    lemma_header_spec_parse(s);
}

/// The on-disk layout of a footer record: the table offsets, pool offset and size, and the
/// four counts and expansion count as little-endian u64 at 0, 8, ..., 88, flags as a
/// little-endian u32 at 96, the footer length at 100, padding at 101..104 and the index
/// hash as a little-endian u64 at 104; the other bytes up to 256 are zero.
pub proof fn law_footer_layout(x: Footer)
    ensures
        x.spec_bytes().len() == 256,
        u64_at(x.spec_bytes(), 0) == x.asset_offset,
        u64_at(x.spec_bytes(), 8) == x.page_offset,
        u64_at(x.spec_bytes(), 16) == x.section_offset,
        u64_at(x.spec_bytes(), 24) == x.meta_offset,
        u64_at(x.spec_bytes(), 32) == x.expansion_offset,
        u64_at(x.spec_bytes(), 40) == x.string_pool_offset,
        u64_at(x.spec_bytes(), 48) == x.string_pool_size,
        u64_at(x.spec_bytes(), 56) == x.asset_count,
        u64_at(x.spec_bytes(), 64) == x.page_count,
        u64_at(x.spec_bytes(), 72) == x.section_count,
        u64_at(x.spec_bytes(), 80) == x.meta_count,
        u64_at(x.spec_bytes(), 88) == x.expansion_count,
        u32_at(x.spec_bytes(), 96) == x.flags,
        x.spec_bytes()[100] == x.footer_len,
        x.spec_bytes().subrange(101, 104) == x.padding@,
        u64_at(x.spec_bytes(), 104) == x.footer_hash,
        x.spec_bytes().subrange(112, 256) == zeros(144),
{
    lemma_footer_roundtrip(x);
    lemma_le_bytes_lengths();
    assert(x.spec_bytes().subrange(112, 256) =~= zeros(144));
}

/// Decoding a footer record reads each field from its place in the layout of
/// `law_footer_layout`.
pub proof fn law_footer_decoding(s: Seq<u8>)
    requires
        s.len() >= 256,
    ensures
        u64_at(s, 0) == Footer::spec_parse(s).asset_offset,
        u64_at(s, 8) == Footer::spec_parse(s).page_offset,
        u64_at(s, 16) == Footer::spec_parse(s).section_offset,
        u64_at(s, 24) == Footer::spec_parse(s).meta_offset,
        u64_at(s, 32) == Footer::spec_parse(s).expansion_offset,
        u64_at(s, 40) == Footer::spec_parse(s).string_pool_offset,
        u64_at(s, 48) == Footer::spec_parse(s).string_pool_size,
        u64_at(s, 56) == Footer::spec_parse(s).asset_count,
        u64_at(s, 64) == Footer::spec_parse(s).page_count,
        u64_at(s, 72) == Footer::spec_parse(s).section_count,
        u64_at(s, 80) == Footer::spec_parse(s).meta_count,
        u64_at(s, 88) == Footer::spec_parse(s).expansion_count,
        u32_at(s, 96) == Footer::spec_parse(s).flags,
        s[100] == Footer::spec_parse(s).footer_len,
        s.subrange(101, 104) == Footer::spec_parse(s).padding@,
        u64_at(s, 104) == Footer::spec_parse(s).footer_hash,
{
    lemma_footer_spec_parse(s);
}

/// The on-disk layout of an asset entry: payload offset at 0, hash low and high halves at 8
/// and 16, payload size at 24 (little-endian u64 each), flags as a little-endian u32 at 32,
/// the reserved u16 at 36 and the media type at 38; the other bytes up to 48 are zero.
pub proof fn law_asset_layout(x: Asset)
    ensures
        x.spec_bytes().len() == 48,
        u64_at(x.spec_bytes(), 0) == x.file_offset,
        u64_at(x.spec_bytes(), 8) == x.asset_hash[0],
        u64_at(x.spec_bytes(), 16) == x.asset_hash[1],
        u64_at(x.spec_bytes(), 24) == x.file_size,
        u32_at(x.spec_bytes(), 32) == x.flags,
        u16_at(x.spec_bytes(), 36) == x.reserved_value,
        x.spec_bytes()[38] == x.asset_type,
        x.spec_bytes().subrange(39, 48) == zeros(9),
{
    lemma_asset_roundtrip(x);
    lemma_le_bytes_lengths();
    assert(x.spec_bytes().subrange(39, 48) =~= zeros(9));
}

/// Decoding an asset entry reads each field from its place in the layout of
/// `law_asset_layout`.
pub proof fn law_asset_decoding(s: Seq<u8>)
    requires
        s.len() >= 48,
    ensures
        u64_at(s, 0) == Asset::spec_parse(s).file_offset,
        u64_at(s, 8) == Asset::spec_parse(s).asset_hash[0],
        u64_at(s, 16) == Asset::spec_parse(s).asset_hash[1],
        u64_at(s, 24) == Asset::spec_parse(s).file_size,
        u32_at(s, 32) == Asset::spec_parse(s).flags,
        u16_at(s, 36) == Asset::spec_parse(s).reserved_value,
        s[38] == Asset::spec_parse(s).asset_type,
{
    lemma_asset_spec_parse(s);
}

/// The on-disk layout of a page entry: asset index as a little-endian u64 at 0 and flags as
/// a little-endian u32 at 8; the other bytes up to 16 are zero.
pub proof fn law_page_layout(x: Page)
    ensures
        x.spec_bytes().len() == 16,
        u64_at(x.spec_bytes(), 0) == x.asset_index,
        u32_at(x.spec_bytes(), 8) == x.flags,
        x.spec_bytes().subrange(12, 16) == zeros(4),
{
    lemma_page_roundtrip(x);
    lemma_le_bytes_lengths();
    assert(x.spec_bytes().subrange(12, 16) =~= zeros(4));
}

/// Decoding a page entry reads each field from its place in the layout of
/// `law_page_layout`.
pub proof fn law_page_decoding(s: Seq<u8>)
    requires
        s.len() >= 16,
    ensures
        u64_at(s, 0) == Page::spec_parse(s).asset_index,
        u32_at(s, 8) == Page::spec_parse(s).flags,
{
    lemma_page_spec_parse(s);
}

/// The on-disk layout of a section entry: title offset, first page index and parent offset
/// as little-endian u64 at 0, 8 and 16; the other bytes up to 32 are zero.
pub proof fn law_section_layout(x: Section)
    ensures
        x.spec_bytes().len() == 32,
        u64_at(x.spec_bytes(), 0) == x.title_offset,
        u64_at(x.spec_bytes(), 8) == x.start_index,
        u64_at(x.spec_bytes(), 16) == x.parent_offset,
        x.spec_bytes().subrange(24, 32) == zeros(8),
{
    lemma_section_roundtrip(x);
    lemma_le_bytes_lengths();
    assert(x.spec_bytes().subrange(24, 32) =~= zeros(8));
}

/// Decoding a section entry reads each field from its place in the layout of
/// `law_section_layout`.
pub proof fn law_section_decoding(s: Seq<u8>)
    requires
        s.len() >= 32,
    ensures
        u64_at(s, 0) == Section::spec_parse(s).title_offset,
        u64_at(s, 8) == Section::spec_parse(s).start_index,
        u64_at(s, 16) == Section::spec_parse(s).parent_offset,
{
    lemma_section_spec_parse(s);
}

/// The on-disk layout of a metadata entry: key, value and parent string offsets as little-
/// endian u64 at 0, 8 and 16; the other bytes up to 32 are zero.
pub proof fn law_meta_layout(x: Meta)
    ensures
        x.spec_bytes().len() == 32,
        u64_at(x.spec_bytes(), 0) == x.key_offset,
        u64_at(x.spec_bytes(), 8) == x.value_offset,
        u64_at(x.spec_bytes(), 16) == x.parent_offset,
        x.spec_bytes().subrange(24, 32) == zeros(8),
{
    lemma_meta_roundtrip(x);
    lemma_le_bytes_lengths();
    assert(x.spec_bytes().subrange(24, 32) =~= zeros(8));
}

/// Decoding a metadata entry reads each field from its place in the layout of
/// `law_meta_layout`.
pub proof fn law_meta_decoding(s: Seq<u8>)
    requires
        s.len() >= 32,
    ensures
        u64_at(s, 0) == Meta::spec_parse(s).key_offset,
        u64_at(s, 8) == Meta::spec_parse(s).value_offset,
        u64_at(s, 16) == Meta::spec_parse(s).parent_offset,
{
    lemma_meta_spec_parse(s);
}

} // verus!
