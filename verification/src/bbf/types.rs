//! The fixed-size records of a container: header, footer and table entries.
use crate::bbf::bytes::{
    get_u16, get_u32, get_u64, lemma_le_bytes_lengths, lemma_le_bytes_roundtrip, put_bytes, put_u16,
    put_u32, put_u64, u16_at, u32_at, u64_at, zeros,
};
use crate::bbf::hash::{high64, low64, split_hash};
use vstd::bytes::*;
use vstd::prelude::*;

verus! {

broadcast use vstd::array::group_array_axioms;

/// Header flag: the index tables stand right after header and footer.
pub const BBF_PETRIFICATION_FLAG: u32 = 0x00000001;

/// Header flag: small assets are aligned to 8 bytes only.
pub const BBF_VARIABLE_REAM_SIZE_FLAG: u32 = 0x00000002;

/// Default alignment exponent (2^12 = 4096 bytes).
pub const DEFAULT_GUARD_ALIGNMENT: u8 = 12;

/// Default small-asset threshold exponent (2^16 = 65536 bytes).
pub const DEFAULT_SMALL_REAM_THRESHOLD: u8 = 16;

/// Longest string, terminator included, that a read scans for.
pub const MAX_FORME_SIZE: usize = 2048;

/// The format version this library reads and writes.
pub const VERSION: u16 = 3;

/// The string-pool offset that stands for "no string".
pub const NULL_OFFSET: u64 = 0xFFFFFFFFFFFFFFFF;

/// The 64-byte record at the start of every container.
#[derive(Debug, Clone, Copy)]
pub struct Header {
    pub magic: [u8; 4],
    pub version: u16,
    pub header_len: u16,
    pub flags: u32,
    pub alignment: u8,
    pub ream_size: u8,
    pub reserved_extra: u16,
    pub footer_offset: u64,
}

impl Header {
    pub const SIZE: usize = 64;

    /// `self` holds the fields that the first 64 bytes of `s` encode.
    pub open spec fn parsed_from(self, s: Seq<u8>) -> bool {
        &&& self.magic@ == s.subrange(0, 4)
        &&& self.version == u16_at(s, 4)
        &&& self.header_len == u16_at(s, 6)
        &&& self.flags == u32_at(s, 8)
        &&& self.alignment == s[12]
        &&& self.ream_size == s[13]
        &&& self.reserved_extra == u16_at(s, 14)
        &&& self.footer_offset == u64_at(s, 16)
    }

    /// The record that the first 64 bytes of `s` encode.
    pub open spec fn spec_parse(s: Seq<u8>) -> Header {
        Header {
            magic: [s[0], s[1], s[2], s[3]],
            version: u16_at(s, 4),
            header_len: u16_at(s, 6),
            flags: u32_at(s, 8),
            alignment: s[12],
            ream_size: s[13],
            reserved_extra: u16_at(s, 14),
            footer_offset: u64_at(s, 16),
        }
    }

    /// The 64 bytes that encode `self`: its fields in order, then zeros.
    pub open spec fn spec_bytes(self) -> Seq<u8> {
        self.magic@
            + spec_u16_to_le_bytes(self.version)
            + spec_u16_to_le_bytes(self.header_len)
            + spec_u32_to_le_bytes(self.flags)
            + seq![self.alignment]
            + seq![self.ream_size]
            + spec_u16_to_le_bytes(self.reserved_extra)
            + spec_u64_to_le_bytes(self.footer_offset)
            + zeros(40)
    }

    /// Decodes a record from the first 64 bytes; `None` when fewer are given.
    pub fn from_bytes(bytes: &[u8]) -> (r: Option<Header>)
        ensures
            r == (if bytes@.len() < 64 { None } else { Some(Header::spec_parse(bytes@)) }),
    {
        if bytes.len() < Self::SIZE {
            return None;
        }
        let x = Header {
            magic: [bytes[0], bytes[1], bytes[2], bytes[3]],
            version: get_u16(bytes, 4),
            header_len: get_u16(bytes, 6),
            flags: get_u32(bytes, 8),
            alignment: bytes[12],
            ream_size: bytes[13],
            reserved_extra: get_u16(bytes, 14),
            footer_offset: get_u64(bytes, 16),
        };
        assert(x.magic@ =~= bytes@.subrange(0, 4));
        proof {
            lemma_header_spec_parse(bytes@);
            lemma_header_parse_unique(x, Header::spec_parse(bytes@), bytes@);
        }
        Some(x)
    }

    /// Encodes `self` as its 64 bytes.
    pub fn to_bytes(&self) -> (r: [u8; 64])
        ensures
            r@ == self.spec_bytes(),
    {
        let mut bytes = [0u8; 64];
        assert(bytes@ =~= zeros(64));
        put_bytes(&mut bytes, 0, self.magic.as_slice());
        put_u16(&mut bytes, 4, self.version);
        put_u16(&mut bytes, 6, self.header_len);
        put_u32(&mut bytes, 8, self.flags);
        bytes[12] = self.alignment;
        bytes[13] = self.ream_size;
        put_u16(&mut bytes, 14, self.reserved_extra);
        put_u64(&mut bytes, 16, self.footer_offset);
        proof {
            lemma_le_bytes_lengths();
        }
        assert(bytes@ =~= self.spec_bytes());
        bytes
    }
}

/// Decoding the encoding of a header record gives the record back.
pub proof fn lemma_header_roundtrip(x: Header)
    ensures
        x.spec_bytes().len() == 64,
        x.parsed_from(x.spec_bytes()),
        Header::spec_parse(x.spec_bytes()) == x,
{
    lemma_le_bytes_roundtrip();
    let s = x.spec_bytes();
    assert(s.subrange(0, 4) =~= x.magic@);
    assert(s.subrange(4, 6) =~= spec_u16_to_le_bytes(x.version));
    assert(s.subrange(6, 8) =~= spec_u16_to_le_bytes(x.header_len));
    assert(s.subrange(8, 12) =~= spec_u32_to_le_bytes(x.flags));
    assert(s[12] == x.alignment);
    assert(s[13] == x.ream_size);
    assert(s.subrange(14, 16) =~= spec_u16_to_le_bytes(x.reserved_extra));
    assert(s.subrange(16, 24) =~= spec_u64_to_le_bytes(x.footer_offset));
    lemma_header_spec_parse(s);
    lemma_header_parse_unique(x, Header::spec_parse(s), s);
}

/// `spec_parse` gives the record that the bytes encode.
pub proof fn lemma_header_spec_parse(s: Seq<u8>)
    requires
        s.len() >= 64,
    ensures
        Header::spec_parse(s).parsed_from(s),
{
    assert(Header::spec_parse(s).magic@ =~= s.subrange(0, 4));
}

/// The bytes of a header record determine it.
pub proof fn lemma_header_parse_unique(x: Header, y: Header, s: Seq<u8>)
    requires
        x.parsed_from(s),
        y.parsed_from(s),
    ensures
        x == y,
{
    assert(x.magic =~= y.magic);
}

/// Decoding a header record reads only its first 64 bytes.
pub proof fn lemma_header_parse_prefix(s: Seq<u8>, t: Seq<u8>)
    requires
        s.len() >= 64,
        t.len() >= 64,
        s.subrange(0, 64) == t.subrange(0, 64),
    ensures
        Header::spec_parse(s) == Header::spec_parse(t),
{
    assert forall|i: int| 0 <= i < 64 implies s[i] == t[i] by {
        assert(s.subrange(0, 64)[i] == s[i]);
        assert(t.subrange(0, 64)[i] == t[i]);
        assert(s.subrange(0, 64)[i] == t.subrange(0, 64)[i]);
    }
    assert(s.subrange(0, 4) =~= t.subrange(0, 4));
    assert(s.subrange(4, 6) =~= t.subrange(4, 6));
    assert(s.subrange(6, 8) =~= t.subrange(6, 8));
    assert(s.subrange(8, 12) =~= t.subrange(8, 12));
    assert(s[12] == s.subrange(0, 64)[12]);
    assert(t[12] == t.subrange(0, 64)[12]);
    assert(s[13] == s.subrange(0, 64)[13]);
    assert(t[13] == t.subrange(0, 64)[13]);
    assert(s.subrange(14, 16) =~= t.subrange(14, 16));
    assert(s.subrange(16, 24) =~= t.subrange(16, 24));
    assert(Header::spec_parse(s).magic =~= Header::spec_parse(t).magic);
}

/// Encoding a decoded header record keeps the bytes of its fields and zeroes the rest.
pub proof fn lemma_header_reencode(x: Header, s: Seq<u8>)
    requires
        s.len() >= 64,
        x.parsed_from(s),
    ensures
        x.spec_bytes() == s.subrange(0, 24) + zeros(40),
{
    lemma_le_bytes_roundtrip();
    assert(s.subrange(4, 6).len() == 2);
    assert(s.subrange(6, 8).len() == 2);
    assert(s.subrange(8, 12).len() == 4);
    assert(s.subrange(14, 16).len() == 2);
    assert(s.subrange(16, 24).len() == 8);
    assert(s.subrange(0, 24) =~= s.subrange(0, 4) + s.subrange(4, 6) + s.subrange(6, 8) + s.subrange(8, 12) + s.subrange(12, 13) + s.subrange(13, 14) + s.subrange(14, 16) + s.subrange(16, 24));
    assert(x.spec_bytes() =~= s.subrange(0, 24) + zeros(40));
}

/// The 256-byte record that locates the index tables.
#[derive(Debug, Clone, Copy)]
pub struct Footer {
    pub asset_offset: u64,
    pub page_offset: u64,
    pub section_offset: u64,
    pub meta_offset: u64,
    pub expansion_offset: u64,
    pub string_pool_offset: u64,
    pub string_pool_size: u64,
    pub asset_count: u64,
    pub page_count: u64,
    pub section_count: u64,
    pub meta_count: u64,
    pub expansion_count: u64,
    pub flags: u32,
    pub footer_len: u8,
    pub padding: [u8; 3],
    pub footer_hash: u64,
}

impl Footer {
    pub const SIZE: usize = 256;

    /// `self` holds the fields that the first 256 bytes of `s` encode.
    pub open spec fn parsed_from(self, s: Seq<u8>) -> bool {
        &&& self.asset_offset == u64_at(s, 0)
        &&& self.page_offset == u64_at(s, 8)
        &&& self.section_offset == u64_at(s, 16)
        &&& self.meta_offset == u64_at(s, 24)
        &&& self.expansion_offset == u64_at(s, 32)
        &&& self.string_pool_offset == u64_at(s, 40)
        &&& self.string_pool_size == u64_at(s, 48)
        &&& self.asset_count == u64_at(s, 56)
        &&& self.page_count == u64_at(s, 64)
        &&& self.section_count == u64_at(s, 72)
        &&& self.meta_count == u64_at(s, 80)
        &&& self.expansion_count == u64_at(s, 88)
        &&& self.flags == u32_at(s, 96)
        &&& self.footer_len == s[100]
        &&& self.padding@ == s.subrange(101, 104)
        &&& self.footer_hash == u64_at(s, 104)
    }

    /// The record that the first 256 bytes of `s` encode.
    pub open spec fn spec_parse(s: Seq<u8>) -> Footer {
        Footer {
            asset_offset: u64_at(s, 0),
            page_offset: u64_at(s, 8),
            section_offset: u64_at(s, 16),
            meta_offset: u64_at(s, 24),
            expansion_offset: u64_at(s, 32),
            string_pool_offset: u64_at(s, 40),
            string_pool_size: u64_at(s, 48),
            asset_count: u64_at(s, 56),
            page_count: u64_at(s, 64),
            section_count: u64_at(s, 72),
            meta_count: u64_at(s, 80),
            expansion_count: u64_at(s, 88),
            flags: u32_at(s, 96),
            footer_len: s[100],
            padding: [s[101], s[102], s[103]],
            footer_hash: u64_at(s, 104),
        }
    }

    /// The 256 bytes that encode `self`: its fields in order, then zeros.
    pub open spec fn spec_bytes(self) -> Seq<u8> {
        spec_u64_to_le_bytes(self.asset_offset)
            + spec_u64_to_le_bytes(self.page_offset)
            + spec_u64_to_le_bytes(self.section_offset)
            + spec_u64_to_le_bytes(self.meta_offset)
            + spec_u64_to_le_bytes(self.expansion_offset)
            + spec_u64_to_le_bytes(self.string_pool_offset)
            + spec_u64_to_le_bytes(self.string_pool_size)
            + spec_u64_to_le_bytes(self.asset_count)
            + spec_u64_to_le_bytes(self.page_count)
            + spec_u64_to_le_bytes(self.section_count)
            + spec_u64_to_le_bytes(self.meta_count)
            + spec_u64_to_le_bytes(self.expansion_count)
            + spec_u32_to_le_bytes(self.flags)
            + seq![self.footer_len]
            + self.padding@
            + spec_u64_to_le_bytes(self.footer_hash)
            + zeros(144)
    }

    /// Decodes a record from the first 256 bytes; `None` when fewer are given.
    pub fn from_bytes(bytes: &[u8]) -> (r: Option<Footer>)
        ensures
            r == (if bytes@.len() < 256 { None } else { Some(Footer::spec_parse(bytes@)) }),
    {
        if bytes.len() < Self::SIZE {
            return None;
        }
        let x = Footer {
            asset_offset: get_u64(bytes, 0),
            page_offset: get_u64(bytes, 8),
            section_offset: get_u64(bytes, 16),
            meta_offset: get_u64(bytes, 24),
            expansion_offset: get_u64(bytes, 32),
            string_pool_offset: get_u64(bytes, 40),
            string_pool_size: get_u64(bytes, 48),
            asset_count: get_u64(bytes, 56),
            page_count: get_u64(bytes, 64),
            section_count: get_u64(bytes, 72),
            meta_count: get_u64(bytes, 80),
            expansion_count: get_u64(bytes, 88),
            flags: get_u32(bytes, 96),
            footer_len: bytes[100],
            padding: [bytes[101], bytes[102], bytes[103]],
            footer_hash: get_u64(bytes, 104),
        };
        assert(x.padding@ =~= bytes@.subrange(101, 104));
        proof {
            lemma_footer_spec_parse(bytes@);
            lemma_footer_parse_unique(x, Footer::spec_parse(bytes@), bytes@);
        }
        Some(x)
    }

    /// Encodes `self` as its 256 bytes.
    pub fn to_bytes(&self) -> (r: [u8; 256])
        ensures
            r@ == self.spec_bytes(),
    {
        let mut bytes = [0u8; 256];
        assert(bytes@ =~= zeros(256));
        put_u64(&mut bytes, 0, self.asset_offset);
        put_u64(&mut bytes, 8, self.page_offset);
        put_u64(&mut bytes, 16, self.section_offset);
        put_u64(&mut bytes, 24, self.meta_offset);
        put_u64(&mut bytes, 32, self.expansion_offset);
        put_u64(&mut bytes, 40, self.string_pool_offset);
        put_u64(&mut bytes, 48, self.string_pool_size);
        put_u64(&mut bytes, 56, self.asset_count);
        put_u64(&mut bytes, 64, self.page_count);
        put_u64(&mut bytes, 72, self.section_count);
        put_u64(&mut bytes, 80, self.meta_count);
        put_u64(&mut bytes, 88, self.expansion_count);
        put_u32(&mut bytes, 96, self.flags);
        bytes[100] = self.footer_len;
        put_bytes(&mut bytes, 101, self.padding.as_slice());
        put_u64(&mut bytes, 104, self.footer_hash);
        proof {
            lemma_le_bytes_lengths();
        }
        assert(bytes@ =~= self.spec_bytes());
        bytes
    }
}

/// Decoding the encoding of a footer record gives the record back.
pub proof fn lemma_footer_roundtrip(x: Footer)
    ensures
        x.spec_bytes().len() == 256,
        x.parsed_from(x.spec_bytes()),
        Footer::spec_parse(x.spec_bytes()) == x,
{
    lemma_le_bytes_roundtrip();
    let s = x.spec_bytes();
    assert(s.subrange(0, 8) =~= spec_u64_to_le_bytes(x.asset_offset));
    assert(s.subrange(8, 16) =~= spec_u64_to_le_bytes(x.page_offset));
    assert(s.subrange(16, 24) =~= spec_u64_to_le_bytes(x.section_offset));
    assert(s.subrange(24, 32) =~= spec_u64_to_le_bytes(x.meta_offset));
    assert(s.subrange(32, 40) =~= spec_u64_to_le_bytes(x.expansion_offset));
    assert(s.subrange(40, 48) =~= spec_u64_to_le_bytes(x.string_pool_offset));
    assert(s.subrange(48, 56) =~= spec_u64_to_le_bytes(x.string_pool_size));
    assert(s.subrange(56, 64) =~= spec_u64_to_le_bytes(x.asset_count));
    assert(s.subrange(64, 72) =~= spec_u64_to_le_bytes(x.page_count));
    assert(s.subrange(72, 80) =~= spec_u64_to_le_bytes(x.section_count));
    assert(s.subrange(80, 88) =~= spec_u64_to_le_bytes(x.meta_count));
    assert(s.subrange(88, 96) =~= spec_u64_to_le_bytes(x.expansion_count));
    assert(s.subrange(96, 100) =~= spec_u32_to_le_bytes(x.flags));
    assert(s[100] == x.footer_len);
    assert(s.subrange(101, 104) =~= x.padding@);
    assert(s.subrange(104, 112) =~= spec_u64_to_le_bytes(x.footer_hash));
    lemma_footer_spec_parse(s);
    lemma_footer_parse_unique(x, Footer::spec_parse(s), s);
}

/// `spec_parse` gives the record that the bytes encode.
pub proof fn lemma_footer_spec_parse(s: Seq<u8>)
    requires
        s.len() >= 256,
    ensures
        Footer::spec_parse(s).parsed_from(s),
{
    assert(Footer::spec_parse(s).padding@ =~= s.subrange(101, 104));
}

/// The bytes of a footer record determine it.
pub proof fn lemma_footer_parse_unique(x: Footer, y: Footer, s: Seq<u8>)
    requires
        x.parsed_from(s),
        y.parsed_from(s),
    ensures
        x == y,
{
    assert(x.padding =~= y.padding);
}

/// Decoding a footer record reads only its first 256 bytes.
pub proof fn lemma_footer_parse_prefix(s: Seq<u8>, t: Seq<u8>)
    requires
        s.len() >= 256,
        t.len() >= 256,
        s.subrange(0, 256) == t.subrange(0, 256),
    ensures
        Footer::spec_parse(s) == Footer::spec_parse(t),
{
    assert forall|i: int| 0 <= i < 256 implies s[i] == t[i] by {
        assert(s.subrange(0, 256)[i] == s[i]);
        assert(t.subrange(0, 256)[i] == t[i]);
        assert(s.subrange(0, 256)[i] == t.subrange(0, 256)[i]);
    }
    assert(s.subrange(0, 8) =~= t.subrange(0, 8));
    assert(s.subrange(8, 16) =~= t.subrange(8, 16));
    assert(s.subrange(16, 24) =~= t.subrange(16, 24));
    assert(s.subrange(24, 32) =~= t.subrange(24, 32));
    assert(s.subrange(32, 40) =~= t.subrange(32, 40));
    assert(s.subrange(40, 48) =~= t.subrange(40, 48));
    assert(s.subrange(48, 56) =~= t.subrange(48, 56));
    assert(s.subrange(56, 64) =~= t.subrange(56, 64));
    assert(s.subrange(64, 72) =~= t.subrange(64, 72));
    assert(s.subrange(72, 80) =~= t.subrange(72, 80));
    assert(s.subrange(80, 88) =~= t.subrange(80, 88));
    assert(s.subrange(88, 96) =~= t.subrange(88, 96));
    assert(s.subrange(96, 100) =~= t.subrange(96, 100));
    assert(s[100] == s.subrange(0, 256)[100]);
    assert(t[100] == t.subrange(0, 256)[100]);
    assert(s.subrange(101, 104) =~= t.subrange(101, 104));
    assert(s.subrange(104, 112) =~= t.subrange(104, 112));
    assert(Footer::spec_parse(s).padding =~= Footer::spec_parse(t).padding);
}

/// Encoding a decoded footer record keeps the bytes of its fields and zeroes the rest.
pub proof fn lemma_footer_reencode(x: Footer, s: Seq<u8>)
    requires
        s.len() >= 256,
        x.parsed_from(s),
    ensures
        x.spec_bytes() == s.subrange(0, 112) + zeros(144),
{
    lemma_le_bytes_roundtrip();
    assert(s.subrange(0, 8).len() == 8);
    assert(s.subrange(8, 16).len() == 8);
    assert(s.subrange(16, 24).len() == 8);
    assert(s.subrange(24, 32).len() == 8);
    assert(s.subrange(32, 40).len() == 8);
    assert(s.subrange(40, 48).len() == 8);
    assert(s.subrange(48, 56).len() == 8);
    assert(s.subrange(56, 64).len() == 8);
    assert(s.subrange(64, 72).len() == 8);
    assert(s.subrange(72, 80).len() == 8);
    assert(s.subrange(80, 88).len() == 8);
    assert(s.subrange(88, 96).len() == 8);
    assert(s.subrange(96, 100).len() == 4);
    assert(s.subrange(104, 112).len() == 8);
    assert(s.subrange(0, 112) =~= s.subrange(0, 8) + s.subrange(8, 16) + s.subrange(16, 24) + s.subrange(24, 32) + s.subrange(32, 40) + s.subrange(40, 48) + s.subrange(48, 56) + s.subrange(56, 64) + s.subrange(64, 72) + s.subrange(72, 80) + s.subrange(80, 88) + s.subrange(88, 96) + s.subrange(96, 100) + s.subrange(100, 101) + s.subrange(101, 104) + s.subrange(104, 112));
    assert(x.spec_bytes() =~= s.subrange(0, 112) + zeros(144));
}

/// One entry of the asset table: where a stored payload lies and its hash.
#[derive(Debug, Clone, Copy)]
pub struct Asset {
    pub file_offset: u64,
    pub asset_hash: [u64; 2],
    pub file_size: u64,
    pub flags: u32,
    pub reserved_value: u16,
    pub asset_type: u8,
}

impl Asset {
    pub const SIZE: usize = 48;

    /// `self` holds the fields that the first 48 bytes of `s` encode.
    pub open spec fn parsed_from(self, s: Seq<u8>) -> bool {
        &&& self.file_offset == u64_at(s, 0)
        &&& self.asset_hash[0] == u64_at(s, 8)
        &&& self.asset_hash[1] == u64_at(s, 16)
        &&& self.file_size == u64_at(s, 24)
        &&& self.flags == u32_at(s, 32)
        &&& self.reserved_value == u16_at(s, 36)
        &&& self.asset_type == s[38]
    }

    /// The record that the first 48 bytes of `s` encode.
    pub open spec fn spec_parse(s: Seq<u8>) -> Asset {
        Asset {
            file_offset: u64_at(s, 0),
            asset_hash: [u64_at(s, 8), u64_at(s, 16)],
            file_size: u64_at(s, 24),
            flags: u32_at(s, 32),
            reserved_value: u16_at(s, 36),
            asset_type: s[38],
        }
    }

    /// The 48 bytes that encode `self`: its fields in order, then zeros.
    pub open spec fn spec_bytes(self) -> Seq<u8> {
        spec_u64_to_le_bytes(self.file_offset)
            + spec_u64_to_le_bytes(self.asset_hash[0]) + spec_u64_to_le_bytes(self.asset_hash[1])
            + spec_u64_to_le_bytes(self.file_size)
            + spec_u32_to_le_bytes(self.flags)
            + spec_u16_to_le_bytes(self.reserved_value)
            + seq![self.asset_type]
            + zeros(9)
    }

    /// Decodes a record from the first 48 bytes; `None` when fewer are given.
    pub fn from_bytes(bytes: &[u8]) -> (r: Option<Asset>)
        ensures
            r == (if bytes@.len() < 48 { None } else { Some(Asset::spec_parse(bytes@)) }),
    {
        if bytes.len() < Self::SIZE {
            return None;
        }
        let x = Asset {
            file_offset: get_u64(bytes, 0),
            asset_hash: [get_u64(bytes, 8), get_u64(bytes, 16)],
            file_size: get_u64(bytes, 24),
            flags: get_u32(bytes, 32),
            reserved_value: get_u16(bytes, 36),
            asset_type: bytes[38],
        };
        proof {
            lemma_asset_spec_parse(bytes@);
            lemma_asset_parse_unique(x, Asset::spec_parse(bytes@), bytes@);
        }
        Some(x)
    }

    /// Encodes `self` as its 48 bytes.
    pub fn to_bytes(&self) -> (r: [u8; 48])
        ensures
            r@ == self.spec_bytes(),
    {
        let mut bytes = [0u8; 48];
        assert(bytes@ =~= zeros(48));
        put_u64(&mut bytes, 0, self.file_offset);
        put_u64(&mut bytes, 8, self.asset_hash[0]);
        put_u64(&mut bytes, 16, self.asset_hash[1]);
        put_u64(&mut bytes, 24, self.file_size);
        put_u32(&mut bytes, 32, self.flags);
        put_u16(&mut bytes, 36, self.reserved_value);
        bytes[38] = self.asset_type;
        proof {
            lemma_le_bytes_lengths();
        }
        assert(bytes@ =~= self.spec_bytes());
        bytes
    }
}

/// Decoding the encoding of an asset record gives the record back.
pub proof fn lemma_asset_roundtrip(x: Asset)
    ensures
        x.spec_bytes().len() == 48,
        x.parsed_from(x.spec_bytes()),
        Asset::spec_parse(x.spec_bytes()) == x,
{
    lemma_le_bytes_roundtrip();
    let s = x.spec_bytes();
    assert(s.subrange(0, 8) =~= spec_u64_to_le_bytes(x.file_offset));
    assert(s.subrange(8, 16) =~= spec_u64_to_le_bytes(x.asset_hash[0]));
    assert(s.subrange(16, 24) =~= spec_u64_to_le_bytes(x.asset_hash[1]));
    assert(s.subrange(24, 32) =~= spec_u64_to_le_bytes(x.file_size));
    assert(s.subrange(32, 36) =~= spec_u32_to_le_bytes(x.flags));
    assert(s.subrange(36, 38) =~= spec_u16_to_le_bytes(x.reserved_value));
    assert(s[38] == x.asset_type);
    lemma_asset_spec_parse(s);
    lemma_asset_parse_unique(x, Asset::spec_parse(s), s);
}

/// `spec_parse` gives the record that the bytes encode.
pub proof fn lemma_asset_spec_parse(s: Seq<u8>)
    requires
        s.len() >= 48,
    ensures
        Asset::spec_parse(s).parsed_from(s),
{
}

/// The bytes of an asset record determine it.
pub proof fn lemma_asset_parse_unique(x: Asset, y: Asset, s: Seq<u8>)
    requires
        x.parsed_from(s),
        y.parsed_from(s),
    ensures
        x == y,
{
    assert(x.asset_hash =~= y.asset_hash);
}

/// Decoding an asset record reads only its first 48 bytes.
pub proof fn lemma_asset_parse_prefix(s: Seq<u8>, t: Seq<u8>)
    requires
        s.len() >= 48,
        t.len() >= 48,
        s.subrange(0, 48) == t.subrange(0, 48),
    ensures
        Asset::spec_parse(s) == Asset::spec_parse(t),
{
    assert forall|i: int| 0 <= i < 48 implies s[i] == t[i] by {
        assert(s.subrange(0, 48)[i] == s[i]);
        assert(t.subrange(0, 48)[i] == t[i]);
        assert(s.subrange(0, 48)[i] == t.subrange(0, 48)[i]);
    }
    assert(s.subrange(0, 8) =~= t.subrange(0, 8));
    assert(s.subrange(8, 16) =~= t.subrange(8, 16));
    assert(s.subrange(16, 24) =~= t.subrange(16, 24));
    assert(s.subrange(24, 32) =~= t.subrange(24, 32));
    assert(s.subrange(32, 36) =~= t.subrange(32, 36));
    assert(s.subrange(36, 38) =~= t.subrange(36, 38));
    assert(s[38] == s.subrange(0, 48)[38]);
    assert(t[38] == t.subrange(0, 48)[38]);
    assert(Asset::spec_parse(s).asset_hash =~= Asset::spec_parse(t).asset_hash);
}

/// Encoding a decoded asset record keeps the bytes of its fields and zeroes the rest.
pub proof fn lemma_asset_reencode(x: Asset, s: Seq<u8>)
    requires
        s.len() >= 48,
        x.parsed_from(s),
    ensures
        x.spec_bytes() == s.subrange(0, 39) + zeros(9),
{
    lemma_le_bytes_roundtrip();
    assert(s.subrange(0, 8).len() == 8);
    assert(s.subrange(8, 16).len() == 8);
    assert(s.subrange(16, 24).len() == 8);
    assert(s.subrange(24, 32).len() == 8);
    assert(s.subrange(32, 36).len() == 4);
    assert(s.subrange(36, 38).len() == 2);
    assert(s.subrange(0, 39) =~= s.subrange(0, 8) + s.subrange(8, 16) + s.subrange(16, 24) + s.subrange(24, 32) + s.subrange(32, 36) + s.subrange(36, 38) + s.subrange(38, 39));
    assert(x.spec_bytes() =~= s.subrange(0, 39) + zeros(9));
}

/// One entry of the page table: the asset that a page shows.
#[derive(Debug, Clone, Copy)]
pub struct Page {
    pub asset_index: u64,
    pub flags: u32,
}

impl Page {
    pub const SIZE: usize = 16;

    /// `self` holds the fields that the first 16 bytes of `s` encode.
    pub open spec fn parsed_from(self, s: Seq<u8>) -> bool {
        &&& self.asset_index == u64_at(s, 0)
        &&& self.flags == u32_at(s, 8)
    }

    /// The record that the first 16 bytes of `s` encode.
    pub open spec fn spec_parse(s: Seq<u8>) -> Page {
        Page {
            asset_index: u64_at(s, 0),
            flags: u32_at(s, 8),
        }
    }

    /// The 16 bytes that encode `self`: its fields in order, then zeros.
    pub open spec fn spec_bytes(self) -> Seq<u8> {
        spec_u64_to_le_bytes(self.asset_index)
            + spec_u32_to_le_bytes(self.flags)
            + zeros(4)
    }

    /// Decodes a record from the first 16 bytes; `None` when fewer are given.
    pub fn from_bytes(bytes: &[u8]) -> (r: Option<Page>)
        ensures
            r == (if bytes@.len() < 16 { None } else { Some(Page::spec_parse(bytes@)) }),
    {
        if bytes.len() < Self::SIZE {
            return None;
        }
        let x = Page {
            asset_index: get_u64(bytes, 0),
            flags: get_u32(bytes, 8),
        };
        proof {
            lemma_page_spec_parse(bytes@);
            lemma_page_parse_unique(x, Page::spec_parse(bytes@), bytes@);
        }
        Some(x)
    }

    /// Encodes `self` as its 16 bytes.
    pub fn to_bytes(&self) -> (r: [u8; 16])
        ensures
            r@ == self.spec_bytes(),
    {
        let mut bytes = [0u8; 16];
        assert(bytes@ =~= zeros(16));
        put_u64(&mut bytes, 0, self.asset_index);
        put_u32(&mut bytes, 8, self.flags);
        proof {
            lemma_le_bytes_lengths();
        }
        assert(bytes@ =~= self.spec_bytes());
        bytes
    }
}

/// Decoding the encoding of a page record gives the record back.
pub proof fn lemma_page_roundtrip(x: Page)
    ensures
        x.spec_bytes().len() == 16,
        x.parsed_from(x.spec_bytes()),
        Page::spec_parse(x.spec_bytes()) == x,
{
    lemma_le_bytes_roundtrip();
    let s = x.spec_bytes();
    assert(s.subrange(0, 8) =~= spec_u64_to_le_bytes(x.asset_index));
    assert(s.subrange(8, 12) =~= spec_u32_to_le_bytes(x.flags));
    lemma_page_spec_parse(s);
    lemma_page_parse_unique(x, Page::spec_parse(s), s);
}

/// `spec_parse` gives the record that the bytes encode.
pub proof fn lemma_page_spec_parse(s: Seq<u8>)
    requires
        s.len() >= 16,
    ensures
        Page::spec_parse(s).parsed_from(s),
{
}

/// The bytes of a page record determine it.
pub proof fn lemma_page_parse_unique(x: Page, y: Page, s: Seq<u8>)
    requires
        x.parsed_from(s),
        y.parsed_from(s),
    ensures
        x == y,
{
}

/// Decoding a page record reads only its first 16 bytes.
pub proof fn lemma_page_parse_prefix(s: Seq<u8>, t: Seq<u8>)
    requires
        s.len() >= 16,
        t.len() >= 16,
        s.subrange(0, 16) == t.subrange(0, 16),
    ensures
        Page::spec_parse(s) == Page::spec_parse(t),
{
    assert forall|i: int| 0 <= i < 16 implies s[i] == t[i] by {
        assert(s.subrange(0, 16)[i] == s[i]);
        assert(t.subrange(0, 16)[i] == t[i]);
        assert(s.subrange(0, 16)[i] == t.subrange(0, 16)[i]);
    }
    assert(s.subrange(0, 8) =~= t.subrange(0, 8));
    assert(s.subrange(8, 12) =~= t.subrange(8, 12));
}

/// Encoding a decoded page record keeps the bytes of its fields and zeroes the rest.
pub proof fn lemma_page_reencode(x: Page, s: Seq<u8>)
    requires
        s.len() >= 16,
        x.parsed_from(s),
    ensures
        x.spec_bytes() == s.subrange(0, 12) + zeros(4),
{
    lemma_le_bytes_roundtrip();
    assert(s.subrange(0, 8).len() == 8);
    assert(s.subrange(8, 12).len() == 4);
    assert(s.subrange(0, 12) =~= s.subrange(0, 8) + s.subrange(8, 12));
    assert(x.spec_bytes() =~= s.subrange(0, 12) + zeros(4));
}

/// One entry of the section table: a titled range of pages.
#[derive(Debug, Clone, Copy)]
pub struct Section {
    pub title_offset: u64,
    pub start_index: u64,
    pub parent_offset: u64,
}

impl Section {
    pub const SIZE: usize = 32;

    /// `self` holds the fields that the first 32 bytes of `s` encode.
    pub open spec fn parsed_from(self, s: Seq<u8>) -> bool {
        &&& self.title_offset == u64_at(s, 0)
        &&& self.start_index == u64_at(s, 8)
        &&& self.parent_offset == u64_at(s, 16)
    }

    /// The record that the first 32 bytes of `s` encode.
    pub open spec fn spec_parse(s: Seq<u8>) -> Section {
        Section {
            title_offset: u64_at(s, 0),
            start_index: u64_at(s, 8),
            parent_offset: u64_at(s, 16),
        }
    }

    /// The 32 bytes that encode `self`: its fields in order, then zeros.
    pub open spec fn spec_bytes(self) -> Seq<u8> {
        spec_u64_to_le_bytes(self.title_offset)
            + spec_u64_to_le_bytes(self.start_index)
            + spec_u64_to_le_bytes(self.parent_offset)
            + zeros(8)
    }

    /// Decodes a record from the first 32 bytes; `None` when fewer are given.
    pub fn from_bytes(bytes: &[u8]) -> (r: Option<Section>)
        ensures
            r == (if bytes@.len() < 32 { None } else { Some(Section::spec_parse(bytes@)) }),
    {
        if bytes.len() < Self::SIZE {
            return None;
        }
        let x = Section {
            title_offset: get_u64(bytes, 0),
            start_index: get_u64(bytes, 8),
            parent_offset: get_u64(bytes, 16),
        };
        proof {
            lemma_section_spec_parse(bytes@);
            lemma_section_parse_unique(x, Section::spec_parse(bytes@), bytes@);
        }
        Some(x)
    }

    /// Encodes `self` as its 32 bytes.
    pub fn to_bytes(&self) -> (r: [u8; 32])
        ensures
            r@ == self.spec_bytes(),
    {
        let mut bytes = [0u8; 32];
        assert(bytes@ =~= zeros(32));
        put_u64(&mut bytes, 0, self.title_offset);
        put_u64(&mut bytes, 8, self.start_index);
        put_u64(&mut bytes, 16, self.parent_offset);
        proof {
            lemma_le_bytes_lengths();
        }
        assert(bytes@ =~= self.spec_bytes());
        bytes
    }
}

/// Decoding the encoding of a section record gives the record back.
pub proof fn lemma_section_roundtrip(x: Section)
    ensures
        x.spec_bytes().len() == 32,
        x.parsed_from(x.spec_bytes()),
        Section::spec_parse(x.spec_bytes()) == x,
{
    lemma_le_bytes_roundtrip();
    let s = x.spec_bytes();
    assert(s.subrange(0, 8) =~= spec_u64_to_le_bytes(x.title_offset));
    assert(s.subrange(8, 16) =~= spec_u64_to_le_bytes(x.start_index));
    assert(s.subrange(16, 24) =~= spec_u64_to_le_bytes(x.parent_offset));
    lemma_section_spec_parse(s);
    lemma_section_parse_unique(x, Section::spec_parse(s), s);
}

/// `spec_parse` gives the record that the bytes encode.
pub proof fn lemma_section_spec_parse(s: Seq<u8>)
    requires
        s.len() >= 32,
    ensures
        Section::spec_parse(s).parsed_from(s),
{
}

/// The bytes of a section record determine it.
pub proof fn lemma_section_parse_unique(x: Section, y: Section, s: Seq<u8>)
    requires
        x.parsed_from(s),
        y.parsed_from(s),
    ensures
        x == y,
{
}

/// Decoding a section record reads only its first 32 bytes.
pub proof fn lemma_section_parse_prefix(s: Seq<u8>, t: Seq<u8>)
    requires
        s.len() >= 32,
        t.len() >= 32,
        s.subrange(0, 32) == t.subrange(0, 32),
    ensures
        Section::spec_parse(s) == Section::spec_parse(t),
{
    assert forall|i: int| 0 <= i < 32 implies s[i] == t[i] by {
        assert(s.subrange(0, 32)[i] == s[i]);
        assert(t.subrange(0, 32)[i] == t[i]);
        assert(s.subrange(0, 32)[i] == t.subrange(0, 32)[i]);
    }
    assert(s.subrange(0, 8) =~= t.subrange(0, 8));
    assert(s.subrange(8, 16) =~= t.subrange(8, 16));
    assert(s.subrange(16, 24) =~= t.subrange(16, 24));
}

/// Encoding a decoded section record keeps the bytes of its fields and zeroes the rest.
pub proof fn lemma_section_reencode(x: Section, s: Seq<u8>)
    requires
        s.len() >= 32,
        x.parsed_from(s),
    ensures
        x.spec_bytes() == s.subrange(0, 24) + zeros(8),
{
    lemma_le_bytes_roundtrip();
    assert(s.subrange(0, 8).len() == 8);
    assert(s.subrange(8, 16).len() == 8);
    assert(s.subrange(16, 24).len() == 8);
    assert(s.subrange(0, 24) =~= s.subrange(0, 8) + s.subrange(8, 16) + s.subrange(16, 24));
    assert(x.spec_bytes() =~= s.subrange(0, 24) + zeros(8));
}

/// One entry of the metadata table: a key, a value and an optional parent.
#[derive(Debug, Clone, Copy)]
pub struct Meta {
    pub key_offset: u64,
    pub value_offset: u64,
    pub parent_offset: u64,
}

impl Meta {
    pub const SIZE: usize = 32;

    /// `self` holds the fields that the first 32 bytes of `s` encode.
    pub open spec fn parsed_from(self, s: Seq<u8>) -> bool {
        &&& self.key_offset == u64_at(s, 0)
        &&& self.value_offset == u64_at(s, 8)
        &&& self.parent_offset == u64_at(s, 16)
    }

    /// The record that the first 32 bytes of `s` encode.
    pub open spec fn spec_parse(s: Seq<u8>) -> Meta {
        Meta {
            key_offset: u64_at(s, 0),
            value_offset: u64_at(s, 8),
            parent_offset: u64_at(s, 16),
        }
    }

    /// The 32 bytes that encode `self`: its fields in order, then zeros.
    pub open spec fn spec_bytes(self) -> Seq<u8> {
        spec_u64_to_le_bytes(self.key_offset)
            + spec_u64_to_le_bytes(self.value_offset)
            + spec_u64_to_le_bytes(self.parent_offset)
            + zeros(8)
    }

    /// Decodes a record from the first 32 bytes; `None` when fewer are given.
    pub fn from_bytes(bytes: &[u8]) -> (r: Option<Meta>)
        ensures
            r == (if bytes@.len() < 32 { None } else { Some(Meta::spec_parse(bytes@)) }),
    {
        if bytes.len() < Self::SIZE {
            return None;
        }
        let x = Meta {
            key_offset: get_u64(bytes, 0),
            value_offset: get_u64(bytes, 8),
            parent_offset: get_u64(bytes, 16),
        };
        proof {
            lemma_meta_spec_parse(bytes@);
            lemma_meta_parse_unique(x, Meta::spec_parse(bytes@), bytes@);
        }
        Some(x)
    }

    /// Encodes `self` as its 32 bytes.
    pub fn to_bytes(&self) -> (r: [u8; 32])
        ensures
            r@ == self.spec_bytes(),
    {
        let mut bytes = [0u8; 32];
        assert(bytes@ =~= zeros(32));
        put_u64(&mut bytes, 0, self.key_offset);
        put_u64(&mut bytes, 8, self.value_offset);
        put_u64(&mut bytes, 16, self.parent_offset);
        proof {
            lemma_le_bytes_lengths();
        }
        assert(bytes@ =~= self.spec_bytes());
        bytes
    }
}

/// Decoding the encoding of a meta record gives the record back.
pub proof fn lemma_meta_roundtrip(x: Meta)
    ensures
        x.spec_bytes().len() == 32,
        x.parsed_from(x.spec_bytes()),
        Meta::spec_parse(x.spec_bytes()) == x,
{
    lemma_le_bytes_roundtrip();
    let s = x.spec_bytes();
    assert(s.subrange(0, 8) =~= spec_u64_to_le_bytes(x.key_offset));
    assert(s.subrange(8, 16) =~= spec_u64_to_le_bytes(x.value_offset));
    assert(s.subrange(16, 24) =~= spec_u64_to_le_bytes(x.parent_offset));
    lemma_meta_spec_parse(s);
    lemma_meta_parse_unique(x, Meta::spec_parse(s), s);
}

/// `spec_parse` gives the record that the bytes encode.
pub proof fn lemma_meta_spec_parse(s: Seq<u8>)
    requires
        s.len() >= 32,
    ensures
        Meta::spec_parse(s).parsed_from(s),
{
}

/// The bytes of a meta record determine it.
pub proof fn lemma_meta_parse_unique(x: Meta, y: Meta, s: Seq<u8>)
    requires
        x.parsed_from(s),
        y.parsed_from(s),
    ensures
        x == y,
{
}

/// Decoding a meta record reads only its first 32 bytes.
pub proof fn lemma_meta_parse_prefix(s: Seq<u8>, t: Seq<u8>)
    requires
        s.len() >= 32,
        t.len() >= 32,
        s.subrange(0, 32) == t.subrange(0, 32),
    ensures
        Meta::spec_parse(s) == Meta::spec_parse(t),
{
    assert forall|i: int| 0 <= i < 32 implies s[i] == t[i] by {
        assert(s.subrange(0, 32)[i] == s[i]);
        assert(t.subrange(0, 32)[i] == t[i]);
        assert(s.subrange(0, 32)[i] == t.subrange(0, 32)[i]);
    }
    assert(s.subrange(0, 8) =~= t.subrange(0, 8));
    assert(s.subrange(8, 16) =~= t.subrange(8, 16));
    assert(s.subrange(16, 24) =~= t.subrange(16, 24));
}

/// Encoding a decoded meta record keeps the bytes of its fields and zeroes the rest.
pub proof fn lemma_meta_reencode(x: Meta, s: Seq<u8>)
    requires
        s.len() >= 32,
        x.parsed_from(s),
    ensures
        x.spec_bytes() == s.subrange(0, 24) + zeros(8),
{
    lemma_le_bytes_roundtrip();
    assert(s.subrange(0, 8).len() == 8);
    assert(s.subrange(8, 16).len() == 8);
    assert(s.subrange(16, 24).len() == 8);
    assert(s.subrange(0, 24) =~= s.subrange(0, 8) + s.subrange(8, 16) + s.subrange(16, 24));
    assert(x.spec_bytes() =~= s.subrange(0, 24) + zeros(8));
}

/// Every record encodes to its size.
pub proof fn lemma_asset_lengths()
    ensures
        forall|x: Asset| #[trigger] x.spec_bytes().len() == 48,
        forall|x: Page| #[trigger] x.spec_bytes().len() == 16,
        forall|x: Section| #[trigger] x.spec_bytes().len() == 32,
        forall|x: Meta| #[trigger] x.spec_bytes().len() == 32,
        forall|x: Header| #[trigger] x.spec_bytes().len() == 64,
        forall|x: Footer| #[trigger] x.spec_bytes().len() == 256,
{
    lemma_le_bytes_lengths();
}

impl Asset {
    /// The 16 bytes of the payload hash: the low half, then the high half, little-endian.
    pub fn hash_bytes(&self) -> (r: [u8; 16])
        ensures
            r@ == spec_u64_to_le_bytes(self.asset_hash[0]) + spec_u64_to_le_bytes(self.asset_hash[1]),
    {
        let mut bytes = [0u8; 16];
        put_u64(&mut bytes, 0, self.asset_hash[0]);
        put_u64(&mut bytes, 8, self.asset_hash[1]);
        proof {
            lemma_le_bytes_lengths();
        }
        assert(bytes@ =~= spec_u64_to_le_bytes(self.asset_hash[0]) + spec_u64_to_le_bytes(
            self.asset_hash[1],
        ));
        bytes
    }

    /// Whether the entry records `hash`: its low half first, then its high half.
    pub fn hash_matches(&self, hash: u128) -> (r: bool)
        ensures
            r == (self.asset_hash[0] == low64(hash) && self.asset_hash[1] == high64(hash)),
    {
        let (low, high) = split_hash(hash);
        self.asset_hash[0] == low && self.asset_hash[1] == high
    }
}

} // verus!
