//! Reading a container held in memory: header and footer, table entries, strings, payloads.
use crate::bbf::bytes::{u16_at, u64_at};
use crate::bbf::error::{BbfError, Table};
use crate::bbf::hash::{high64, low64, xxh3_128, xxh3_128_of, xxh3_64, xxh3_64_of};
use crate::bbf::types::{
    lemma_header_spec_parse, Asset, Footer, Header, Meta, Page, Section,
    MAX_FORME_SIZE, NULL_OFFSET, VERSION,
};
use vstd::prelude::*;

verus! {

/// The bytes `BBF3` that open every container.
pub open spec fn bbf3_magic() -> Seq<u8> {
    seq![0x42u8, 0x42u8, 0x46u8, 0x33u8]
}

/// Why bytes `s` are not a container that can be opened, if they are not.
pub open spec fn spec_open_error(s: Seq<u8>) -> Option<BbfError> {
    if s.len() < 320 {
        Some(BbfError::ContainerTooSmall)
    } else if s.subrange(0, 4) != bbf3_magic() {
        Some(BbfError::InvalidMagic)
    } else if u16_at(s, 4) != VERSION {
        Some(BbfError::UnsupportedVersion(u16_at(s, 4)))
    } else if u64_at(s, 16) + 256 > s.len() {
        Some(BbfError::FooterOutOfBounds)
    } else {
        None
    }
}

/// Opening `s` would compute a footer end past 2^64.
pub open spec fn spec_open_overflows(s: Seq<u8>) -> bool {
    &&& s.len() >= 320
    &&& s.subrange(0, 4) == bbf3_magic()
    &&& u16_at(s, 4) == VERSION
    &&& u64_at(s, 16) + 256 > u64::MAX
}

/// The footer of a container `s` whose header has been checked.
pub open spec fn spec_footer_of(s: Seq<u8>) -> Footer {
    let fo = u64_at(s, 16) as int;
    Footer::spec_parse(s.subrange(fo, fo + 256))
}

/// Where entry `index` of a table starts, or why it cannot be read.
pub open spec fn spec_entry_start(
    table_offset: u64,
    count: u64,
    index: u64,
    size: nat,
    len: nat,
    table: Table,
) -> Result<int, BbfError> {
    if index >= count {
        Err(BbfError::IndexOutOfBounds(table, index))
    } else if table_offset + index * size > u64::MAX {
        Err(BbfError::OffsetOverflow(table))
    } else if table_offset + index * size + size > len {
        Err(BbfError::EntryOutOfBounds(table))
    } else {
        Ok(table_offset + index * size)
    }
}

/// `w[p]` is the first zero byte of `w`.
pub open spec fn first_zero_at(w: Seq<u8>, p: int) -> bool {
    &&& 0 <= p < w.len()
    &&& w[p] == 0
    &&& forall|i: int| 0 <= i < p ==> w[i] != 0
}

/// The bytes of `w` before its first zero byte, if it has one.
pub open spec fn zero_terminated(w: Seq<u8>) -> Option<Seq<u8>> {
    if exists|p: int| first_zero_at(w, p) {
        Some(w.subrange(0, choose|p: int| first_zero_at(w, p)))
    } else {
        None
    }
}

/// A first zero byte at `i` ends the string at `i`.
pub proof fn lemma_zero_terminated(w: Seq<u8>, i: int)
    requires
        first_zero_at(w, i),
    ensures
        zero_terminated(w) == Some(w.subrange(0, i)),
{
    let p = choose|p: int| first_zero_at(w, p);
    assert(p == i) by {
        if p < i {
            assert(w[p] != 0);
        } else if p > i {
            assert(w[i] != 0);
        }
    }
}

/// The bytes of the string at `offset` of the pool, or why they cannot be found.
pub open spec fn spec_string_bytes(s: Seq<u8>, f: Footer, offset: u64) -> Result<Seq<u8>, BbfError> {
    let start = f.string_pool_offset + offset;
    let pool_end = f.string_pool_offset + f.string_pool_size;
    if offset == NULL_OFFSET {
        Err(BbfError::NullString)
    } else if offset >= f.string_pool_size {
        Err(BbfError::StringOffsetOutOfPool { offset, pool_size: f.string_pool_size })
    } else if start > u64::MAX {
        Err(BbfError::StringOffsetOverflow)
    } else if pool_end > u64::MAX {
        Err(BbfError::StringPoolEndOverflow)
    } else if pool_end > usize::MAX {
        Err(BbfError::StringPoolEndTooLarge)
    } else if start >= s.len() {
        Err(BbfError::StringOutOfFile)
    } else {
        let scan_end = if start + MAX_FORME_SIZE < pool_end {
            start + MAX_FORME_SIZE
        } else {
            pool_end
        };
        match zero_terminated(s.subrange(start, scan_end)) {
            Some(b) => Ok(b),
            None => Err(BbfError::UnterminatedString),
        }
    }
}

/// Reading the string at `offset` would scan past the end of the bytes or of the address
/// space.
pub open spec fn spec_string_scan_overruns(s: Seq<u8>, f: Footer, offset: u64) -> bool {
    let start = f.string_pool_offset + offset;
    let pool_end = f.string_pool_offset + f.string_pool_size;
    &&& offset != NULL_OFFSET
    &&& offset < f.string_pool_size
    &&& pool_end <= usize::MAX
    &&& start < s.len()
    &&& (start + MAX_FORME_SIZE > usize::MAX || (if start + MAX_FORME_SIZE < pool_end {
        start + MAX_FORME_SIZE
    } else {
        pool_end
    }) > s.len())
}

/// The string that UTF-8 bytes `b` encode, or why there is none.
pub open spec fn spec_decode_string(r: Result<Seq<u8>, BbfError>) -> Result<Seq<char>, BbfError> {
    match r {
        Ok(b) => if vstd::utf8::valid_utf8(b) {
            Ok(vstd::utf8::decode_utf8(b))
        } else {
            Err(BbfError::InvalidUtf8)
        },
        Err(e) => Err(e),
    }
}

/// Calls `String::from_utf8`. Trusted: std documents that it succeeds exactly on valid
/// UTF-8 and that the string then holds those bytes.
#[verifier::external_body]
fn string_from_utf8(bytes: Vec<u8>) -> (r: Option<String>)
    ensures
        r is Some <==> vstd::utf8::valid_utf8(bytes@),
        r matches Some(st) ==> st@ == vstd::utf8::decode_utf8(bytes@),
{
    String::from_utf8(bytes).ok()
}

/// Whether opening `bytes` would compute a footer end past 2^64, as `spec_open_overflows`
/// states it.
pub fn open_overflows(bytes: &[u8]) -> (r: bool)
    ensures
        r == spec_open_overflows(bytes@),
{
    if bytes.len() < 320 {
        return false;
    }
    let magic_ok = bytes[0] == 0x42 && bytes[1] == 0x42 && bytes[2] == 0x46 && bytes[3] == 0x33;
    proof {
        if bytes@.subrange(0, 4) == bbf3_magic() {
            assert(bytes@.subrange(0, 4)[0] == bytes@[0]);
            assert(bytes@.subrange(0, 4)[1] == bytes@[1]);
            assert(bytes@.subrange(0, 4)[2] == bytes@[2]);
            assert(bytes@.subrange(0, 4)[3] == bytes@[3]);
        }
        if magic_ok {
            assert(bytes@.subrange(0, 4) =~= bbf3_magic());
        }
    }
    if !magic_ok {
        return false;
    }
    if crate::bbf::bytes::get_u16(bytes, 4) != VERSION {
        return false;
    }
    crate::bbf::bytes::get_u64(bytes, 16) > u64::MAX - 256
}

/// How many payload bytes a copy into a buffer of `capacity` bytes at `offset` takes, at
/// most `len`: `Err(-5)` for a negative offset or length, `Err(-6)` when the copy would end
/// past the buffer.
pub fn direct_copy_len(data_len: usize, capacity: usize, offset: i32, len: i32) -> (r: Result<
    usize,
    i32,
>)
    requires
        offset >= 0 && len >= 0 ==> offset + len <= usize::MAX,
    ensures
        (offset < 0 || len < 0) ==> r == Err::<usize, i32>(-5i32),
        (offset >= 0 && len >= 0) ==> {
            let n = if len < data_len {
                len as int
            } else {
                data_len as int
            };
            &&& offset + n > capacity ==> r == Err::<usize, i32>(-6i32)
            &&& offset + n <= capacity ==> r == Ok::<usize, i32>(n as usize)
        },
{
    if offset < 0 || len < 0 {
        return Err(-5);
    }
    let dest_offset = offset as usize;
    let read_len = if (len as usize) < data_len {
        len as usize
    } else {
        data_len
    };
    if dest_offset + read_len > capacity {
        return Err(-6);
    }
    Ok(read_len)
}

/// Where the bytes of a reader come from.
pub enum ReaderSource {
    Bytes(Vec<u8>),
}

impl View for ReaderSource {
    type V = Seq<u8>;

    open spec fn view(&self) -> Seq<u8> {
        match self {
            ReaderSource::Bytes(b) => b@,
        }
    }
}

impl ReaderSource {
    /// The bytes of the source.
    pub fn as_ref(&self) -> (r: &[u8])
        ensures
            r@ == self@,
    {
        match self {
            ReaderSource::Bytes(b) => b.as_slice(),
        }
    }
}

/// A container opened for reading.
pub struct Reader {
    pub source: ReaderSource,
    pub header: Header,
    pub footer: Footer,
}

impl Reader {
    /// The header and footer are those that the bytes hold, and the bytes open.
    pub open spec fn wf(&self) -> bool {
        &&& spec_open_error(self.source@) is None
        &&& self.header == Header::spec_parse(self.source@)
        &&& self.footer == spec_footer_of(self.source@)
    }

    /// Opens a container held in memory.
    pub fn new(bytes: Vec<u8>) -> (r: Result<Reader, BbfError>)
        requires
            !spec_open_overflows(bytes@),
        ensures
            match r {
                Ok(rd) => spec_open_error(bytes@) is None && rd.source@ == bytes@ && rd.wf(),
                Err(e) => spec_open_error(bytes@) == Some(e),
            },
    {
        if bytes.len() < Header::SIZE + Footer::SIZE {
            return Err(BbfError::ContainerTooSmall);
        }
        Self::new_from_source(ReaderSource::Bytes(bytes))
    }

    fn new_from_source(source: ReaderSource) -> (r: Result<Reader, BbfError>)
        requires
            source@.len() >= 320,
            !spec_open_overflows(source@),
        ensures
            match r {
                Ok(rd) => spec_open_error(source@) is None && rd.source@ == source@ && rd.wf(),
                Err(e) => spec_open_error(source@) == Some(e),
            },
    {
        let bytes = source.as_ref();
        let header = match Header::from_bytes(&bytes[0..Header::SIZE]) {
            Some(h) => h,
            None => return Err(BbfError::ContainerTooSmall),
        };
        proof {
            assert(bytes@.subrange(0, 64).subrange(0, 4) =~= bytes@.subrange(0, 4));
            assert(bytes@.subrange(0, 64).subrange(4, 6) =~= bytes@.subrange(4, 6));
            assert(bytes@.subrange(0, 64).subrange(6, 8) =~= bytes@.subrange(6, 8));
            assert(bytes@.subrange(0, 64).subrange(8, 12) =~= bytes@.subrange(8, 12));
            assert(bytes@.subrange(0, 64).subrange(14, 16) =~= bytes@.subrange(14, 16));
            assert(bytes@.subrange(0, 64).subrange(16, 24) =~= bytes@.subrange(16, 24));
            lemma_header_spec_parse(bytes@);
            assert(header == Header::spec_parse(bytes@));
        }
        if !(header.magic[0] == 0x42 && header.magic[1] == 0x42 && header.magic[2] == 0x46
            && header.magic[3] == 0x33) {
            proof {
                assert(header.magic@ =~= bytes@.subrange(0, 4));
                if bytes@.subrange(0, 4) == bbf3_magic() {
                    assert(header.magic@[0] == 0x42);
                }
            }
            return Err(BbfError::InvalidMagic);
        }
        assert(bytes@.subrange(0, 4) =~= bbf3_magic());
        if header.version != VERSION {
            return Err(BbfError::UnsupportedVersion(header.version));
        }
        let footer_offset = header.footer_offset;
        let len: usize = bytes.len();
        if footer_offset + Footer::SIZE as u64 > len as u64 {
            return Err(BbfError::FooterOutOfBounds);
        }
        let fo = footer_offset as usize;
        let footer = match Footer::from_bytes(&bytes[fo..fo + Footer::SIZE]) {
            Some(f) => f,
            None => return Err(BbfError::FooterOutOfBounds),
        };
        Ok(Reader { source, header, footer })
    }

    /// Whether `size` bytes from `offset` lie within the bytes.
    pub fn is_safe(&self, offset: u64, size: u64) -> (r: bool)
        ensures
            r == (offset + size <= self.source@.len()),
    {
        let file_size = self.source.as_ref().len() as u64;
        match offset.checked_add(size) {
            Some(end) => end <= file_size,
            None => false,
        }
    }

    fn entry_start(&self, table_offset: u64, count: u64, index: u64, size: u64, table: Table) -> (r:
        Result<usize, BbfError>)
        requires
            1 <= size <= 48,
        ensures
            match spec_entry_start(
                table_offset,
                count,
                index,
                size as nat,
                self.source@.len(),
                table,
            ) {
                Ok(o) => r == Ok::<usize, BbfError>(o as usize) && o + size <= self.source@.len(),
                Err(e) => r == Err::<usize, BbfError>(e),
            },
            r matches Ok(o) ==> o + size <= self.source@.len(),
    {
        if index >= count {
            return Err(BbfError::IndexOutOfBounds(table, index));
        }
        let offset = match index.checked_mul(size) {
            Some(o) => match table_offset.checked_add(o) {
                Some(p) => p,
                None => return Err(BbfError::OffsetOverflow(table)),
            },
            None => {
                assert(index * size > u64::MAX);
                assert(table_offset + index * size > u64::MAX);
                return Err(BbfError::OffsetOverflow(table));
            },
        };
        if !self.is_safe(offset, size) {
            return Err(BbfError::EntryOutOfBounds(table));
        }
        Ok(offset as usize)
    }

    /// The asset entry `index`, as `get_asset` reads it.
    pub open spec fn spec_get_asset(&self, index: u64) -> Result<Asset, BbfError> {
        match spec_entry_start(
            self.footer.asset_offset,
            self.footer.asset_count,
            index,
            48,
            self.source@.len(),
            Table::Asset,
        ) {
            Ok(o) => Ok(Asset::spec_parse(self.source@.subrange(o, o + 48))),
            Err(e) => Err(e),
        }
    }

    /// The page entry `index`, as `get_page` reads it.
    pub open spec fn spec_get_page(&self, index: u64) -> Result<Page, BbfError> {
        match spec_entry_start(
            self.footer.page_offset,
            self.footer.page_count,
            index,
            16,
            self.source@.len(),
            Table::Page,
        ) {
            Ok(o) => Ok(Page::spec_parse(self.source@.subrange(o, o + 16))),
            Err(e) => Err(e),
        }
    }

    /// The section entry `index`, as `get_section` reads it.
    pub open spec fn spec_get_section(&self, index: u64) -> Result<Section, BbfError> {
        match spec_entry_start(
            self.footer.section_offset,
            self.footer.section_count,
            index,
            32,
            self.source@.len(),
            Table::Section,
        ) {
            Ok(o) => Ok(Section::spec_parse(self.source@.subrange(o, o + 32))),
            Err(e) => Err(e),
        }
    }

    /// The metadata entry `index`, as `get_meta` reads it.
    pub open spec fn spec_get_meta(&self, index: u64) -> Result<Meta, BbfError> {
        match spec_entry_start(
            self.footer.meta_offset,
            self.footer.meta_count,
            index,
            32,
            self.source@.len(),
            Table::Meta,
        ) {
            Ok(o) => Ok(Meta::spec_parse(self.source@.subrange(o, o + 32))),
            Err(e) => Err(e),
        }
    }

    /// Reads entry `index` of the asset table.
    pub fn get_asset(&self, index: u64) -> (r: Result<Asset, BbfError>)
        ensures
            r == self.spec_get_asset(index),
    {
        let start = match self.entry_start(
            self.footer.asset_offset,
            self.footer.asset_count,
            index,
            48,
            Table::Asset,
        ) {
            Ok(o) => o,
            Err(e) => return Err(e),
        };
        let bytes = self.source.as_ref();
        let n: usize = bytes.len();
        match Asset::from_bytes(&bytes[start..start + Asset::SIZE]) {
            Some(a) => Ok(a),
            None => Err(BbfError::EntryOutOfBounds(Table::Asset)),
        }
    }

    /// Reads entry `index` of the page table.
    pub fn get_page(&self, index: u64) -> (r: Result<Page, BbfError>)
        ensures
            r == self.spec_get_page(index),
    {
        let start = match self.entry_start(
            self.footer.page_offset,
            self.footer.page_count,
            index,
            16,
            Table::Page,
        ) {
            Ok(o) => o,
            Err(e) => return Err(e),
        };
        let bytes = self.source.as_ref();
        let n: usize = bytes.len();
        match Page::from_bytes(&bytes[start..start + Page::SIZE]) {
            Some(p) => Ok(p),
            None => Err(BbfError::EntryOutOfBounds(Table::Page)),
        }
    }

    /// Reads entry `index` of the section table.
    pub fn get_section(&self, index: u64) -> (r: Result<Section, BbfError>)
        ensures
            r == self.spec_get_section(index),
    {
        let start = match self.entry_start(
            self.footer.section_offset,
            self.footer.section_count,
            index,
            32,
            Table::Section,
        ) {
            Ok(o) => o,
            Err(e) => return Err(e),
        };
        let bytes = self.source.as_ref();
        let n: usize = bytes.len();
        match Section::from_bytes(&bytes[start..start + Section::SIZE]) {
            Some(s) => Ok(s),
            None => Err(BbfError::EntryOutOfBounds(Table::Section)),
        }
    }

    /// Reads entry `index` of the metadata table.
    pub fn get_meta(&self, index: u64) -> (r: Result<Meta, BbfError>)
        ensures
            r == self.spec_get_meta(index),
    {
        let start = match self.entry_start(
            self.footer.meta_offset,
            self.footer.meta_count,
            index,
            32,
            Table::Meta,
        ) {
            Ok(o) => o,
            Err(e) => return Err(e),
        };
        let bytes = self.source.as_ref();
        let n: usize = bytes.len();
        match Meta::from_bytes(&bytes[start..start + Meta::SIZE]) {
            Some(m) => Ok(m),
            None => Err(BbfError::EntryOutOfBounds(Table::Meta)),
        }
    }

    /// Reads the zero-terminated UTF-8 string at `offset` of the string pool.
    pub fn get_string(&self, offset: u64) -> (r: Result<String, BbfError>)
        requires
            !spec_string_scan_overruns(self.source@, self.footer, offset),
        ensures
            match spec_decode_string(spec_string_bytes(self.source@, self.footer, offset)) {
                Ok(chars) => r matches Ok(st) && st@ == chars,
                Err(e) => r == Err::<String, BbfError>(e),
            },
    {
        if offset == NULL_OFFSET {
            return Err(BbfError::NullString);
        }
        let pool_offset = self.footer.string_pool_offset;
        let pool_size = self.footer.string_pool_size;
        if offset >= pool_size {
            return Err(BbfError::StringOffsetOutOfPool { offset, pool_size });
        }
        let abs_start = match pool_offset.checked_add(offset) {
            Some(v) => v,
            None => return Err(BbfError::StringOffsetOverflow),
        };
        let file_bytes = self.source.as_ref();
        let len: usize = file_bytes.len();
        let pool_end = match pool_offset.checked_add(pool_size) {
            Some(v) => v,
            None => return Err(BbfError::StringPoolEndOverflow),
        };
        if pool_end > usize::MAX as u64 {
            return Err(BbfError::StringPoolEndTooLarge);
        }
        let abs_end_limit = pool_end as usize;
        let start = abs_start as usize;
        if start >= len {
            return Err(BbfError::StringOutOfFile);
        }
        let scan_end = if start + MAX_FORME_SIZE < abs_end_limit {
            start + MAX_FORME_SIZE
        } else {
            abs_end_limit
        };
        let slice = &file_bytes[start..scan_end];
        let ghost w = slice@;
        let mut i: usize = 0;
        while i < slice.len() && slice[i] != 0
            invariant
                i <= slice@.len(),
                forall|j: int| 0 <= j < i ==> slice@[j] != 0,
            decreases slice@.len() - i,
        {
            i = i + 1;
        }
        if i < slice.len() {
            proof {
                lemma_zero_terminated(w, i as int);
            }
            let str_bytes = vstd::slice::slice_to_vec(&slice[0..i]);
            assert(str_bytes@ == w.subrange(0, i as int));
            match string_from_utf8(str_bytes) {
                Some(st) => Ok(st),
                None => Err(BbfError::InvalidUtf8),
            }
        } else {
            proof {
                assert forall|p: int| !first_zero_at(w, p) by {
                    if first_zero_at(w, p) {
                        assert(w[p] != 0);
                    }
                }
            }
            Err(BbfError::UnterminatedString)
        }
    }

    /// Reads the string at `parent_offset`, or the empty string where the offset stands for
    /// "no parent".
    pub fn get_parent_string(&self, parent_offset: u64) -> (r: Result<String, BbfError>)
        requires
            !spec_string_scan_overruns(self.source@, self.footer, parent_offset),
        ensures
            parent_offset == NULL_OFFSET ==> (r matches Ok(st) && st@ == Seq::<char>::empty()),
            parent_offset != NULL_OFFSET ==> match spec_decode_string(
                spec_string_bytes(self.source@, self.footer, parent_offset),
            ) {
                Ok(chars) => r matches Ok(st) && st@ == chars,
                Err(e) => r == Err::<String, BbfError>(e),
            },
    {
        if parent_offset == NULL_OFFSET {
            Ok(String::new())
        } else {
            self.get_string(parent_offset)
        }
    }

    /// The payload bytes of `asset`.
    pub fn get_asset_data(&self, asset: &Asset) -> (r: Result<&[u8], BbfError>)
        ensures
            asset.file_offset + asset.file_size <= self.source@.len() ==> (r matches Ok(d) && d@
                == self.source@.subrange(
                asset.file_offset as int,
                asset.file_offset + asset.file_size,
            )),
            asset.file_offset + asset.file_size > self.source@.len() ==> r
                == Err::<&[u8], BbfError>(BbfError::AssetDataOutOfBounds),
    {
        if !self.is_safe(asset.file_offset, asset.file_size) {
            return Err(BbfError::AssetDataOutOfBounds);
        }
        let bytes = self.source.as_ref();
        let len: usize = bytes.len();
        let start = asset.file_offset as usize;
        let end = start + asset.file_size as usize;
        Ok(&bytes[start..end])
    }

    /// Whether the bytes from the asset table to the end of the string pool lie within
    /// the container and hash to the footer's index hash.
    pub open spec fn spec_footer_hash_ok(&self) -> bool {
        let start = self.footer.asset_offset;
        let end = self.footer.string_pool_offset + self.footer.string_pool_size;
        &&& start <= usize::MAX
        &&& end <= u64::MAX
        &&& end <= usize::MAX
        &&& start <= self.source@.len()
        &&& end <= self.source@.len()
        &&& start <= end
        &&& xxh3_64_of(self.source@.subrange(start as int, end)) == self.footer.footer_hash
    }

    /// Checks the index region against the footer's hash.
    pub fn verify_footer_hash(&self) -> (r: bool)
        ensures
            r == self.spec_footer_hash_ok(),
    {
        if self.footer.asset_offset > usize::MAX as u64 {
            return false;
        }
        let index_start = self.footer.asset_offset as usize;
        let index_end_val = match self.footer.string_pool_offset.checked_add(
            self.footer.string_pool_size,
        ) {
            Some(end) => end,
            None => return false,
        };
        if index_end_val > usize::MAX as u64 {
            return false;
        }
        let index_end = index_end_val as usize;
        let bytes = self.source.as_ref();
        if index_start > bytes.len() || index_end > bytes.len() || index_start > index_end {
            return false;
        }
        let calculated = xxh3_64(&bytes[index_start..index_end]);
        calculated == self.footer.footer_hash
    }

    /// Whether asset `index` can be read and its payload hashes to the hash it records.
    pub open spec fn spec_asset_hash_ok(&self, index: u64) -> bool {
        match self.spec_get_asset(index) {
            Ok(a) => {
                &&& a.file_offset + a.file_size <= self.source@.len()
                &&& low64(
                    xxh3_128_of(
                        self.source@.subrange(a.file_offset as int, a.file_offset + a.file_size),
                    ),
                ) == a.asset_hash[0]
                &&& high64(
                    xxh3_128_of(
                        self.source@.subrange(a.file_offset as int, a.file_offset + a.file_size),
                    ),
                ) == a.asset_hash[1]
            },
            Err(_) => false,
        }
    }

    /// Checks the payload of asset `index` against the hash its entry records.
    pub fn verify_asset_hash(&self, index: u64) -> (r: bool)
        ensures
            r == self.spec_asset_hash_ok(index),
    {
        if let Ok(asset) = self.get_asset(index) {
            if let Ok(data) = self.get_asset_data(&asset) {
                let hash = xxh3_128(data);
                return asset.hash_matches(hash);
            }
        }
        false
    }

    /// Whether reading the string at `offset` would scan past the end of the bytes or of
    /// the address space, as `spec_string_scan_overruns` states it.
    pub fn string_scan_overruns(&self, offset: u64) -> (r: bool)
        ensures
            r == spec_string_scan_overruns(self.source@, self.footer, offset),
    {
        let pool_offset = self.footer.string_pool_offset;
        let pool_size = self.footer.string_pool_size;
        if offset == NULL_OFFSET || offset >= pool_size {
            return false;
        }
        let pool_end = match pool_offset.checked_add(pool_size) {
            Some(v) => v,
            None => return false,
        };
        if pool_end > usize::MAX as u64 {
            return false;
        }
        let len: usize = self.source.as_ref().len();
        let start = pool_offset + offset;
        if start >= len as u64 {
            return false;
        }
        let start = start as usize;
        if start > usize::MAX - MAX_FORME_SIZE {
            return true;
        }
        let scan_end = if start + MAX_FORME_SIZE < pool_end as usize {
            start + MAX_FORME_SIZE
        } else {
            pool_end as usize
        };
        scan_end > len
    }
}

} // verus!
