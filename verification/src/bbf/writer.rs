//! Building a container: payloads with deduplication, strings, tables, footer and header.
use crate::bbf::bytes::{concat_entries, lemma_concat_entries_step, zeros};
use crate::bbf::error::BbfError;
use crate::bbf::hash::{high64, low64, split_hash, xxh3_128, xxh3_128_of, xxh3_64, xxh3_64_of};
use crate::bbf::types::{
    Asset, Footer, Header, Meta, Page, Section, BBF_VARIABLE_REAM_SIZE_FLAG, NULL_OFFSET, VERSION,
};
use vstd::arithmetic::power2::pow2;
use std::collections::HashMap;
use vstd::prelude::*;
use vstd::string::StringSliceAdditionalSpecFns;

verus! {

broadcast use vstd::std_specs::hash::group_hash_axioms;

/// Appends `s` to `v`.
pub fn append_bytes(v: &mut Vec<u8>, s: &[u8])
    ensures
        final(v)@ == old(v)@ + s@,
{
    let ghost start = v@;
    let mut k: usize = 0;
    while k < s.len()
        invariant
            k <= s@.len(),
            v@ == start + s@.subrange(0, k as int),
        decreases s@.len() - k,
    {
        v.push(s[k]);
        k = k + 1;
        assert(v@ =~= start + s@.subrange(0, k as int));
    }
    assert(s@.subrange(0, k as int) =~= s@);
}

/// Appends `n` zero bytes to `v`.
pub fn append_zeros(v: &mut Vec<u8>, n: u64)
    ensures
        final(v)@ == old(v)@ + zeros(n as nat),
{
    let ghost start = v@;
    let mut k: u64 = 0;
    while k < n
        invariant
            k <= n,
            v@ == start + zeros(k as nat),
        decreases n - k,
    {
        v.push(0u8);
        k = k + 1;
        assert(v@ =~= start + zeros(k as nat));
    }
}

/// Whether two byte slices hold the same bytes.
pub fn bytes_eq(a: &[u8], b: &[u8]) -> (r: bool)
    ensures
        r == (a@ == b@),
{
    if a.len() != b.len() {
        return false;
    }
    let mut k: usize = 0;
    while k < a.len()
        invariant
            a@.len() == b@.len(),
            k <= a@.len(),
            forall|i: int| 0 <= i < k ==> a@[i] == b@[i],
        decreases a@.len() - k,
    {
        if a[k] != b[k] {
            return false;
        }
        k = k + 1;
    }
    assert(a@ =~= b@);
    true
}

/// `b` followed by a zero byte stands at `off` of `pool`.
pub open spec fn pool_holds(pool: Seq<u8>, off: int, b: Seq<u8>) -> bool {
    &&& 0 <= off
    &&& off + b.len() < pool.len()
    &&& pool.subrange(off, off + b.len()) == b
    &&& pool[off + b.len()] == 0
}

/// The offset at which `b` was interned, if it was.
pub open spec fn find_string(strings: Seq<(Seq<u8>, u64)>, b: Seq<u8>) -> Option<u64> {
    if exists|i: int| 0 <= i < strings.len() && strings[i].0 == b {
        Some(strings[choose|i: int| 0 <= i < strings.len() && strings[i].0 == b].1)
    } else {
        None
    }
}

/// ASCII upper-case letters to lower case; every other byte as it is.
pub open spec fn ascii_lower(b: u8) -> u8 {
    if 65 <= b <= 90 {
        (b + 32) as u8
    } else {
        b
    }
}

/// The media type code that a file-name extension (its UTF-8 bytes) stands for, compared
/// without regard to ASCII case: avif 1, png 2, webp 3, jxl 4, bmp 5, gif 7, tif/tiff 8,
/// jpg/jpeg 9, anything else or no extension 0.
pub open spec fn spec_media_type(ext: Option<Seq<u8>>) -> u8 {
    match ext {
        None => 0,
        Some(e) => {
            let l = e.map_values(|b: u8| ascii_lower(b));
            if l == seq![97u8, 118u8, 105u8, 102u8] {
                1
            } else if l == seq![112u8, 110u8, 103u8] {
                2
            } else if l == seq![119u8, 101u8, 98u8, 112u8] {
                3
            } else if l == seq![106u8, 120u8, 108u8] {
                4
            } else if l == seq![98u8, 109u8, 112u8] {
                5
            } else if l == seq![103u8, 105u8, 102u8] {
                7
            } else if l == seq![116u8, 105u8, 102u8, 102u8] || l == seq![116u8, 105u8, 102u8] {
                8
            } else if l == seq![106u8, 112u8, 103u8] || l == seq![106u8, 112u8, 101u8, 103u8] {
                9
            } else {
                0
            }
        },
    }
}

/// The media type code of a file-name extension, as `spec_media_type` states it.
pub fn detect_type(extension: Option<&str>) -> (t: u8)
    ensures
        t == spec_media_type(opt_bytes(extension)),
{
    let ext = match extension {
        Some(e) => e,
        None => return 0,
    };
    let bytes = ext.as_bytes();
    let mut l: Vec<u8> = Vec::new();
    let mut k: usize = 0;
    while k < bytes.len()
        invariant
            k <= bytes@.len(),
            l@ == bytes@.subrange(0, k as int).map_values(|b: u8| ascii_lower(b)),
        decreases bytes@.len() - k,
    {
        let b = bytes[k];
        let lb = if 65 <= b && b <= 90 {
            b + 32
        } else {
            b
        };
        l.push(lb);
        k = k + 1;
        assert(l@ =~= bytes@.subrange(0, k as int).map_values(|b: u8| ascii_lower(b)));
    }
    assert(bytes@.subrange(0, k as int) =~= bytes@);
    let ls = l.as_slice();
    let avif: [u8; 4] = [97, 118, 105, 102];
    let png: [u8; 3] = [112, 110, 103];
    let webp: [u8; 4] = [119, 101, 98, 112];
    let jxl: [u8; 3] = [106, 120, 108];
    let bmp: [u8; 3] = [98, 109, 112];
    let gif: [u8; 3] = [103, 105, 102];
    let tiff: [u8; 4] = [116, 105, 102, 102];
    let tif: [u8; 3] = [116, 105, 102];
    let jpg: [u8; 3] = [106, 112, 103];
    let jpeg: [u8; 4] = [106, 112, 101, 103];
    assert(avif@ =~= seq![97u8, 118u8, 105u8, 102u8]);
    assert(png@ =~= seq![112u8, 110u8, 103u8]);
    assert(webp@ =~= seq![119u8, 101u8, 98u8, 112u8]);
    assert(jxl@ =~= seq![106u8, 120u8, 108u8]);
    assert(bmp@ =~= seq![98u8, 109u8, 112u8]);
    assert(gif@ =~= seq![103u8, 105u8, 102u8]);
    assert(tiff@ =~= seq![116u8, 105u8, 102u8, 102u8]);
    assert(tif@ =~= seq![116u8, 105u8, 102u8]);
    assert(jpg@ =~= seq![106u8, 112u8, 103u8]);
    assert(jpeg@ =~= seq![106u8, 112u8, 101u8, 103u8]);
    if bytes_eq(ls, avif.as_slice()) {
        1
    } else if bytes_eq(ls, png.as_slice()) {
        2
    } else if bytes_eq(ls, webp.as_slice()) {
        3
    } else if bytes_eq(ls, jxl.as_slice()) {
        4
    } else if bytes_eq(ls, bmp.as_slice()) {
        5
    } else if bytes_eq(ls, gif.as_slice()) {
        7
    } else if bytes_eq(ls, tiff.as_slice()) || bytes_eq(ls, tif.as_slice()) {
        8
    } else if bytes_eq(ls, jpg.as_slice()) || bytes_eq(ls, jpeg.as_slice()) {
        9
    } else {
        0
    }
}

/// What the builder has written and recorded so far.
pub struct BuilderModel {
    /// Every byte written so far, the blank header first.
    pub image: Seq<u8>,
    /// How many of those bytes have been handed out by `take_output`.
    pub taken: nat,
    pub alignment: u8,
    pub ream_size: u8,
    pub flags: u32,
    pub assets: Seq<Asset>,
    pub pages: Seq<Page>,
    pub sections: Seq<Section>,
    pub metadata: Seq<Meta>,
    /// The string pool: each interned string followed by a zero byte.
    pub pool: Seq<u8>,
    /// Each interned string once, with its offset in the pool.
    pub strings: Seq<(Seq<u8>, u64)>,
    /// The 128-bit hash of each asset's payload.
    pub asset_keys: Seq<u128>,
    /// The payload given for each page.
    pub page_payloads: Seq<Seq<u8>>,
    /// The 128-bit hash given for each page's payload.
    pub page_keys: Seq<u128>,
    /// The page whose payload each asset stores.
    pub asset_sources: Seq<int>,
}

impl BuilderModel {
    /// The interned strings stand in the pool, each once.
    pub open spec fn strings_wf(self) -> bool {
        &&& forall|i: int|
            0 <= i < self.strings.len() ==> pool_holds(
                self.pool,
                #[trigger] self.strings[i].1 as int,
                self.strings[i].0,
            )
        &&& forall|i: int, j: int|
            0 <= i < j < self.strings.len() ==> #[trigger] self.strings[i].0
                != #[trigger] self.strings[j].0
    }

    /// Asset `j` stores the payload of the page that created it, at its offset, with its hash.
    pub open spec fn asset_wf(self, j: int) -> bool {
        let a = self.assets[j];
        let src = self.asset_sources[j];
        &&& 0 <= src < self.pages.len()
        &&& self.pages[src].asset_index == j
        &&& 64 <= a.file_offset
        &&& a.file_offset + a.file_size <= self.image.len()
        &&& a.file_size == self.page_payloads[src].len()
        &&& self.image.subrange(a.file_offset as int, a.file_offset + a.file_size)
            == self.page_payloads[src]
        &&& self.asset_keys[j] == self.page_keys[src]
        &&& a.asset_hash[0] == low64(self.asset_keys[j])
        &&& a.asset_hash[1] == high64(self.asset_keys[j])
        &&& a.reserved_value == 0
        &&& (a.file_offset as nat) % spec_boundary(self, a.file_size as nat) == 0
    }

    /// Page `i` shows the asset whose key is the page's own key, created by this page or an
    /// earlier one.
    pub open spec fn page_wf(self, i: int) -> bool {
        let j = self.pages[i].asset_index;
        &&& j < self.assets.len()
        &&& self.asset_keys[j as int] == self.page_keys[i]
        &&& self.asset_sources[j as int] <= i
    }

    /// The invariant of a builder.
    pub open spec fn wf(self) -> bool {
        &&& 64 <= self.image.len() <= u64::MAX
        &&& self.image.subrange(0, 64) == zeros(64)
        &&& self.taken <= self.image.len()
        &&& self.assets.len() == self.asset_keys.len()
        &&& self.assets.len() == self.asset_sources.len()
        &&& self.pages.len() == self.page_payloads.len()
        &&& self.pages.len() == self.page_keys.len()
        &&& forall|j: int| 0 <= j < self.assets.len() ==> #[trigger] self.asset_wf(j)
        &&& forall|j: int, k: int|
            0 <= j < k < self.assets.len() ==> #[trigger] self.asset_keys[j]
                != #[trigger] self.asset_keys[k]
        &&& forall|i: int| 0 <= i < self.pages.len() ==> #[trigger] self.page_wf(i)
        &&& self.assets_ordered()
        &&& self.strings_wf()
    }

    /// The payloads lie in the order of their assets and do not overlap.
    pub open spec fn assets_ordered(self) -> bool {
        forall|j: int, k: int|
            0 <= j < k < self.assets.len() ==> #[trigger] self.assets[j].file_offset
                + self.assets[j].file_size <= #[trigger] self.assets[k].file_offset
    }

    /// Each page's key is the XXH3-128 hash of its payload, as `add_page` makes it.
    pub open spec fn keys_honest(self) -> bool {
        forall|i: int|
            0 <= i < self.pages.len() ==> #[trigger] self.page_keys[i] == xxh3_128_of(
                self.page_payloads[i],
            )
    }
}

/// The UTF-8 bytes of a string that may be absent.
pub open spec fn opt_bytes(s: Option<&str>) -> Option<Seq<u8>> {
    match s {
        Some(t) => Some(t.spec_bytes()),
        None => None,
    }
}

impl BuilderModel {
    /// Interns `b`: the offset it already has, or a new one at the end of the pool.
    pub open spec fn intern(self, b: Seq<u8>) -> (BuilderModel, u64) {
        match find_string(self.strings, b) {
            Some(o) => (self, o),
            None => (
                BuilderModel {
                    pool: self.pool + b + seq![0u8],
                    strings: self.strings.push((b, self.pool.len() as u64)),
                    ..self
                },
                self.pool.len() as u64,
            ),
        }
    }

    /// Interns `b` if it is given; the null offset otherwise.
    pub open spec fn intern_opt(self, b: Option<Seq<u8>>) -> (BuilderModel, u64) {
        match b {
            Some(b) => self.intern(b),
            None => (self, NULL_OFFSET),
        }
    }

    /// The model after `add_meta(key, value, parent)`.
    pub open spec fn spec_add_meta(self, key: Seq<u8>, value: Seq<u8>, parent: Option<Seq<u8>>) -> BuilderModel {
        let (m1, k) = self.intern(key);
        let (m2, v) = m1.intern(value);
        let (m3, p) = m2.intern_opt(parent);
        BuilderModel {
            metadata: m3.metadata.push(Meta { key_offset: k, value_offset: v, parent_offset: p }),
            ..m3
        }
    }

    /// The model after a successful `add_section(name, start_index, parent)`.
    pub open spec fn spec_add_section(self, name: Seq<u8>, start_index: u64, parent: Option<Seq<u8>>) -> BuilderModel {
        let (m1, t) = self.intern(name);
        let (m2, p) = m1.intern_opt(parent);
        BuilderModel {
            sections: m2.sections.push(
                Section { title_offset: t, start_index, parent_offset: p },
            ),
            ..m2
        }
    }
}

/// The boundary a new payload of `size` bytes is aligned to: 2^(alignment mod 64) bytes, or
/// 8 bytes for a payload under 2^(ream_size mod 64) bytes when the variable-ream flag is set.
pub open spec fn spec_boundary(m: BuilderModel, size: nat) -> nat {
    if m.flags & BBF_VARIABLE_REAM_SIZE_FLAG != 0 && size < pow2((m.ream_size % 64) as nat) {
        8
    } else {
        pow2((m.alignment % 64) as nat)
    }
}

/// The zero bytes that bring `offset` to a multiple of `boundary`.
pub open spec fn spec_padding(offset: nat, boundary: nat) -> nat {
    if offset % boundary == 0 {
        0
    } else {
        (boundary - offset % boundary) as nat
    }
}

/// The boundary a payload is aligned to is positive.
pub proof fn lemma_boundary_pos(m: BuilderModel, size: nat)
    ensures
        spec_boundary(m, size) > 0,
{
    vstd::arithmetic::power2::lemma_pow2_pos((m.alignment % 64) as nat);
}

/// Padding `offset` brings it to a multiple of `boundary`.
pub proof fn lemma_padding_aligns(offset: nat, boundary: nat)
    requires
        boundary > 0,
    ensures
        (offset + spec_padding(offset, boundary)) % boundary == 0,
        spec_padding(offset, boundary) < boundary,
{
    let c = offset as int;
    let b = boundary as int;
    if c % b != 0 {
        vstd::arithmetic::div_mod::lemma_fundamental_div_mod(c, b);
        let q = c / b;
        assert(c + (b - c % b) == b * (q + 1)) by (nonlinear_arith)
            requires
                c == b * q + c % b,
        ;
        vstd::arithmetic::div_mod::lemma_mod_multiples_basic(q + 1, b);
        vstd::arithmetic::mul::lemma_mul_is_commutative(b, q + 1);
    }
}

impl BuilderModel {
    /// The index of an asset whose payload hashes to `h`, if there is one.
    pub open spec fn find_asset(self, h: u128) -> Option<int> {
        if exists|j: int| 0 <= j < self.asset_keys.len() && self.asset_keys[j] == h {
            Some(choose|j: int| 0 <= j < self.asset_keys.len() && self.asset_keys[j] == h)
        } else {
            None
        }
    }

    /// Where a new payload of `size` bytes would start.
    pub open spec fn new_asset_start(self, size: nat) -> nat {
        self.image.len() + spec_padding(self.image.len(), spec_boundary(self, size))
    }

    /// The model and result of `add_page(ext, data, page_flags, asset_flags)`: the page's key
    /// is the XXH3-128 hash of its payload.
    pub open spec fn spec_add_page(
        self,
        ext: Option<Seq<u8>>,
        data: Seq<u8>,
        page_flags: u32,
        asset_flags: u32,
    ) -> (BuilderModel, Result<bool, BbfError>) {
        self.spec_add_hashed_page(ext, data, xxh3_128_of(data), page_flags, asset_flags)
    }

    /// The model and result of `add_page_with_hash(ext, data, h, page_flags, asset_flags)`.
    pub open spec fn spec_add_hashed_page(
        self,
        ext: Option<Seq<u8>>,
        data: Seq<u8>,
        h: u128,
        page_flags: u32,
        asset_flags: u32,
    ) -> (BuilderModel, Result<bool, BbfError>) {
        match self.find_asset(h) {
            Some(j) => (
                BuilderModel {
                    pages: self.pages.push(Page { asset_index: j as u64, flags: page_flags }),
                    page_payloads: self.page_payloads.push(data),
                    page_keys: self.page_keys.push(h),
                    ..self
                },
                Ok(true),
            ),
            None => {
                let start = self.new_asset_start(data.len());
                let pad = (start - self.image.len()) as nat;
                if start + data.len() > u64::MAX {
                    (BuilderModel { image: self.image + zeros(pad), ..self }, Err(BbfError::CurrentOffsetOverflow))
                } else {
                    let asset = Asset {
                        file_offset: start as u64,
                        asset_hash: [low64(h), high64(h)],
                        file_size: data.len() as u64,
                        flags: asset_flags,
                        reserved_value: 0,
                        asset_type: spec_media_type(ext),
                    };
                    (
                        BuilderModel {
                            image: self.image + zeros(pad) + data,
                            assets: self.assets.push(asset),
                            pages: self.pages.push(
                                Page { asset_index: self.assets.len() as u64, flags: page_flags },
                            ),
                            asset_keys: self.asset_keys.push(h),
                            page_payloads: self.page_payloads.push(data),
                            page_keys: self.page_keys.push(h),
                            asset_sources: self.asset_sources.push(self.pages.len() as int),
                            ..self
                        },
                        Ok(true),
                    )
                }
            },
        }
    }
}

/// A model that differs from a well-formed one only in its strings, tables of sections and
/// metadata, or the count of bytes handed out, is well formed when its strings are.
pub proof fn lemma_model_frame(a: BuilderModel, b: BuilderModel)
    requires
        a.wf(),
        b.image == a.image,
        b.taken <= b.image.len(),
        b.assets == a.assets,
        b.pages == a.pages,
        b.asset_keys == a.asset_keys,
        b.page_payloads == a.page_payloads,
        b.page_keys == a.page_keys,
        b.asset_sources == a.asset_sources,
        b.alignment == a.alignment,
        b.ream_size == a.ream_size,
        b.flags == a.flags,
        b.strings_wf(),
    ensures
        b.wf(),
{
    assert forall|j: int| 0 <= j < b.assets.len() implies #[trigger] b.asset_wf(j) by {
        assert(a.asset_wf(j));
    }
    assert forall|i: int| 0 <= i < b.pages.len() implies #[trigger] b.page_wf(i) by {
        assert(a.page_wf(i));
    }
}

/// Appending bytes to a well-formed model's image keeps it well formed.
pub proof fn lemma_model_extend(a: BuilderModel, b: BuilderModel, extra: Seq<u8>)
    requires
        a.wf(),
        b == (BuilderModel { image: a.image + extra, ..a }),
        b.image.len() <= u64::MAX,
    ensures
        b.wf(),
{
    assert(b.image.subrange(0, 64) =~= a.image.subrange(0, 64));
    assert forall|j: int| 0 <= j < b.assets.len() implies #[trigger] b.asset_wf(j) by {
        assert(a.asset_wf(j));
        let x = a.assets[j];
        assert(b.image.subrange(x.file_offset as int, x.file_offset + x.file_size)
            =~= a.image.subrange(x.file_offset as int, x.file_offset + x.file_size));
    }
    assert forall|i: int| 0 <= i < b.pages.len() implies #[trigger] b.page_wf(i) by {
        assert(a.page_wf(i));
    }
}

/// The encoding of a asset entry.
pub open spec fn asset_enc() -> spec_fn(Asset) -> Seq<u8> {
    |x: Asset| x.spec_bytes()
}

fn encode_assets(v: &mut Vec<u8>, entries: &Vec<Asset>)
    ensures
        final(v)@ == old(v)@ + concat_entries(entries@, asset_enc()),
{
    let ghost start = v@;
    let mut k: usize = 0;
    while k < entries.len()
        invariant
            k <= entries@.len(),
            v@ == start + concat_entries(entries@.subrange(0, k as int), asset_enc()),
        decreases entries@.len() - k,
    {
        let b = entries[k].to_bytes();
        append_bytes(v, b.as_slice());
        proof {
            lemma_concat_entries_step(entries@, asset_enc(), k as int);
        }
        k = k + 1;
        assert(v@ =~= start + concat_entries(entries@.subrange(0, k as int), asset_enc()));
    }
    assert(entries@.subrange(0, k as int) =~= entries@);
}

/// The encoding of a page entry.
pub open spec fn page_enc() -> spec_fn(Page) -> Seq<u8> {
    |x: Page| x.spec_bytes()
}

fn encode_pages(v: &mut Vec<u8>, entries: &Vec<Page>)
    ensures
        final(v)@ == old(v)@ + concat_entries(entries@, page_enc()),
{
    let ghost start = v@;
    let mut k: usize = 0;
    while k < entries.len()
        invariant
            k <= entries@.len(),
            v@ == start + concat_entries(entries@.subrange(0, k as int), page_enc()),
        decreases entries@.len() - k,
    {
        let b = entries[k].to_bytes();
        append_bytes(v, b.as_slice());
        proof {
            lemma_concat_entries_step(entries@, page_enc(), k as int);
        }
        k = k + 1;
        assert(v@ =~= start + concat_entries(entries@.subrange(0, k as int), page_enc()));
    }
    assert(entries@.subrange(0, k as int) =~= entries@);
}

/// The encoding of a section entry.
pub open spec fn section_enc() -> spec_fn(Section) -> Seq<u8> {
    |x: Section| x.spec_bytes()
}

fn encode_sections(v: &mut Vec<u8>, entries: &Vec<Section>)
    ensures
        final(v)@ == old(v)@ + concat_entries(entries@, section_enc()),
{
    let ghost start = v@;
    let mut k: usize = 0;
    while k < entries.len()
        invariant
            k <= entries@.len(),
            v@ == start + concat_entries(entries@.subrange(0, k as int), section_enc()),
        decreases entries@.len() - k,
    {
        let b = entries[k].to_bytes();
        append_bytes(v, b.as_slice());
        proof {
            lemma_concat_entries_step(entries@, section_enc(), k as int);
        }
        k = k + 1;
        assert(v@ =~= start + concat_entries(entries@.subrange(0, k as int), section_enc()));
    }
    assert(entries@.subrange(0, k as int) =~= entries@);
}

/// The encoding of a meta entry.
pub open spec fn meta_enc() -> spec_fn(Meta) -> Seq<u8> {
    |x: Meta| x.spec_bytes()
}

fn encode_metas(v: &mut Vec<u8>, entries: &Vec<Meta>)
    ensures
        final(v)@ == old(v)@ + concat_entries(entries@, meta_enc()),
{
    let ghost start = v@;
    let mut k: usize = 0;
    while k < entries.len()
        invariant
            k <= entries@.len(),
            v@ == start + concat_entries(entries@.subrange(0, k as int), meta_enc()),
        decreases entries@.len() - k,
    {
        let b = entries[k].to_bytes();
        append_bytes(v, b.as_slice());
        proof {
            lemma_concat_entries_step(entries@, meta_enc(), k as int);
        }
        k = k + 1;
        assert(v@ =~= start + concat_entries(entries@.subrange(0, k as int), meta_enc()));
    }
    assert(entries@.subrange(0, k as int) =~= entries@);
}

impl BuilderModel {
    /// The index region: the four tables, then the string pool.
    pub open spec fn index_bytes(self) -> Seq<u8> {
        concat_entries(self.assets, asset_enc()) + concat_entries(self.pages, page_enc())
            + concat_entries(self.sections, section_enc()) + concat_entries(
            self.metadata,
            meta_enc(),
        ) + self.pool
    }

    /// `finalize` can place every table and the footer below 2^64.
    pub open spec fn finalize_fits(self) -> bool {
        self.image.len() + 48 * self.assets.len() + 16 * self.pages.len() + 32 * self.sections.len()
            + 32 * self.metadata.len() + self.pool.len() <= u64::MAX
    }

    /// The footer that `finalize` writes: `footer_for` the XXH3-64 hash of the index region.
    pub open spec fn final_footer(self) -> Footer {
        self.footer_for(xxh3_64_of(self.index_bytes()))
    }

    /// The footer that locates the index tables and records `hash` as the index's hash.
    pub open spec fn footer_for(self, hash: u64) -> Footer {
        let c = self.image.len();
        let a = c + 48 * self.assets.len();
        let p = a + 16 * self.pages.len();
        let s = p + 32 * self.sections.len();
        let m = s + 32 * self.metadata.len();
        Footer {
            asset_offset: c as u64,
            page_offset: a as u64,
            section_offset: p as u64,
            meta_offset: s as u64,
            expansion_offset: 0,
            string_pool_offset: m as u64,
            string_pool_size: self.pool.len() as u64,
            asset_count: self.assets.len() as u64,
            page_count: self.pages.len() as u64,
            section_count: self.sections.len() as u64,
            meta_count: self.metadata.len() as u64,
            expansion_count: 0,
            flags: 0,
            footer_len: 0,
            padding: [0u8, 0u8, 0u8],
            footer_hash: hash,
        }
    }

    /// The header that `finalize` writes over the blank one.
    pub open spec fn final_header(self) -> Header {
        Header {
            magic: [0x42u8, 0x42u8, 0x46u8, 0x33u8],
            version: VERSION,
            header_len: 64,
            flags: self.flags,
            alignment: self.alignment,
            ream_size: self.ream_size,
            reserved_extra: 0,
            footer_offset: (self.image.len() + self.index_bytes().len()) as u64,
        }
    }

    /// Everything written once `finalize` has added the index and the footer.
    pub open spec fn final_body(self) -> Seq<u8> {
        self.body_for(xxh3_64_of(self.index_bytes()))
    }

    /// Everything written once the index and the footer recording `hash` are added.
    pub open spec fn body_for(self, hash: u64) -> Seq<u8> {
        self.image + self.index_bytes() + self.footer_for(hash).spec_bytes()
    }

    /// The finished container: the body with the header written over its first 64 bytes.
    pub open spec fn final_image(self) -> Seq<u8> {
        self.final_header().spec_bytes() + self.final_body().subrange(
            64,
            self.final_body().len() as int,
        )
    }
}

/// The last bytes of a finished container, and the header to write at its start.
pub struct FinishedContainer {
    /// The bytes not yet handed out, ending with the index and the footer.
    pub tail: Vec<u8>,
    /// The header, to be written over the first 64 bytes.
    pub header: [u8; 64],
}

/// The ghost half of a builder's state.
pub struct BuilderGhost {
    pub image: Seq<u8>,
    pub taken: nat,
    pub asset_keys: Seq<u128>,
    pub page_payloads: Seq<Seq<u8>>,
    pub page_keys: Seq<u128>,
    pub asset_sources: Seq<int>,
}

/// Builds a container, handing out its bytes as they are decided.
pub struct Builder {
    current_offset: u64,
    alignment: u8,
    ream_size: u8,
    flags: u32,
    assets: Vec<Asset>,
    pages: Vec<Page>,
    sections: Vec<Section>,
    metadata: Vec<Meta>,
    string_pool_data: Vec<u8>,
    string_pool_map: Vec<(Vec<u8>, u64)>,
    asset_lookup: HashMap<u128, u64>,
    pending: Vec<u8>,
    ghost_state: Ghost<BuilderGhost>,
}

impl View for Builder {
    type V = BuilderModel;

    closed spec fn view(&self) -> BuilderModel {
        BuilderModel {
            image: self.ghost_state@.image,
            taken: self.ghost_state@.taken,
            alignment: self.alignment,
            ream_size: self.ream_size,
            flags: self.flags,
            assets: self.assets@,
            pages: self.pages@,
            sections: self.sections@,
            metadata: self.metadata@,
            pool: self.string_pool_data@,
            strings: Seq::new(
                self.string_pool_map@.len(),
                |i: int| (self.string_pool_map@[i].0@, self.string_pool_map@[i].1),
            ),
            asset_keys: self.ghost_state@.asset_keys,
            page_payloads: self.ghost_state@.page_payloads,
            page_keys: self.ghost_state@.page_keys,
            asset_sources: self.ghost_state@.asset_sources,
        }
    }
}

impl Builder {
    /// The builder's fields agree with its model, and the model is well formed.
    pub closed spec fn wf(&self) -> bool {
        let g = self.ghost_state@;
        &&& self@.wf()
        &&& self.current_offset == g.image.len()
        &&& self.pending@ == g.image.subrange(g.taken as int, g.image.len() as int)
        &&& forall|k: u128|
            #[trigger] self.asset_lookup@.contains_key(k) <==> exists|j: int|
                0 <= j < g.asset_keys.len() && g.asset_keys[j] == k
        &&& forall|j: int|
            0 <= j < g.asset_keys.len() ==> #[trigger] self.asset_lookup@[g.asset_keys[j]] == j
    }

    /// A well-formed builder has a well-formed model.
    pub proof fn lemma_model_wf(&self)
        requires
            self.wf(),
        ensures
            self@.wf(),
            self@.pool.len() <= usize::MAX,
            self@.assets.len() <= usize::MAX,
    {
        assert(self.string_pool_data.len() == self.string_pool_data@.len());
        assert(self.assets.len() == self.assets@.len());
    }

    /// The write position: how many bytes have been written so far.
    pub fn current_offset(&self) -> (r: u64)
        requires
            self.wf(),
        ensures
            r == self@.image.len(),
    {
        self.current_offset
    }

    /// Starts a container; its first bytes are a blank header, filled in by `finalize`.
    pub fn new(alignment: u8, ream_size: u8, flags: u32) -> (b: Builder)
        ensures
            b.wf(),
            b@.image == zeros(64),
            b@.taken == 0,
            b@.alignment == alignment,
            b@.ream_size == ream_size,
            b@.flags == flags,
            b@.assets.len() == 0,
            b@.pages.len() == 0,
            b@.sections.len() == 0,
            b@.metadata.len() == 0,
            b@.pool.len() == 0,
            b@.strings.len() == 0,
            b@.asset_keys.len() == 0,
            b@.page_payloads.len() == 0,
            b@.page_keys.len() == 0,
            b@.asset_sources.len() == 0,
            b@.wf(),
            b@.keys_honest(),
    {
        let mut pending: Vec<u8> = Vec::new();
        append_zeros(&mut pending, 64);
        let b = Builder {
            current_offset: 64,
            alignment,
            ream_size,
            flags,
            assets: Vec::new(),
            pages: Vec::new(),
            sections: Vec::new(),
            metadata: Vec::new(),
            string_pool_data: Vec::new(),
            string_pool_map: Vec::new(),
            asset_lookup: HashMap::new(),
            pending,
            ghost_state: Ghost(
                BuilderGhost {
                    image: zeros(64),
                    taken: 0,
                    asset_keys: Seq::empty(),
                    page_payloads: Seq::empty(),
                    page_keys: Seq::empty(),
                    asset_sources: Seq::empty(),
                },
            ),
        };
        assert(b@.image.subrange(0, 64) =~= zeros(64));
        assert(b.pending@ =~= b@.image.subrange(0, 64));
        assert(b@.strings =~= Seq::<(Seq<u8>, u64)>::empty());
        b
    }

    /// Hands out the bytes written since the last call, in order.
    pub fn take_output(&mut self) -> (out: Vec<u8>)
        requires
            old(self).wf(),
        ensures
            final(self).wf(),
            out@ == old(self)@.image.subrange(old(self)@.taken as int, old(self)@.image.len() as int),
            final(self)@ == (BuilderModel { taken: old(self)@.image.len(), ..old(self)@ }),
    {
        let mut out: Vec<u8> = Vec::new();
        std::mem::swap(&mut out, &mut self.pending);
        let ghost g = self.ghost_state@;
        self.ghost_state = Ghost(BuilderGhost { taken: g.image.len(), ..g });
        assert(self.pending@ =~= g.image.subrange(g.image.len() as int, g.image.len() as int));
        proof {
            lemma_model_frame(old(self)@, self@);
        }
        out
    }

    /// Interns the bytes of a string and gives its pool offset.
    pub fn add_string(&mut self, s: &[u8]) -> (o: u64)
        requires
            old(self).wf(),
        ensures
            final(self).wf(),
            (final(self)@, o) == old(self)@.intern(s@),
    {
        let ghost m = self@;
        let mut k: usize = 0;
        while k < self.string_pool_map.len()
            invariant
                *self == *old(self),
                old(self).wf(),
                m == self@,
                k <= self.string_pool_map@.len(),
                forall|i: int| 0 <= i < k ==> m.strings[i].0 != s@,
            decreases self.string_pool_map@.len() - k,
        {
            if bytes_eq(self.string_pool_map[k].0.as_slice(), s) {
                let o = self.string_pool_map[k].1;
                proof {
                    assert(m.strings[k as int].0 == s@);
                    let c = choose|i: int| 0 <= i < m.strings.len() && m.strings[i].0 == s@;
                    if c != k {
                        if c < k {
                            assert(m.strings[c].0 != m.strings[k as int].0);
                        } else {
                            assert(m.strings[k as int].0 != m.strings[c].0);
                        }
                    }
                }
                return o;
            }
            k = k + 1;
        }
        proof {
            assert(!(exists|i: int| 0 <= i < m.strings.len() && m.strings[i].0 == s@));
        }
        let offset = self.string_pool_data.len() as u64;
        append_bytes(&mut self.string_pool_data, s);
        self.string_pool_data.push(0u8);
        let mut owned: Vec<u8> = Vec::new();
        append_bytes(&mut owned, s);
        self.string_pool_map.push((owned, offset));
        proof {
            let n = self@;
            assert(n.pool =~= m.pool + s@ + seq![0u8]);
            assert(n.strings =~= m.strings.push((s@, m.pool.len() as u64)));
            assert forall|i: int| 0 <= i < n.strings.len() implies pool_holds(
                n.pool,
                #[trigger] n.strings[i].1 as int,
                n.strings[i].0,
            ) by {
                if i < m.strings.len() {
                    assert(pool_holds(m.pool, m.strings[i].1 as int, m.strings[i].0));
                    assert(n.pool.subrange(n.strings[i].1 as int, n.strings[i].1 + n.strings[i].0.len())
                        =~= m.pool.subrange(m.strings[i].1 as int, m.strings[i].1 + m.strings[i].0.len()));
                } else {
                    assert(n.pool.subrange(m.pool.len() as int, m.pool.len() + s@.len() as int) =~= s@);
                    assert(n.strings[i].1 == m.pool.len());
                }
            }
            lemma_model_frame(m, n);
        }
        offset
    }

    /// Records a metadata entry; its strings are interned.
    pub fn add_meta(&mut self, key: &str, value: &str, parent: Option<&str>) -> (r: bool)
        requires
            old(self).wf(),
        ensures
            final(self).wf(),
            r,
            final(self)@ == old(self)@.spec_add_meta(key.spec_bytes(), value.spec_bytes(), opt_bytes(parent)),
    {
        let key_offset = self.add_string(key.as_bytes());
        let value_offset = self.add_string(value.as_bytes());
        let parent_offset = match parent {
            Some(p) => self.add_string(p.as_bytes()),
            None => NULL_OFFSET,
        };
        let ghost mid = self@;
        self.metadata.push(Meta { key_offset, value_offset, parent_offset });
        proof {
            assert(self@.strings == mid.strings);
            assert(self@.pool == mid.pool);
            lemma_model_frame(mid, self@);
        }
        true
    }

    /// Records a section starting at page `start_index`; refused past the last page.
    pub fn add_section(&mut self, name: &str, start_index: u64, parent: Option<&str>) -> (r: bool)
        requires
            old(self).wf(),
        ensures
            final(self).wf(),
            r == (start_index <= old(self)@.pages.len()),
            r ==> final(self)@ == old(self)@.spec_add_section(name.spec_bytes(), start_index, opt_bytes(parent)),
            !r ==> final(self)@ == old(self)@,
    {
        if start_index > self.pages.len() as u64 {
            return false;
        }
        let title_offset = self.add_string(name.as_bytes());
        let parent_offset = match parent {
            Some(p) => self.add_string(p.as_bytes()),
            None => NULL_OFFSET,
        };
        let ghost mid = self@;
        self.sections.push(Section { title_offset, start_index, parent_offset });
        proof {
            assert(self@.strings == mid.strings);
            assert(self@.pool == mid.pool);
            lemma_model_frame(mid, self@);
        }
        true
    }

    /// Writes zero bytes up to the next multiple of `boundary`.
    fn write_padding(&mut self, boundary: u64)
        requires
            old(self).wf(),
            boundary >= 1,
            old(self)@.image.len() + spec_padding(old(self)@.image.len(), boundary as nat)
                <= u64::MAX,
        ensures
            final(self).wf(),
            final(self)@ == (BuilderModel {
                image: old(self)@.image + zeros(
                    spec_padding(old(self)@.image.len(), boundary as nat),
                ),
                ..old(self)@
            }),
            final(self).asset_lookup@ == old(self).asset_lookup@,
    {
        let remainder = self.current_offset % boundary;
        if remainder == 0 {
            assert(old(self)@.image + zeros(0) =~= old(self)@.image);
            return ;
        }
        let padding = boundary - remainder;
        append_zeros(&mut self.pending, padding);
        self.current_offset = self.current_offset + padding;
        let ghost g = self.ghost_state@;
        self.ghost_state = Ghost(BuilderGhost { image: g.image + zeros(padding as nat), ..g });
        proof {
            let n = self@;
            assert(self.pending@ =~= n.image.subrange(g.taken as int, n.image.len() as int));
            lemma_model_extend(old(self)@, n, zeros(padding as nat));
        }
    }

    /// Adds a page showing `data`. A payload whose XXH3-128 hash an earlier asset has is
    /// stored once: the page then shows that asset. Otherwise the payload is written, aligned,
    /// as a new asset whose type comes from the file-name extension.
    pub fn add_page(
        &mut self,
        extension: Option<&str>,
        data: &[u8],
        page_flags: u32,
        asset_flags: u32,
    ) -> (r: Result<bool, BbfError>)
        requires
            old(self).wf(),
            old(self)@.new_asset_start(data@.len()) <= u64::MAX,
        ensures
            final(self).wf(),
            (final(self)@, r) == old(self)@.spec_add_page(
                opt_bytes(extension),
                data@,
                page_flags,
                asset_flags,
            ),
            old(self)@.keys_honest() ==> final(self)@.keys_honest(),
    {
        let hash = xxh3_128(data);
        self.add_page_with_hash(extension, data, hash, page_flags, asset_flags)
    }

    /// Adds a page showing `data` under the key `hash`, which `add_page` computes as the
    /// payload's XXH3-128 hash. A key that an earlier asset has makes the page show that
    /// asset; otherwise the payload is written, aligned, as a new asset recording the key as
    /// its hash.
    pub fn add_page_with_hash(
        &mut self,
        extension: Option<&str>,
        data: &[u8],
        hash: u128,
        page_flags: u32,
        asset_flags: u32,
    ) -> (r: Result<bool, BbfError>)
        requires
            old(self).wf(),
            old(self)@.new_asset_start(data@.len()) <= u64::MAX,
        ensures
            final(self).wf(),
            (final(self)@, r) == old(self)@.spec_add_hashed_page(
                opt_bytes(extension),
                data@,
                hash,
                page_flags,
                asset_flags,
            ),
            old(self)@.keys_honest() && hash == xxh3_128_of(data@) ==> final(self)@.keys_honest(),
    {
        let media_type = detect_type(extension);
        let (hash_low, hash_high) = split_hash(hash);
        let ghost m = self@;
        let ghost g = self.ghost_state@;
        let found = match self.asset_lookup.get(&hash) {
            Some(idx) => Some(*idx),
            None => None,
        };
        if let Some(asset_index) = found {
            proof {
                assert(self.asset_lookup@.contains_key(hash));
                let j = choose|j: int| 0 <= j < g.asset_keys.len() && g.asset_keys[j] == hash;
                assert(self.asset_lookup@[g.asset_keys[j]] == j);
                assert(asset_index == j);
                let c = choose|c: int| 0 <= c < m.asset_keys.len() && m.asset_keys[c] == hash;
                if c != j {
                    if c < j {
                        assert(m.asset_keys[c] != m.asset_keys[j]);
                    } else {
                        assert(m.asset_keys[j] != m.asset_keys[c]);
                    }
                }
                assert(m.find_asset(hash) == Some(j));
            }
            self.pages.push(Page { asset_index, flags: page_flags });
            self.ghost_state = Ghost(
                BuilderGhost {
                    page_payloads: g.page_payloads.push(data@),
                    page_keys: g.page_keys.push(hash),
                    ..g
                },
            );
            proof {
                let n = self@;
                assert(n.pages =~= m.pages.push(Page { asset_index, flags: page_flags }));
                assert(n.page_payloads =~= m.page_payloads.push(data@));
                assert(n.page_keys =~= m.page_keys.push(hash));
                assert forall|j: int| 0 <= j < n.assets.len() implies #[trigger] n.asset_wf(j) by {
                    assert(m.asset_wf(j));
                }
                assert(m.asset_wf(asset_index as int));
                assert forall|i: int| 0 <= i < n.pages.len() implies #[trigger] n.page_wf(i) by {
                    if i < m.pages.len() {
                        assert(m.page_wf(i));
                    }
                }
            }
            return Ok(true);
        }
        proof {
            if exists|j: int| 0 <= j < m.asset_keys.len() && m.asset_keys[j] == hash {
                let j = choose|j: int| 0 <= j < m.asset_keys.len() && m.asset_keys[j] == hash;
                assert(self.asset_lookup@.contains_key(m.asset_keys[j]));
            }
            assert(m.find_asset(hash) is None);
        }
        let size = data.len() as u64;
        let align_shift = (self.alignment % 64) as u64;
        let ream_shift = (self.ream_size % 64) as u64;
        proof {
            vstd::bits::lemma_u64_pow2_no_overflow(align_shift as nat);
            vstd::bits::lemma_u64_pow2_no_overflow(ream_shift as nat);
            vstd::bits::lemma_u64_shl_is_mul(1, align_shift);
            vstd::bits::lemma_u64_shl_is_mul(1, ream_shift);
        }
        let mut alignment_bytes: u64 = 1u64 << align_shift;
        let threshold_bytes: u64 = 1u64 << ream_shift;
        let variable_align = (self.flags & BBF_VARIABLE_REAM_SIZE_FLAG) != 0;
        if variable_align && size < threshold_bytes {
            alignment_bytes = 8;
        }
        assert(alignment_bytes == spec_boundary(m, data@.len()));
        proof {
            lemma_padding_aligns(m.image.len(), spec_boundary(m, data@.len()));
        }
        self.write_padding(alignment_bytes);
        let asset_start_offset = self.current_offset;
        let new_offset = match self.current_offset.checked_add(size) {
            Some(o) => o,
            None => return Err(BbfError::CurrentOffsetOverflow),
        };
        let ghost m1 = self@;
        let ghost g1 = self.ghost_state@;
        append_bytes(&mut self.pending, data);
        self.current_offset = new_offset;
        let asset_index = self.assets.len() as u64;
        let asset = Asset {
            file_offset: asset_start_offset,
            asset_hash: [hash_low, hash_high],
            file_size: size,
            flags: asset_flags,
            reserved_value: 0,
            asset_type: media_type,
        };
        self.assets.push(asset);
        self.asset_lookup.insert(hash, asset_index);
        self.pages.push(Page { asset_index, flags: page_flags });
        self.ghost_state = Ghost(
            BuilderGhost {
                image: g1.image + data@,
                asset_keys: g1.asset_keys.push(hash),
                page_payloads: g1.page_payloads.push(data@),
                page_keys: g1.page_keys.push(hash),
                asset_sources: g1.asset_sources.push(m1.pages.len() as int),
                ..g1
            },
        );
        proof {
            let n = self@;
            let pad = spec_padding(m.image.len(), spec_boundary(m, data@.len()));
            assert(n.image =~= m.image + zeros(pad) + data@);
            assert(n.assets =~= m.assets.push(asset));
            assert(n.pages =~= m.pages.push(Page { asset_index, flags: page_flags }));
            assert(n.asset_keys =~= m.asset_keys.push(hash));
            assert(n.page_payloads =~= m.page_payloads.push(data@));
            assert(n.page_keys =~= m.page_keys.push(hash));
            assert(n.asset_sources =~= m.asset_sources.push(m.pages.len() as int));
            assert(self.pending@ =~= n.image.subrange(g.taken as int, n.image.len() as int));
            assert(n.image.subrange(0, 64) =~= m.image.subrange(0, 64));
            assert forall|j: int| 0 <= j < n.assets.len() implies #[trigger] n.asset_wf(j) by {
                if j < m.assets.len() {
                    assert(m.asset_wf(j));
                    let x = m.assets[j];
                    assert(n.image.subrange(x.file_offset as int, x.file_offset + x.file_size)
                        =~= m.image.subrange(x.file_offset as int, x.file_offset + x.file_size));
                } else {
                    assert(n.image.subrange(
                        asset_start_offset as int,
                        asset_start_offset + size,
                    ) =~= data@);
                }
            }
            assert forall|j: int, k: int|
                0 <= j < k < n.assets.len() implies #[trigger] n.assets[j].file_offset
                + n.assets[j].file_size <= #[trigger] n.assets[k].file_offset by {
                if k == m.assets.len() {
                    assert(m.asset_wf(j));
                }
            }
            assert forall|j: int, k: int|
                0 <= j < k < n.assets.len() implies #[trigger] n.asset_keys[j]
                != #[trigger] n.asset_keys[k] by {
                if k == m.assets.len() {
                    assert(m.asset_keys[j] != hash);
                }
            }
            assert forall|i: int| 0 <= i < n.pages.len() implies #[trigger] n.page_wf(i) by {
                if i < m.pages.len() {
                    assert(m.page_wf(i));
                }
            }
            assert forall|k: u128|
                #[trigger] self.asset_lookup@.contains_key(k) <==> exists|j: int|
                    0 <= j < n.asset_keys.len() && n.asset_keys[j] == k by {
                if k == hash {
                    assert(n.asset_keys[m.asset_keys.len() as int] == k);
                } else {
                    assert(self.asset_lookup@.contains_key(k) == old(self).asset_lookup@.contains_key(
                        k,
                    ));
                    if old(self).asset_lookup@.contains_key(k) {
                        let j = choose|j: int| 0 <= j < m.asset_keys.len() && m.asset_keys[j] == k;
                        assert(n.asset_keys[j] == k);
                    }
                    if exists|j: int| 0 <= j < n.asset_keys.len() && n.asset_keys[j] == k {
                        let j = choose|j: int| 0 <= j < n.asset_keys.len() && n.asset_keys[j] == k;
                        assert(j < m.asset_keys.len());
                        assert(m.asset_keys[j] == k);
                        assert(old(self).asset_lookup@.contains_key(k));
                    }
                }
            }
            assert forall|j: int|
                0 <= j < n.asset_keys.len() implies #[trigger] self.asset_lookup@[n.asset_keys[j]]
                == j by {
                if j < m.asset_keys.len() {
                    assert(m.asset_keys[j] != hash);
                }
            }
        }
        Ok(true)
    }

    /// The index region: the four tables in order, then the string pool.
    pub fn index_bytes(&self) -> (r: Vec<u8>)
        ensures
            r@ == self@.index_bytes(),
    {
        let mut index: Vec<u8> = Vec::new();
        encode_assets(&mut index, &self.assets);
        encode_pages(&mut index, &self.pages);
        encode_sections(&mut index, &self.sections);
        encode_metas(&mut index, &self.metadata);
        append_bytes(&mut index, self.string_pool_data.as_slice());
        assert(index@ =~= self@.index_bytes());
        index
    }

    /// Writes the index tables, the string pool and the footer, and makes the header. The
    /// footer records the XXH3-64 hash of the index region.
    pub fn finalize(self) -> (r: Result<FinishedContainer, BbfError>)
        requires
            self.wf(),
            self@.assets.len() > 0 ==> self@.finalize_fits(),
        ensures
            self@.assets.len() == 0 ==> r == Err::<FinishedContainer, BbfError>(BbfError::NoAssets),
            self@.assets.len() > 0 ==> (r matches Ok(f) && f.tail@ == self@.final_body().subrange(
                self@.taken as int,
                self@.final_body().len() as int,
            ) && f.header@ == self@.final_header().spec_bytes()),
    {
        if self.assets.len() == 0 {
            return Err(BbfError::NoAssets);
        }
        let index = self.index_bytes();
        let footer_hash = xxh3_64(index.as_slice());
        self.finalize_with_hash(index, footer_hash)
    }

    /// Writes `index`, the index region, and a footer recording `footer_hash`, which
    /// `finalize` computes as the region's XXH3-64 hash; makes the header.
    pub fn finalize_with_hash(self, index: Vec<u8>, footer_hash: u64) -> (r: Result<
        FinishedContainer,
        BbfError,
    >)
        requires
            self.wf(),
            self@.assets.len() > 0 ==> self@.finalize_fits(),
            index@ == self@.index_bytes(),
        ensures
            self@.assets.len() == 0 ==> r == Err::<FinishedContainer, BbfError>(BbfError::NoAssets),
            self@.assets.len() > 0 ==> (r matches Ok(f) && f.tail@ == self@.body_for(
                footer_hash,
            ).subrange(self@.taken as int, self@.body_for(footer_hash).len() as int)
                && f.header@ == self@.final_header().spec_bytes()),
    {
        if self.assets.len() == 0 {
            return Err(BbfError::NoAssets);
        }
        let ghost m = self@;
        proof {
            crate::bbf::types::lemma_asset_lengths();
            assert forall|x: Asset| #[trigger] asset_enc()(x).len() == 48 by {}
            assert forall|x: Page| #[trigger] page_enc()(x).len() == 16 by {}
            assert forall|x: Section| #[trigger] section_enc()(x).len() == 32 by {}
            assert forall|x: Meta| #[trigger] meta_enc()(x).len() == 32 by {}
            crate::bbf::bytes::lemma_concat_entries(m.assets, asset_enc(), 48);
            crate::bbf::bytes::lemma_concat_entries(m.pages, page_enc(), 16);
            crate::bbf::bytes::lemma_concat_entries(m.sections, section_enc(), 32);
            crate::bbf::bytes::lemma_concat_entries(m.metadata, meta_enc(), 32);
        }
        let asset_offset = self.current_offset;
        let page_offset = asset_offset + 48 * (self.assets.len() as u64);
        let section_offset = page_offset + 16 * (self.pages.len() as u64);
        let meta_offset = section_offset + 32 * (self.sections.len() as u64);
        let string_pool_offset = meta_offset + 32 * (self.metadata.len() as u64);
        let string_pool_size = self.string_pool_data.len() as u64;
        let footer = Footer {
            asset_offset,
            page_offset,
            section_offset,
            meta_offset,
            expansion_offset: 0,
            string_pool_offset,
            string_pool_size,
            asset_count: self.assets.len() as u64,
            page_count: self.pages.len() as u64,
            section_count: self.sections.len() as u64,
            meta_count: self.metadata.len() as u64,
            expansion_count: 0,
            flags: 0,
            footer_len: 0,
            padding: [0, 0, 0],
            footer_hash,
        };
        assert(footer == m.footer_for(footer_hash)) by {
            assert(footer.padding =~= m.footer_for(footer_hash).padding);
        }
        let footer_offset = self.current_offset + index.len() as u64;
        let mut tail = self.pending;
        append_bytes(&mut tail, index.as_slice());
        let footer_bytes = footer.to_bytes();
        append_bytes(&mut tail, footer_bytes.as_slice());
        let header = Header {
            magic: [0x42, 0x42, 0x46, 0x33],
            version: VERSION,
            header_len: 64,
            flags: self.flags,
            alignment: self.alignment,
            ream_size: self.ream_size,
            reserved_extra: 0,
            footer_offset,
        };
        assert(header == m.final_header()) by {
            assert(header.magic =~= m.final_header().magic);
        }
        let header_bytes = header.to_bytes();
        proof {
            let b = m.body_for(footer_hash);
            assert(tail@ =~= b.subrange(m.taken as int, b.len() as int));
        }
        Ok(FinishedContainer { tail, header: header_bytes })
    }

    /// Whether a new payload of `size` bytes would start below 2^64, as `add_page` requires.
    pub fn page_fits(&self, size: usize) -> (r: bool)
        requires
            self.wf(),
        ensures
            r == (self@.new_asset_start(size as nat) <= u64::MAX),
    {
        let ghost m = self@;
        let align_shift = (self.alignment % 64) as u64;
        let ream_shift = (self.ream_size % 64) as u64;
        proof {
            vstd::bits::lemma_u64_pow2_no_overflow(align_shift as nat);
            vstd::bits::lemma_u64_pow2_no_overflow(ream_shift as nat);
            vstd::bits::lemma_u64_shl_is_mul(1, align_shift);
            vstd::bits::lemma_u64_shl_is_mul(1, ream_shift);
        }
        let mut boundary: u64 = 1u64 << align_shift;
        let threshold: u64 = 1u64 << ream_shift;
        if (self.flags & BBF_VARIABLE_REAM_SIZE_FLAG) != 0 && (size as u64) < threshold {
            boundary = 8;
        }
        assert(boundary == spec_boundary(m, size as nat));
        let remainder = self.current_offset % boundary;
        if remainder == 0 {
            return true;
        }
        self.current_offset <= u64::MAX - (boundary - remainder)
    }

    /// Whether `finalize` can place every table and the footer below 2^64, as it requires.
    pub fn finalize_fits(&self) -> (r: bool)
        requires
            self.wf(),
        ensures
            r == self@.finalize_fits(),
    {
        let total: u128 = self.current_offset as u128 + 48 * (self.assets.len() as u128) + 16 * (
        self.pages.len() as u128) + 32 * (self.sections.len() as u128) + 32 * (
        self.metadata.len() as u128) + self.string_pool_data.len() as u128;
        total <= u64::MAX as u128
    }
}

} // verus!
