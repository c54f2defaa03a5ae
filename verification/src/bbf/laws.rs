//! What a finished container gives back when it is read.
use crate::bbf::bytes::{concat_entries, lemma_concat_entries, u16_at, u32_at, u64_at, zeros};
use crate::bbf::hash::{high64, low64, xxh3_128_of, xxh3_64_of};
use crate::bbf::layout::{
    law_footer_decoding, law_footer_layout, law_header_decoding, law_header_layout,
};
use crate::bbf::error::{BbfError, Table};
use crate::bbf::reader::{
    bbf3_magic, first_zero_at, lemma_zero_terminated, zero_terminated, spec_footer_of, spec_open_error,
    spec_open_overflows, spec_string_bytes, spec_string_scan_overruns, Reader,
};
use crate::bbf::types::{
    lemma_asset_lengths, lemma_asset_roundtrip, lemma_footer_parse_prefix, lemma_footer_roundtrip,
    lemma_header_parse_prefix, lemma_header_roundtrip, lemma_meta_roundtrip, lemma_page_roundtrip,
    lemma_section_roundtrip, Asset, Footer, Header, Meta, Page, Section,
};
use crate::bbf::writer::{
    ascii_lower, asset_enc, find_string, meta_enc, page_enc, pool_holds, section_enc,
    spec_boundary, spec_media_type, BuilderModel,
};
use crate::bbf::petrify::{
    cap_exp, data_shift, entries_granule_exp, index_padding, lemma_entries_granule_covers,
    lemma_moved_index_entry, lemma_moved_index_frame, lemma_offset_granule_covers,
    lemma_pow2_divides, moved_asset, moved_index, petrified_footer,
    petrified_header, petrified_index, rewritten_entries, shift_offset, spec_petrify,
    spec_petrify_bytes_overflows, MAX_PETRIFY_INDEX_SIZE,
};
use vstd::arithmetic::power2::pow2;
use vstd::prelude::*;

verus! {

/// Where the parts of a finished container stand.
pub proof fn lemma_final_layout(m: BuilderModel)
    requires
        m.wf(),
        m.finalize_fits(),
    ensures
        ({
            let s = m.final_image();
            let c = m.image.len() as int;
            let idx = m.index_bytes();
            &&& idx.len() == 48 * m.assets.len() + 16 * m.pages.len() + 32 * m.sections.len() + 32
                * m.metadata.len() + m.pool.len()
            &&& s.len() == c + idx.len() + 256
            &&& s.subrange(0, 64) == m.final_header().spec_bytes()
            &&& forall|i: int| 64 <= i < c ==> #[trigger] s[i] == m.image[i]
            &&& forall|i: int| 0 <= i < idx.len() ==> s[c + i] == #[trigger] idx[i]
            &&& s.subrange(c + idx.len(), s.len() as int) == m.final_footer().spec_bytes()
        }),
{
    lemma_asset_lengths();
    assert forall|x: Asset| #[trigger] asset_enc()(x).len() == 48 by {}
    assert forall|x: Page| #[trigger] page_enc()(x).len() == 16 by {}
    assert forall|x: Section| #[trigger] section_enc()(x).len() == 32 by {}
    assert forall|x: Meta| #[trigger] meta_enc()(x).len() == 32 by {}
    lemma_concat_entries(m.assets, asset_enc(), 48);
    lemma_concat_entries(m.pages, page_enc(), 16);
    lemma_concat_entries(m.sections, section_enc(), 32);
    lemma_concat_entries(m.metadata, meta_enc(), 32);
    let s = m.final_image();
    let b = m.final_body();
    let c = m.image.len() as int;
    let idx = m.index_bytes();
    assert(s.subrange(0, 64) =~= m.final_header().spec_bytes());
    assert forall|i: int| 64 <= i < c implies #[trigger] s[i] == m.image[i] by {
        assert(s[i] == b[i]);
    }
    assert forall|i: int| 0 <= i < idx.len() implies s[c + i] == #[trigger] idx[i] by {
        assert(s[c + i] == b[c + i]);
    }
    assert(s.subrange(c + idx.len(), s.len() as int) =~= m.final_footer().spec_bytes());
}

/// A finished container opens: its header and footer are those that `finalize` wrote.
pub proof fn law_finished_container_opens(m: BuilderModel)
    requires
        m.wf(),
        m.assets.len() > 0,
        m.finalize_fits(),
        m.final_image().len() <= u64::MAX,
    ensures
        spec_open_error(m.final_image()) is None,
        !spec_open_overflows(m.final_image()),
        Header::spec_parse(m.final_image()) == m.final_header(),
        spec_footer_of(m.final_image()) == m.final_footer(),
{
    lemma_final_layout(m);
    let s = m.final_image();
    let h = m.final_header();
    let c = m.image.len() as int;
    let idx = m.index_bytes();
    lemma_header_roundtrip(h);
    assert(h.spec_bytes().subrange(0, 64) =~= h.spec_bytes());
    lemma_header_parse_prefix(s, h.spec_bytes());
    assert(Header::spec_parse(s) == h);
    assert(s.subrange(0, 4) =~= h.spec_bytes().subrange(0, 4));
    assert(h.magic@ =~= bbf3_magic());
    assert(s.subrange(4, 6) =~= h.spec_bytes().subrange(4, 6));
    assert(s.subrange(16, 24) =~= h.spec_bytes().subrange(16, 24));
    assert(u64_at(s, 16) == c + idx.len());
    let f = m.final_footer();
    lemma_footer_roundtrip(f);
    let fs = s.subrange(c + idx.len(), c + idx.len() + 256);
    assert(fs.subrange(0, 256) =~= f.spec_bytes().subrange(0, 256));
    lemma_footer_parse_prefix(fs, f.spec_bytes());
}

/// A window of the index region stands, shifted by `c`, in `s`.
proof fn lemma_window(s: Seq<u8>, c: int, idx: Seq<u8>, start: int, len: int)
    requires
        0 <= c,
        0 <= start,
        0 <= len,
        start + len <= idx.len(),
        c + idx.len() <= s.len(),
        forall|i: int| 0 <= i < idx.len() ==> s[c + i] == #[trigger] idx[i],
    ensures
        s.subrange(c + start, c + start + len) == idx.subrange(start, start + len),
{
    assert forall|k: int| 0 <= k < len implies #[trigger] s.subrange(c + start, c + start + len)[k]
        == idx.subrange(start, start + len)[k] by {
        assert(idx[start + k] == s[c + (start + k)]);
    }
    assert(s.subrange(c + start, c + start + len) =~= idx.subrange(start, start + len));
}

/// A window inside the middle part of a concatenation.
proof fn lemma_mid_window(x: Seq<u8>, y: Seq<u8>, z: Seq<u8>, a: int, l: int)
    requires
        0 <= a,
        0 <= l,
        a + l <= y.len(),
    ensures
        (x + y + z).subrange(x.len() + a, x.len() + a + l) == y.subrange(a, a + l),
{
    assert((x + y + z).subrange(x.len() + a, x.len() + a + l) =~= y.subrange(a, a + l));
}

/// Every table entry of a finished container reads back as the builder recorded it, and
/// the header and footer are those that `finalize` wrote.
pub proof fn law_finished_tables_read_back(m: BuilderModel, r: Reader)
    requires
        m.wf(),
        m.assets.len() > 0,
        m.finalize_fits(),
        m.final_image().len() <= u64::MAX,
        r.wf(),
        r.source@ == m.final_image(),
    ensures
        r.header == m.final_header(),
        r.footer == m.final_footer(),
        forall|j: u64| j < m.assets.len() ==> #[trigger] r.spec_get_asset(j) == Ok::<Asset, BbfError>(m.assets[j as int]),
        forall|i: u64| i < m.pages.len() ==> #[trigger] r.spec_get_page(i) == Ok::<Page, BbfError>(m.pages[i as int]),
        forall|i: u64| i < m.sections.len() ==> #[trigger] r.spec_get_section(i) == Ok::<Section, BbfError>(m.sections[i as int]),
        forall|i: u64| i < m.metadata.len() ==> #[trigger] r.spec_get_meta(i) == Ok::<Meta, BbfError>(m.metadata[i as int]),
{
    law_finished_container_opens(m);
    lemma_final_layout(m);
    lemma_asset_lengths();
    assert forall|x: Asset| #[trigger] asset_enc()(x).len() == 48 by {}
    assert forall|x: Page| #[trigger] page_enc()(x).len() == 16 by {}
    assert forall|x: Section| #[trigger] section_enc()(x).len() == 32 by {}
    assert forall|x: Meta| #[trigger] meta_enc()(x).len() == 32 by {}
    lemma_concat_entries(m.assets, asset_enc(), 48);
    lemma_concat_entries(m.pages, page_enc(), 16);
    lemma_concat_entries(m.sections, section_enc(), 32);
    lemma_concat_entries(m.metadata, meta_enc(), 32);
    let s = m.final_image();
    let c = m.image.len() as int;
    let idx = m.index_bytes();
    let ca = concat_entries(m.assets, asset_enc());
    let cp = concat_entries(m.pages, page_enc());
    let cs = concat_entries(m.sections, section_enc());
    let cm = concat_entries(m.metadata, meta_enc());
    let pool = m.pool;
    assert(idx =~= Seq::<u8>::empty() + ca + (cp + cs + cm + pool));
    assert(idx =~= ca + cp + (cs + cm + pool));
    assert(idx =~= (ca + cp) + cs + (cm + pool));
    assert(idx =~= (ca + cp + cs) + cm + pool);
    assert forall|j: u64| j < m.assets.len() implies #[trigger] r.spec_get_asset(j) == Ok::<Asset, BbfError>(m.assets[j as int]) by {
        assert(48 * j + 48 <= 48 * m.assets.len()) by (nonlinear_arith)
            requires j < m.assets.len();
        lemma_window(s, c, idx, 48 * j, 48);
        lemma_mid_window(Seq::<u8>::empty(), ca, cp + cs + cm + pool, 48 * j, 48);
        assert(ca.subrange(48 * j, 48 * j + 48) == asset_enc()(m.assets[j as int]));
        lemma_asset_roundtrip(m.assets[j as int]);
    }
    assert forall|i: u64| i < m.pages.len() implies #[trigger] r.spec_get_page(i) == Ok::<Page, BbfError>(m.pages[i as int]) by {
        assert(16 * i + 16 <= 16 * m.pages.len()) by (nonlinear_arith)
            requires i < m.pages.len();
        lemma_window(s, c, idx, ca.len() + 16 * i, 16);
        lemma_mid_window(ca, cp, cs + cm + pool, 16 * i, 16);
        assert(cp.subrange(16 * i, 16 * i + 16) == page_enc()(m.pages[i as int]));
        lemma_page_roundtrip(m.pages[i as int]);
    }
    assert forall|i: u64| i < m.sections.len() implies #[trigger] r.spec_get_section(i) == Ok::<Section, BbfError>(m.sections[i as int]) by {
        assert(32 * i + 32 <= 32 * m.sections.len()) by (nonlinear_arith)
            requires i < m.sections.len();
        lemma_window(s, c, idx, ca.len() + cp.len() + 32 * i, 32);
        lemma_mid_window(ca + cp, cs, cm + pool, 32 * i, 32);
        assert(cs.subrange(32 * i, 32 * i + 32) == section_enc()(m.sections[i as int]));
        lemma_section_roundtrip(m.sections[i as int]);
    }
    assert forall|i: u64| i < m.metadata.len() implies #[trigger] r.spec_get_meta(i) == Ok::<Meta, BbfError>(m.metadata[i as int]) by {
        assert(32 * i + 32 <= 32 * m.metadata.len()) by (nonlinear_arith)
            requires i < m.metadata.len();
        lemma_window(s, c, idx, ca.len() + cp.len() + cs.len() + 32 * i, 32);
        lemma_mid_window(ca + cp + cs, cm, pool, 32 * i, 32);
        assert(cm.subrange(32 * i, 32 * i + 32) == meta_enc()(m.metadata[i as int]));
        lemma_meta_roundtrip(m.metadata[i as int]);
    }
}

/// In a finished container every asset holds the payload of the page that created it and
/// passes its hash check; every page shows an asset whose payload hashes as the page's own
/// payload; and the index passes the footer's hash check.
pub proof fn law_finished_payloads_read_back(m: BuilderModel, r: Reader)
    requires
        m.wf(),
        m.keys_honest(),
        m.assets.len() > 0,
        m.finalize_fits(),
        m.final_image().len() <= u64::MAX,
        m.final_image().len() <= usize::MAX,
        r.wf(),
        r.source@ == m.final_image(),
    ensures
        forall|j: int|
            0 <= j < m.assets.len() ==> #[trigger] r.source@.subrange(
                m.assets[j].file_offset as int,
                m.assets[j].file_offset + m.assets[j].file_size,
            ) == m.page_payloads[m.asset_sources[j]],
        forall|j: u64| j < m.assets.len() ==> #[trigger] r.spec_asset_hash_ok(j),
        forall|i: int|
            0 <= i < m.pages.len() ==> {
                let a = m.assets[m.pages[i].asset_index as int];
                xxh3_128_of(
                    r.source@.subrange(a.file_offset as int, a.file_offset + a.file_size),
                ) == xxh3_128_of(#[trigger] m.page_payloads[i])
            },
        r.spec_footer_hash_ok(),
{
    law_finished_tables_read_back(m, r);
    lemma_final_layout(m);
    let s = m.final_image();
    let c = m.image.len() as int;
    let idx = m.index_bytes();
    assert forall|j: int| 0 <= j < m.assets.len() implies #[trigger] r.source@.subrange(
        m.assets[j].file_offset as int,
        m.assets[j].file_offset + m.assets[j].file_size,
    ) == m.page_payloads[m.asset_sources[j]] by {
        assert(m.asset_wf(j));
        let a = m.assets[j];
        assert(s.subrange(a.file_offset as int, a.file_offset + a.file_size) =~= m.image.subrange(
            a.file_offset as int,
            a.file_offset + a.file_size,
        ));
    }
    assert forall|j: u64| j < m.assets.len() implies #[trigger] r.spec_asset_hash_ok(j) by {
        assert(m.asset_wf(j as int));
        let src = m.asset_sources[j as int];
        assert(m.page_keys[src] == xxh3_128_of(m.page_payloads[src]));
        assert(r.spec_get_asset(j) == Ok::<Asset, BbfError>(m.assets[j as int]));
        assert(r.source@.subrange(
            m.assets[j as int].file_offset as int,
            m.assets[j as int].file_offset + m.assets[j as int].file_size,
        ) == m.page_payloads[m.asset_sources[j as int]]);
    }
    assert forall|i: int| 0 <= i < m.pages.len() implies {
        let a = m.assets[m.pages[i].asset_index as int];
        xxh3_128_of(r.source@.subrange(a.file_offset as int, a.file_offset + a.file_size))
            == xxh3_128_of(#[trigger] m.page_payloads[i])
    } by {
        assert(m.page_wf(i));
        let j = m.pages[i].asset_index as int;
        assert(m.asset_wf(j));
        let src = m.asset_sources[j];
        assert(m.page_keys[src] == xxh3_128_of(m.page_payloads[src]));
        assert(m.page_keys[i] == xxh3_128_of(m.page_payloads[i]));
        assert(r.source@.subrange(
            m.assets[j].file_offset as int,
            m.assets[j].file_offset + m.assets[j].file_size,
        ) == m.page_payloads[m.asset_sources[j]]);
    }
    lemma_window(s, c, idx, 0, idx.len() as int);
    assert(idx.subrange(0, idx.len() as int) =~= idx);
}

/// A string that stands, zero-terminated, in a pool copied into `s` at the footer's pool
/// offset reads back as its bytes when it has no zero byte and is shorter than the scan
/// limit.
proof fn lemma_pool_string_reads(s: Seq<u8>, f: Footer, pool: Seq<u8>, o: int, b: Seq<u8>)
    requires
        f.string_pool_size == pool.len(),
        f.string_pool_offset + pool.len() <= s.len(),
        s.len() + 2048 <= usize::MAX,
        forall|k: int| 0 <= k < pool.len() ==> s[f.string_pool_offset + k] == #[trigger] pool[k],
        pool_holds(pool, o, b),
        b.len() < 2048,
        forall|k: int| 0 <= k < b.len() ==> b[k] != 0,
    ensures
        !spec_string_scan_overruns(s, f, o as u64),
        spec_string_bytes(s, f, o as u64) == Ok::<Seq<u8>, BbfError>(b),
{
    let start = f.string_pool_offset + o;
    let pool_end = f.string_pool_offset + pool.len();
    let scan_end = if start + 2048 < pool_end {
        start + 2048
    } else {
        pool_end
    };
    let w = s.subrange(start, scan_end);
    assert forall|k: int| 0 <= k <= b.len() implies #[trigger] w[k] == pool[o + k] by {
        assert(w[k] == s[start + k]);
        assert(s[f.string_pool_offset + (o + k)] == pool[o + k]);
    }
    assert forall|k: int| 0 <= k < b.len() implies #[trigger] w[k] == b[k] by {
        assert(w[k] == pool[o + k]);
        assert(pool.subrange(o, o + b.len())[k] == pool[o + k]);
    }
    assert(first_zero_at(w, b.len() as int));
    lemma_zero_terminated(w, b.len() as int);
    assert(w.subrange(0, b.len() as int) =~= b);
}

/// Every interned string of a finished container that has no zero byte and is shorter
/// than the scan limit reads back as its bytes.
pub proof fn law_finished_strings_read_back(m: BuilderModel, r: Reader)
    requires
        m.wf(),
        m.assets.len() > 0,
        m.finalize_fits(),
        m.final_image().len() <= u64::MAX,
        m.final_image().len() + 2048 <= usize::MAX,
        r.wf(),
        r.source@ == m.final_image(),
    ensures
        forall|i: int|
            0 <= i < m.strings.len() && m.strings[i].0.len() < 2048 && (forall|k: int|
                0 <= k < m.strings[i].0.len() ==> m.strings[i].0[k] != 0) ==> {
                &&& !spec_string_scan_overruns(r.source@, r.footer, #[trigger] m.strings[i].1)
                &&& spec_string_bytes(r.source@, r.footer, m.strings[i].1) == Ok::<Seq<u8>, BbfError>(
                    m.strings[i].0,
                )
            },
{
    law_finished_tables_read_back(m, r);
    lemma_final_layout(m);
    let s = m.final_image();
    let c = m.image.len() as int;
    let idx = m.index_bytes();
    let f = m.final_footer();
    let pre = idx.len() - m.pool.len();
    assert(f.string_pool_offset == c + pre);
    assert(idx =~= idx.subrange(0, pre) + m.pool);
    assert forall|k: int| 0 <= k < m.pool.len() implies s[f.string_pool_offset + k]
        == #[trigger] m.pool[k] by {
        assert(s[c + (pre + k)] == idx[pre + k]);
    }
    assert forall|i: int|
        0 <= i < m.strings.len() && m.strings[i].0.len() < 2048 && (forall|k: int|
            0 <= k < m.strings[i].0.len() ==> m.strings[i].0[k] != 0) implies {
        &&& !spec_string_scan_overruns(r.source@, r.footer, #[trigger] m.strings[i].1)
        &&& spec_string_bytes(r.source@, r.footer, m.strings[i].1) == Ok::<Seq<u8>, BbfError>(
            m.strings[i].0,
        )
    } by {
        assert(pool_holds(m.pool, m.strings[i].1 as int, m.strings[i].0));
        lemma_pool_string_reads(s, f, m.pool, m.strings[i].1 as int, m.strings[i].0);
    }
}

/// Asset entry `i` of the index region encodes asset `i`, whose payload lies in the image.
proof fn lemma_final_assets_entry(m: BuilderModel, i: int)
    requires
        m.wf(),
        0 <= i < m.assets.len(),
    ensures
        m.index_bytes().subrange(48 * i, 48 * i + 48) == m.assets[i].spec_bytes(),
        crate::bbf::petrify::entry_payload_offset(m.index_bytes(), i) == m.assets[i].file_offset,
        64 <= m.assets[i].file_offset,
        m.assets[i].file_offset + m.assets[i].file_size <= m.image.len(),
{
    lemma_asset_lengths();
    assert forall|x: Asset| #[trigger] asset_enc()(x).len() == 48 by {}
    lemma_concat_entries(m.assets, asset_enc(), 48);
    let ca = concat_entries(m.assets, asset_enc());
    let idx = m.index_bytes();
    let rest = concat_entries(m.pages, page_enc()) + concat_entries(m.sections, section_enc())
        + concat_entries(m.metadata, meta_enc()) + m.pool;
    assert(idx =~= Seq::<u8>::empty() + ca + rest);
    assert(48 * i + 48 <= 48 * m.assets.len()) by (nonlinear_arith)
        requires
            i < m.assets.len(),
    ;
    lemma_mid_window(Seq::<u8>::empty(), ca, rest, 48 * i, 48);
    assert(ca.subrange(48 * i, 48 * i + 48) == asset_enc()(m.assets[i]));
    lemma_asset_roundtrip(m.assets[i]);
    let e = m.assets[i].spec_bytes();
    assert(idx.subrange(48 * i, 48 * i + 8) =~= e.subrange(0, 8));
    assert(m.asset_wf(i));
}

/// How far linearizing the container that `m` finishes as moves its payloads.
pub open spec fn petrify_shift(m: BuilderModel) -> nat {
    data_shift(m.final_header(), m.final_footer(), m.index_bytes())
}

/// The linearized form of the container that `m` finishes as.
pub open spec fn petrified_of(m: BuilderModel) -> Seq<u8> {
    let idx = m.index_bytes();
    let f = m.final_footer();
    petrified_header(m.final_header()).spec_bytes() + petrified_footer(m.final_header(), f, idx).spec_bytes()
        + petrified_index(m.final_header(), f, idx) + zeros(index_padding(m.final_header(), m.final_footer(), idx))
        + m.image.subrange(64, m.image.len() as int)
}

/// The finished containers that linearization takes: header flag clear, index within the
/// size limit, every offset a non-negative signed 64-bit value.
pub open spec fn petrifiable(m: BuilderModel) -> bool {
    &&& m.wf()
    &&& m.assets.len() > 0
    &&& m.finalize_fits()
    &&& m.final_image().len() <= i64::MAX
    &&& petrify_shift(m) + m.image.len() <= i64::MAX
    &&& m.index_bytes().len() <= MAX_PETRIFY_INDEX_SIZE
    &&& m.flags & 1 == 0
}

/// A finished container linearizes without error, into `petrified_of(m)`.
pub proof fn law_finished_container_petrifies(m: BuilderModel)
    requires
        petrifiable(m),
    ensures
        !spec_petrify_bytes_overflows(m.final_image()),
        spec_petrify(m.final_image()) == Ok::<Seq<u8>, BbfError>(petrified_of(m)),
{
    law_finished_container_opens(m);
    lemma_final_layout(m);
    let s = m.final_image();
    let c = m.image.len() as int;
    let idx = m.index_bytes();
    let h = m.final_header();
    let f = m.final_footer();
    assert(h.magic@ =~= seq![0x42u8, 0x42u8, 0x46u8, 0x33u8]);
    assert(h.flags & 1 == 0);
    lemma_window(s, c, idx, 0, idx.len() as int);
    assert(idx.subrange(0, idx.len() as int) =~= idx);
    assert(s.subrange(c, c + idx.len()) == idx);
    assert(s.subrange(64, c) =~= m.image.subrange(64, c));
    assert(48 * m.assets.len() <= idx.len());
    assert(rewritten_entries(f, idx.len()) == m.assets.len()) by {
        vstd::arithmetic::div_mod::lemma_fundamental_div_mod(idx.len() as int, 48);
        assert(m.assets.len() <= idx.len() / 48) by {
            vstd::arithmetic::div_mod::lemma_div_is_ordered(
                48 * m.assets.len() as int,
                idx.len() as int,
                48,
            );
            vstd::arithmetic::div_mod::lemma_div_multiples_vanish(m.assets.len() as int, 48);
        }
    }
    assert(!spec_petrify_bytes_overflows(s)) by {
        assert forall|i: int| 0 <= i < rewritten_entries(f, idx.len()) implies crate::bbf::petrify::in_i64(
            crate::bbf::petrify::as_i64(#[trigger] crate::bbf::petrify::entry_payload_offset(idx, i))
                + petrify_shift(m),
        ) by {
            lemma_final_assets_entry(m, i);
        }
    }
}

/// Where the parts of a linearized container stand.
proof fn lemma_petrified_layout(m: BuilderModel)
    requires
        petrifiable(m),
    ensures
        ({
            let p = petrified_of(m);
            let c = m.image.len() as int;
            let idx = m.index_bytes();
            let pidx = petrified_index(m.final_header(), m.final_footer(), idx);
            &&& pidx == moved_index(idx, m.assets.len(), petrify_shift(m) as int)
            &&& pidx.len() == idx.len()
            &&& p.len() == petrify_shift(m) + c
            &&& p.subrange(0, 64) == petrified_header(m.final_header()).spec_bytes()
            &&& p.subrange(64, 320) == petrified_footer(m.final_header(), m.final_footer(), idx).spec_bytes()
            &&& forall|k: int| 0 <= k < idx.len() ==> p[320 + k] == #[trigger] pidx[k]
            &&& forall|q: int| 64 <= q < c ==> p[64 + petrify_shift(m) + (q - 64)] == #[trigger] m.image[q]
            &&& forall|k: int| 48 * m.assets.len() <= k < idx.len() ==> #[trigger] pidx[k] == idx[k]
        }),
{
    law_finished_container_petrifies(m);
    lemma_final_layout(m);
    lemma_asset_lengths();
    let p = petrified_of(m);
    let c = m.image.len() as int;
    let idx = m.index_bytes();
    let f = m.final_footer();
    let n = m.assets.len();
    assert(48 * n <= idx.len());
    assert(rewritten_entries(f, idx.len()) == n) by {
        vstd::arithmetic::div_mod::lemma_fundamental_div_mod(idx.len() as int, 48);
        vstd::arithmetic::div_mod::lemma_div_is_ordered(48 * n as int, idx.len() as int, 48);
        vstd::arithmetic::div_mod::lemma_div_multiples_vanish(n as int, 48);
    }
    let d = petrify_shift(m) as int;
    let pidx = petrified_index(m.final_header(), f, idx);
    lemma_moved_index_frame(idx, n, d);
    let hb = petrified_header(m.final_header()).spec_bytes();
    let fb = petrified_footer(m.final_header(), f, idx).spec_bytes();
    let img = m.image.subrange(64, c);
    let pad = zeros(index_padding(m.final_header(), m.final_footer(), idx));
    let front = hb + fb + pidx;
    assert(p =~= front + pad + img);
    assert(front.len() == 320 + idx.len());
    assert(p.subrange(0, 64) =~= hb);
    assert(p.subrange(64, 320) =~= fb);
    assert forall|k: int| 0 <= k < idx.len() implies p[320 + k] == #[trigger] pidx[k] by {
        assert(p[320 + k] == front[320 + k]);
    }
    assert forall|q: int| 64 <= q < c implies p[64 + petrify_shift(m) + (q - 64)] == #[trigger] m.image[q] by {
        assert(img[q - 64] == m.image[q]);
        assert(front.len() + pad.len() == 64 + d);
    }
    assert forall|k: int| 48 * n <= k < idx.len() implies #[trigger] pidx[k] == idx[k] by {
        assert(pidx.subrange(48 * n as int, idx.len() as int)[k - 48 * n] == pidx[k]);
        assert(idx.subrange(48 * n as int, idx.len() as int)[k - 48 * n] == idx[k]);
    }
}

/// A move that stays within 64 bits does not wrap.
proof fn lemma_shift_in_range(x: u64, delta: int)
    requires
        0 <= x + delta <= u64::MAX,
    ensures
        shift_offset(x, delta) == x + delta,
{
    vstd::arithmetic::div_mod::lemma_small_mod((x + delta) as nat, 0x1_0000_0000_0000_0000);
}

/// A linearized container opens: its header carries the flag and puts the footer right
/// after itself, and its footer puts the tables right after the footer.
pub proof fn law_petrified_container_opens(m: BuilderModel)
    requires
        petrifiable(m),
    ensures
        spec_open_error(petrified_of(m)) is None,
        !spec_open_overflows(petrified_of(m)),
        Header::spec_parse(petrified_of(m)) == petrified_header(m.final_header()),
        spec_footer_of(petrified_of(m)) == petrified_footer(m.final_header(), m.final_footer(), m.index_bytes()),
        petrified_header(m.final_header()).flags & 1 == 1,
        petrified_header(m.final_header()).footer_offset == 64,
        ({
            let pf = petrified_footer(m.final_header(), m.final_footer(), m.index_bytes());
            let a = 320 + 48 * m.assets.len();
            let pg = a + 16 * m.pages.len();
            let sc = pg + 32 * m.sections.len();
            let mt = sc + 32 * m.metadata.len();
            &&& pf.asset_offset == 320
            &&& pf.page_offset == a
            &&& pf.section_offset == pg
            &&& pf.meta_offset == sc
            &&& pf.string_pool_offset == mt
            &&& pf.string_pool_size == m.pool.len()
            &&& pf.asset_count == m.assets.len()
            &&& pf.page_count == m.pages.len()
            &&& pf.section_count == m.sections.len()
            &&& pf.meta_count == m.metadata.len()
            &&& pf.footer_hash == crate::bbf::hash::xxh3_64_of(petrified_index(m.final_header(), m.final_footer(), m.index_bytes()))
        }),
{
    lemma_petrified_layout(m);
    lemma_index_len(m);
    let p = petrified_of(m);
    let h = petrified_header(m.final_header());
    let f = m.final_footer();
    let pf = petrified_footer(m.final_header(), f, m.index_bytes());
    let delta = 320 - f.asset_offset;
    lemma_shift_in_range(f.asset_offset, delta);
    lemma_shift_in_range(f.page_offset, delta);
    lemma_shift_in_range(f.section_offset, delta);
    lemma_shift_in_range(f.meta_offset, delta);
    lemma_shift_in_range(f.string_pool_offset, delta);
    lemma_header_roundtrip(h);
    assert(h.spec_bytes().subrange(0, 64) =~= h.spec_bytes());
    lemma_header_parse_prefix(p, h.spec_bytes());
    assert(p.subrange(0, 4) =~= h.spec_bytes().subrange(0, 4));
    assert(h.magic@ =~= bbf3_magic());
    assert(p.subrange(4, 6) =~= h.spec_bytes().subrange(4, 6));
    assert(p.subrange(16, 24) =~= h.spec_bytes().subrange(16, 24));
    let fl = m.final_header().flags;
    assert((fl | 1u32) & 1u32 == 1u32) by (bit_vector);
    lemma_footer_roundtrip(pf);
    let fs = p.subrange(64, 320);
    assert(fs.subrange(0, 256) =~= pf.spec_bytes().subrange(0, 256));
    lemma_footer_parse_prefix(fs, pf.spec_bytes());
}

/// Entry `i` of the page, section and metadata tables, where it stands in the index region.
proof fn lemma_index_entries(m: BuilderModel)
    requires
        m.wf(),
    ensures
        ({
            let idx = m.index_bytes();
            let a = 48 * m.assets.len();
            let pg = a + 16 * m.pages.len();
            let sc = pg + 32 * m.sections.len();
            &&& forall|i: int|
                0 <= i < m.pages.len() ==> idx.subrange(a + 16 * i, a + 16 * i + 16)
                    == (#[trigger] m.pages[i]).spec_bytes()
            &&& forall|i: int|
                0 <= i < m.sections.len() ==> idx.subrange(pg + 32 * i, pg + 32 * i + 32)
                    == (#[trigger] m.sections[i]).spec_bytes()
            &&& forall|i: int|
                0 <= i < m.metadata.len() ==> idx.subrange(sc + 32 * i, sc + 32 * i + 32)
                    == (#[trigger] m.metadata[i]).spec_bytes()
        }),
{
    lemma_asset_lengths();
    assert forall|x: Asset| #[trigger] asset_enc()(x).len() == 48 by {}
    assert forall|x: Page| #[trigger] page_enc()(x).len() == 16 by {}
    assert forall|x: Section| #[trigger] section_enc()(x).len() == 32 by {}
    assert forall|x: Meta| #[trigger] meta_enc()(x).len() == 32 by {}
    lemma_concat_entries(m.assets, asset_enc(), 48);
    lemma_concat_entries(m.pages, page_enc(), 16);
    lemma_concat_entries(m.sections, section_enc(), 32);
    lemma_concat_entries(m.metadata, meta_enc(), 32);
    let idx = m.index_bytes();
    let ca = concat_entries(m.assets, asset_enc());
    let cp = concat_entries(m.pages, page_enc());
    let cs = concat_entries(m.sections, section_enc());
    let cm = concat_entries(m.metadata, meta_enc());
    let pool = m.pool;
    assert(idx =~= ca + cp + (cs + cm + pool));
    assert(idx =~= (ca + cp) + cs + (cm + pool));
    assert(idx =~= (ca + cp + cs) + cm + pool);
    assert forall|i: int| 0 <= i < m.pages.len() implies idx.subrange(
        ca.len() + 16 * i,
        ca.len() + 16 * i + 16,
    ) == (#[trigger] m.pages[i]).spec_bytes() by {
        assert(16 * i + 16 <= 16 * m.pages.len()) by (nonlinear_arith)
            requires
                i < m.pages.len(),
        ;
        lemma_mid_window(ca, cp, cs + cm + pool, 16 * i, 16);
        assert(cp.subrange(16 * i, 16 * i + 16) == page_enc()(m.pages[i]));
    }
    assert forall|i: int| 0 <= i < m.sections.len() implies idx.subrange(
        ca.len() + cp.len() + 32 * i,
        ca.len() + cp.len() + 32 * i + 32,
    ) == (#[trigger] m.sections[i]).spec_bytes() by {
        assert(32 * i + 32 <= 32 * m.sections.len()) by (nonlinear_arith)
            requires
                i < m.sections.len(),
        ;
        lemma_mid_window(ca + cp, cs, cm + pool, 32 * i, 32);
        assert(cs.subrange(32 * i, 32 * i + 32) == section_enc()(m.sections[i]));
    }
    assert forall|i: int| 0 <= i < m.metadata.len() implies idx.subrange(
        ca.len() + cp.len() + cs.len() + 32 * i,
        ca.len() + cp.len() + cs.len() + 32 * i + 32,
    ) == (#[trigger] m.metadata[i]).spec_bytes() by {
        assert(32 * i + 32 <= 32 * m.metadata.len()) by (nonlinear_arith)
            requires
                i < m.metadata.len(),
        ;
        lemma_mid_window(ca + cp + cs, cm, pool, 32 * i, 32);
        assert(cm.subrange(32 * i, 32 * i + 32) == meta_enc()(m.metadata[i]));
    }
}

/// The sizes of the index region and of the finished container.
proof fn lemma_index_len(m: BuilderModel)
    requires
        m.wf(),
        m.finalize_fits(),
    ensures
        m.index_bytes().len() == 48 * m.assets.len() + 16 * m.pages.len() + 32 * m.sections.len()
            + 32 * m.metadata.len() + m.pool.len(),
        m.final_image().len() == m.image.len() + m.index_bytes().len() + 256,
{
    lemma_final_layout(m);
}

/// Past the asset table, the index region of a linearized container is that of the
/// finished container.
proof fn lemma_petrified_window(m: BuilderModel, st: int, len: int)
    requires
        petrifiable(m),
        48 * m.assets.len() <= st,
        0 <= len,
        st + len <= m.index_bytes().len(),
    ensures
        petrified_of(m).subrange(320 + st, 320 + st + len) == m.index_bytes().subrange(st, st + len),
{
    lemma_petrified_layout(m);
    let pidx = petrified_index(m.final_header(), m.final_footer(), m.index_bytes());
    lemma_window(petrified_of(m), 320, pidx, st, len);
    lemma_same_window(pidx, m.index_bytes(), st, len, 48 * m.assets.len() as int);
}

/// Asset entry `j` of a linearized container records the payload offset moved past the
/// relocated index.
proof fn lemma_petrified_asset(m: BuilderModel, j: int)
    requires
        petrifiable(m),
        0 <= j < m.assets.len(),
    ensures
        petrified_of(m).subrange(320 + 48 * j, 320 + 48 * j + 48) == (Asset {
            file_offset: (m.assets[j].file_offset + petrify_shift(m)) as u64,
            ..m.assets[j]
        }).spec_bytes(),
{
    lemma_petrified_layout(m);
    lemma_index_len(m);
    let idx = m.index_bytes();
    let n = m.assets.len();
    let d = petrify_shift(m) as int;
    let pidx = petrified_index(m.final_header(), m.final_footer(), idx);
    assert(48 * j + 48 <= 48 * n) by (nonlinear_arith)
        requires
            j < n,
    ;
    lemma_window(petrified_of(m), 320, pidx, 48 * j, 48);
    lemma_moved_index_entry(idx, n, d, j);
    lemma_final_assets_entry(m, j);
    lemma_asset_roundtrip(m.assets[j]);
    lemma_shift_in_range(m.assets[j].file_offset, d);
    let moved = moved_asset(idx, j, d);
    assert(moved == Asset {
        file_offset: (m.assets[j].file_offset + petrify_shift(m)) as u64,
        ..m.assets[j]
    });
}

/// The entries that a linearized container's tables hold, as the builder recorded them,
/// asset payload offsets moved past the relocated index.
pub proof fn law_petrified_tables_read_back(m: BuilderModel, r: Reader)
    requires
        petrifiable(m),
        r.wf(),
        r.source@ == petrified_of(m),
    ensures
        r.header == petrified_header(m.final_header()),
        r.footer == petrified_footer(m.final_header(), m.final_footer(), m.index_bytes()),
        forall|j: u64|
            j < m.assets.len() ==> #[trigger] r.spec_get_asset(j) == Ok::<Asset, BbfError>(
                Asset {
                    file_offset: (m.assets[j as int].file_offset + petrify_shift(m)) as u64,
                    ..m.assets[j as int]
                },
            ),
        forall|i: u64| i < m.pages.len() ==> #[trigger] r.spec_get_page(i) == Ok::<Page, BbfError>(m.pages[i as int]),
        forall|i: u64| i < m.sections.len() ==> #[trigger] r.spec_get_section(i) == Ok::<Section, BbfError>(m.sections[i as int]),
        forall|i: u64| i < m.metadata.len() ==> #[trigger] r.spec_get_meta(i) == Ok::<Meta, BbfError>(m.metadata[i as int]),
{
    law_petrified_container_opens(m);
    lemma_petrified_layout(m);
    lemma_index_len(m);
    lemma_index_entries(m);
    let idx = m.index_bytes();
    let a = 48 * m.assets.len();
    let pg = a + 16 * m.pages.len();
    let sc = pg + 32 * m.sections.len();
    assert forall|j: u64| j < m.assets.len() implies #[trigger] r.spec_get_asset(j) == Ok::<Asset, BbfError>(
        Asset {
            file_offset: (m.assets[j as int].file_offset + petrify_shift(m)) as u64,
            ..m.assets[j as int]
        },
    ) by {
        assert(48 * j + 48 <= 48 * m.assets.len()) by (nonlinear_arith)
            requires
                j < m.assets.len(),
        ;
        lemma_petrified_asset(m, j as int);
        lemma_final_assets_entry(m, j as int);
        assert(r.footer.asset_offset == 320);
        assert(r.footer.asset_count == m.assets.len());
        assert(r.source@.len() == petrify_shift(m) + m.image.len());
        lemma_asset_roundtrip(Asset {
            file_offset: (m.assets[j as int].file_offset + petrify_shift(m)) as u64,
            ..m.assets[j as int]
        });
    }
    assert forall|i: u64| i < m.pages.len() implies #[trigger] r.spec_get_page(i) == Ok::<Page, BbfError>(m.pages[i as int]) by {
        assert(m.pages[i as int] == m.pages[i as int]);
        assert(16 * i + 16 <= 16 * m.pages.len()) by (nonlinear_arith)
            requires
                i < m.pages.len(),
        ;
        lemma_petrified_window(m, a + 16 * i, 16);
        lemma_page_roundtrip(m.pages[i as int]);
    }
    assert forall|i: u64| i < m.sections.len() implies #[trigger] r.spec_get_section(i) == Ok::<Section, BbfError>(m.sections[i as int]) by {
        assert(m.sections[i as int] == m.sections[i as int]);
        assert(32 * i + 32 <= 32 * m.sections.len()) by (nonlinear_arith)
            requires
                i < m.sections.len(),
        ;
        lemma_petrified_window(m, pg + 32 * i, 32);
        lemma_section_roundtrip(m.sections[i as int]);
    }
    assert forall|i: u64| i < m.metadata.len() implies #[trigger] r.spec_get_meta(i) == Ok::<Meta, BbfError>(m.metadata[i as int]) by {
        assert(m.metadata[i as int] == m.metadata[i as int]);
        assert(32 * i + 32 <= 32 * m.metadata.len()) by (nonlinear_arith)
            requires
                i < m.metadata.len(),
        ;
        lemma_petrified_window(m, sc + 32 * i, 32);
        lemma_meta_roundtrip(m.metadata[i as int]);
    }
}

/// Two sequences that agree from `from` on agree on every window there.
proof fn lemma_same_window(a: Seq<u8>, b: Seq<u8>, start: int, len: int, from: int)
    requires
        from <= start,
        0 <= start,
        0 <= len,
        start + len <= a.len(),
        a.len() == b.len(),
        forall|k: int| from <= k < a.len() ==> #[trigger] a[k] == b[k],
    ensures
        a.subrange(start, start + len) == b.subrange(start, start + len),
{
    assert(a.subrange(start, start + len) =~= b.subrange(start, start + len));
}

/// In a linearized container every asset holds the payload of the page that created it at
/// its moved offset and passes its hash check, every page shows an asset whose payload
/// hashes as the page's own payload, and the relocated index passes the footer's hash check.
pub proof fn law_petrified_payloads_read_back(m: BuilderModel, r: Reader)
    requires
        petrifiable(m),
        m.keys_honest(),
        petrified_of(m).len() <= usize::MAX,
        r.wf(),
        r.source@ == petrified_of(m),
    ensures
        forall|j: int|
            0 <= j < m.assets.len() ==> #[trigger] r.source@.subrange(
                m.assets[j].file_offset + petrify_shift(m),
                m.assets[j].file_offset + petrify_shift(m) + m.assets[j].file_size,
            ) == m.page_payloads[m.asset_sources[j]],
        forall|j: u64| j < m.assets.len() ==> #[trigger] r.spec_asset_hash_ok(j),
        forall|i: int|
            0 <= i < m.pages.len() ==> {
                let a = m.assets[m.pages[i].asset_index as int];
                let o = a.file_offset + petrify_shift(m);
                xxh3_128_of(r.source@.subrange(o, o + a.file_size)) == xxh3_128_of(
                    #[trigger] m.page_payloads[i],
                )
            },
        r.spec_footer_hash_ok(),
{
    law_petrified_tables_read_back(m, r);
    law_petrified_container_opens(m);
    lemma_petrified_layout(m);
    lemma_index_len(m);
    let p = petrified_of(m);
    let c = m.image.len() as int;
    let idx = m.index_bytes();
    let d = petrify_shift(m) as int;
    assert forall|j: int| 0 <= j < m.assets.len() implies #[trigger] r.source@.subrange(
        m.assets[j].file_offset + petrify_shift(m),
        m.assets[j].file_offset + petrify_shift(m) + m.assets[j].file_size,
    ) == m.page_payloads[m.asset_sources[j]] by {
        assert(m.asset_wf(j));
        let a = m.assets[j];
        assert forall|t: int| 0 <= t < a.file_size implies #[trigger] p.subrange(
            a.file_offset + d,
            a.file_offset + d + a.file_size,
        )[t] == m.image.subrange(a.file_offset as int, a.file_offset + a.file_size)[t] by {
            let q = a.file_offset + t;
            assert(p[64 + petrify_shift(m) + (q - 64)] == m.image[q]);
        }
        assert(p.subrange(a.file_offset + d, a.file_offset + d + a.file_size) =~= m.image.subrange(
            a.file_offset as int,
            a.file_offset + a.file_size,
        ));
    }
    assert forall|j: u64| j < m.assets.len() implies #[trigger] r.spec_asset_hash_ok(j) by {
        assert(m.asset_wf(j as int));
        let src = m.asset_sources[j as int];
        assert(m.page_keys[src] == xxh3_128_of(m.page_payloads[src]));
        assert(r.source@.subrange(
            m.assets[j as int].file_offset + petrify_shift(m),
            m.assets[j as int].file_offset + petrify_shift(m) + m.assets[j as int].file_size,
        ) == m.page_payloads[m.asset_sources[j as int]]);
    }
    assert forall|i: int| 0 <= i < m.pages.len() implies {
        let a = m.assets[m.pages[i].asset_index as int];
        let o = a.file_offset + petrify_shift(m);
        xxh3_128_of(r.source@.subrange(o, o + a.file_size)) == xxh3_128_of(
            #[trigger] m.page_payloads[i],
        )
    } by {
        assert(m.page_wf(i));
        let j = m.pages[i].asset_index as int;
        assert(m.asset_wf(j));
        let src = m.asset_sources[j];
        assert(m.page_keys[src] == xxh3_128_of(m.page_payloads[src]));
        assert(m.page_keys[i] == xxh3_128_of(m.page_payloads[i]));
        assert(r.source@.subrange(
            m.assets[j].file_offset + petrify_shift(m),
            m.assets[j].file_offset + petrify_shift(m) + m.assets[j].file_size,
        ) == m.page_payloads[m.asset_sources[j]]);
    }
    let pidx = petrified_index(m.final_header(), m.final_footer(), idx);
    lemma_window(p, 320, pidx, 0, idx.len() as int);
    assert(pidx.subrange(0, idx.len() as int) =~= pidx);
}

/// Every interned string of a linearized container that has no zero byte and is shorter
/// than the scan limit reads back as its bytes.
pub proof fn law_petrified_strings_read_back(m: BuilderModel, r: Reader)
    requires
        petrifiable(m),
        petrified_of(m).len() + 2048 <= usize::MAX,
        r.wf(),
        r.source@ == petrified_of(m),
    ensures
        forall|i: int|
            0 <= i < m.strings.len() && m.strings[i].0.len() < 2048 && (forall|k: int|
                0 <= k < m.strings[i].0.len() ==> m.strings[i].0[k] != 0) ==> {
                &&& !spec_string_scan_overruns(r.source@, r.footer, #[trigger] m.strings[i].1)
                &&& spec_string_bytes(r.source@, r.footer, m.strings[i].1) == Ok::<Seq<u8>, BbfError>(
                    m.strings[i].0,
                )
            },
{
    law_petrified_tables_read_back(m, r);
    law_petrified_container_opens(m);
    lemma_petrified_layout(m);
    lemma_index_len(m);
    let p = petrified_of(m);
    let idx = m.index_bytes();
    let f = r.footer;
    let pre = idx.len() - m.pool.len();
    assert(f.string_pool_offset == 320 + pre);
    assert(idx =~= idx.subrange(0, pre) + m.pool);
    let pidx = petrified_index(m.final_header(), m.final_footer(), idx);
    assert forall|k: int| 0 <= k < m.pool.len() implies p[f.string_pool_offset + k]
        == #[trigger] m.pool[k] by {
        assert(p[320 + (pre + k)] == pidx[pre + k]);
        assert(pidx[pre + k] == idx[pre + k]);
    }
    assert forall|i: int|
        0 <= i < m.strings.len() && m.strings[i].0.len() < 2048 && (forall|k: int|
            0 <= k < m.strings[i].0.len() ==> m.strings[i].0[k] != 0) implies {
        &&& !spec_string_scan_overruns(r.source@, r.footer, #[trigger] m.strings[i].1)
        &&& spec_string_bytes(r.source@, r.footer, m.strings[i].1) == Ok::<Seq<u8>, BbfError>(
            m.strings[i].0,
        )
    } by {
        assert(pool_holds(m.pool, m.strings[i].1 as int, m.strings[i].0));
        lemma_pool_string_reads(p, f, m.pool, m.strings[i].1 as int, m.strings[i].0);
    }
}

/// What reading offset `o` of a string pool gives, looked up in the pool alone.
pub open spec fn pool_string_bytes(pool: Seq<u8>, o: u64) -> Result<Seq<u8>, BbfError> {
    if o == u64::MAX {
        Err(BbfError::NullString)
    } else if o >= pool.len() {
        Err(BbfError::StringOffsetOutOfPool { offset: o, pool_size: pool.len() as u64 })
    } else {
        let end = if o + 2048 < pool.len() {
            o + 2048
        } else {
            pool.len() as int
        };
        match zero_terminated(pool.subrange(o as int, end)) {
            Some(b) => Ok(b),
            None => Err(BbfError::UnterminatedString),
        }
    }
}

/// A container whose footer locates `pool` reads every offset as the pool alone does, and
/// reading scans past neither the container nor the address space.
proof fn lemma_pool_reads(s: Seq<u8>, f: Footer, pool: Seq<u8>, o: u64)
    requires
        f.string_pool_size == pool.len(),
        f.string_pool_offset + pool.len() <= s.len(),
        s.len() + 2048 <= usize::MAX,
        forall|k: int| 0 <= k < pool.len() ==> s[f.string_pool_offset + k] == #[trigger] pool[k],
    ensures
        !spec_string_scan_overruns(s, f, o),
        spec_string_bytes(s, f, o) == pool_string_bytes(pool, o),
{
    if o != u64::MAX && o < pool.len() {
        let start = f.string_pool_offset + o;
        let pool_end = f.string_pool_offset + pool.len();
        let scan_end = if start + 2048 < pool_end {
            start + 2048
        } else {
            pool_end
        };
        let end = if o + 2048 < pool.len() {
            o + 2048
        } else {
            pool.len() as int
        };
        assert(s.subrange(start, scan_end) =~= pool.subrange(o as int, end)) by {
            assert forall|k: int| 0 <= k < scan_end - start implies s.subrange(start, scan_end)[k]
                == pool.subrange(o as int, end)[k] by {
                assert(s[f.string_pool_offset + (o + k)] == pool[o + k]);
            }
        }
    }
}

/// Linearizing changes what no string offset reads: every offset of the pool, and every
/// offset past it, reads in the linearized container as in the finished one, and neither
/// read scans past the container.
pub proof fn law_petrified_strings_read_same(m: BuilderModel, r: Reader, r2: Reader)
    requires
        petrifiable(m),
        m.final_image().len() + 2048 <= usize::MAX,
        petrified_of(m).len() + 2048 <= usize::MAX,
        r.wf(),
        r.source@ == m.final_image(),
        r2.wf(),
        r2.source@ == petrified_of(m),
    ensures
        forall|o: u64|
            !spec_string_scan_overruns(r.source@, r.footer, o) && !spec_string_scan_overruns(
                r2.source@,
                r2.footer,
                o,
            ) && #[trigger] spec_string_bytes(r2.source@, r2.footer, o) == spec_string_bytes(
                r.source@,
                r.footer,
                o,
            ),
{
    law_finished_tables_read_back(m, r);
    law_petrified_tables_read_back(m, r2);
    law_petrified_container_opens(m);
    lemma_final_layout(m);
    lemma_petrified_layout(m);
    lemma_index_len(m);
    let s = m.final_image();
    let p = petrified_of(m);
    let c = m.image.len() as int;
    let idx = m.index_bytes();
    let pre = idx.len() - m.pool.len();
    assert(idx =~= idx.subrange(0, pre) + m.pool);
    let f = r.footer;
    let f2 = r2.footer;
    assert(f.string_pool_offset == c + pre);
    assert(f2.string_pool_offset == 320 + pre);
    assert forall|k: int| 0 <= k < m.pool.len() implies s[f.string_pool_offset + k]
        == #[trigger] m.pool[k] by {
        assert(s[c + (pre + k)] == idx[pre + k]);
    }
    let pidx = petrified_index(m.final_header(), m.final_footer(), idx);
    assert forall|k: int| 0 <= k < m.pool.len() implies p[f2.string_pool_offset + k]
        == #[trigger] m.pool[k] by {
        assert(p[320 + (pre + k)] == pidx[pre + k]);
        assert(pidx[pre + k] == idx[pre + k]);
    }
    assert forall|o: u64|
        !spec_string_scan_overruns(r.source@, r.footer, o) && !spec_string_scan_overruns(
            r2.source@,
            r2.footer,
            o,
        ) && #[trigger] spec_string_bytes(r2.source@, r2.footer, o) == spec_string_bytes(
            r.source@,
            r.footer,
            o,
        ) by {
        lemma_pool_reads(s, f, m.pool, o);
        lemma_pool_reads(p, f2, m.pool, o);
    }
}

/// The boundary a payload of a model is aligned to is 2^k for some `k` within the cap that
/// linearization keeps.
proof fn lemma_boundary_exp(m: BuilderModel, size: nat) -> (k: nat)
    ensures
        k <= cap_exp(m.alignment),
        spec_boundary(m, size) == pow2(k),
{
    vstd::arithmetic::power2::lemma2_to64();
    if spec_boundary(m, size) == 8 && !(pow2((m.alignment % 64) as nat) == 8) {
        3
    } else {
        (m.alignment % 64) as nat
    }
}

/// A multiple of `g` is a multiple of each divisor of `g`.
proof fn lemma_multiple_of_divisor(x: int, b: int, g: int)
    requires
        b > 0,
        g > 0,
        g % b == 0,
        x % g == 0,
    ensures
        x % b == 0,
{
    vstd::arithmetic::div_mod::lemma_fundamental_div_mod(g, b);
    let c = g / b;
    assert(c > 0) by (nonlinear_arith)
        requires
            g == b * c,
            g > 0,
            b > 0,
    ;
    vstd::arithmetic::div_mod::lemma_mod_mod(x, b, c);
    assert(b * c == g);
}

/// Moving a payload of a model by a multiple of the granule of its index keeps the payload
/// on its boundary.
proof fn lemma_moved_offset_aligned(m: BuilderModel, j: int, d: nat)
    requires
        m.wf(),
        0 <= j < m.assets.len(),
        d % pow2(entries_granule_exp(m.index_bytes(), m.assets.len(), cap_exp(m.alignment)))
            == 0,
    ensures
        (m.assets[j].file_offset + d) % (spec_boundary(m, m.assets[j].file_size as nat) as int)
            == 0,
{
    let idx = m.index_bytes();
    let na = m.assets.len();
    let e = cap_exp(m.alignment);
    let ge = entries_granule_exp(idx, na, e);
    let g = pow2(ge);
    let x = m.assets[j];
    assert(m.asset_wf(j));
    let b = spec_boundary(m, x.file_size as nat);
    let k = lemma_boundary_exp(m, x.file_size as nat);
    vstd::arithmetic::power2::lemma_pow2_pos(k);
    vstd::arithmetic::power2::lemma_pow2_pos(ge);
    lemma_final_assets_entry(m, j);
    lemma_offset_granule_covers(x.file_offset, e, k);
    lemma_entries_granule_covers(idx, na, e, j);
    lemma_pow2_divides(k, ge);
    assert(g % b == 0);
    lemma_multiple_of_divisor(d as int, b as int, g as int);
    assert((x.file_offset as int) % (b as int) == 0);
    assert((d as int) % (b as int) == 0);
    vstd::arithmetic::div_mod::lemma_add_mod_noop(x.file_offset as int, d as int, b as int);
    vstd::arithmetic::div_mod::lemma_small_mod(0, b);
}

/// Linearization keeps every payload aligned: each moved payload offset is a multiple of
/// the boundary the builder aligned that payload to.
pub proof fn law_petrified_payloads_aligned(m: BuilderModel, r: Reader)
    requires
        petrifiable(m),
        r.wf(),
        r.source@ == petrified_of(m),
    ensures
        forall|j: u64|
            j < m.assets.len() ==> (#[trigger] r.spec_get_asset(j) matches Ok(a) && (
            a.file_offset as nat) % spec_boundary(m, a.file_size as nat) == 0),
{
    law_petrified_tables_read_back(m, r);
    lemma_final_layout(m);
    let idx = m.index_bytes();
    let f = m.final_footer();
    let na = m.assets.len();
    assert(rewritten_entries(f, idx.len()) == na) by {
        assert(48 * na <= idx.len());
        vstd::arithmetic::div_mod::lemma_fundamental_div_mod(idx.len() as int, 48);
        vstd::arithmetic::div_mod::lemma_div_is_ordered(48 * na as int, idx.len() as int, 48);
        vstd::arithmetic::div_mod::lemma_div_multiples_vanish(na as int, 48);
    }
    let ge = entries_granule_exp(idx, na, cap_exp(m.alignment));
    let d = petrify_shift(m);
    assert(d % pow2(ge) == 0) by {
        vstd::arithmetic::power2::lemma_pow2_pos(ge);
        crate::bbf::writer::lemma_padding_aligns((256 + idx.len()) as nat, pow2(ge));
    }
    assert forall|j: u64| j < m.assets.len() implies (#[trigger] r.spec_get_asset(j) matches Ok(a)
        && (a.file_offset as nat) % spec_boundary(m, a.file_size as nat) == 0) by {
        lemma_moved_offset_aligned(m, j as int, d);
        lemma_final_assets_entry(m, j as int);
    }
}

/// A linearized container is not linearized again: the attempt is refused.
pub proof fn law_petrify_refuses_petrified(m: BuilderModel)
    requires
        petrifiable(m),
    ensures
        spec_petrify(petrified_of(m)) == Err::<Seq<u8>, BbfError>(BbfError::AlreadyPetrified),
{
    law_petrified_container_opens(m);
    lemma_petrified_layout(m);
    let h = petrified_header(m.final_header());
    assert(h.magic@ =~= seq![0x42u8, 0x42u8, 0x46u8, 0x33u8]);
}

/// A page whose payload hashes as an earlier page's payload adds no asset and writes no
/// byte: it shows the asset that already holds that payload.
pub proof fn law_duplicate_page_is_stored_once(
    m: BuilderModel,
    ext: Option<Seq<u8>>,
    data: Seq<u8>,
    page_flags: u32,
    asset_flags: u32,
    earlier: int,
)
    requires
        m.wf(),
        m.keys_honest(),
        0 <= earlier < m.pages.len(),
        xxh3_128_of(m.page_payloads[earlier]) == xxh3_128_of(data),
    ensures
        ({
            let (n, r) = m.spec_add_page(ext, data, page_flags, asset_flags);
            &&& r == Ok::<bool, BbfError>(true)
            &&& n.image == m.image
            &&& n.assets == m.assets
            &&& n.pages == m.pages.push(Page { asset_index: m.pages[earlier].asset_index, flags: page_flags })
        }),
{
    assert(m.page_wf(earlier));
    assert(m.page_keys[earlier] == xxh3_128_of(m.page_payloads[earlier]));
    let j = m.pages[earlier].asset_index as int;
    let h = xxh3_128_of(data);
    assert(m.asset_keys[j] == h);
    let c = choose|c: int| 0 <= c < m.asset_keys.len() && m.asset_keys[c] == h;
    if c != j {
        if c < j {
            assert(m.asset_keys[c] != m.asset_keys[j]);
        } else {
            assert(m.asset_keys[j] != m.asset_keys[c]);
        }
    }
}

/// A new payload starts at a multiple of the boundary its size calls for.
pub proof fn law_new_asset_is_aligned(
    m: BuilderModel,
    ext: Option<Seq<u8>>,
    data: Seq<u8>,
    page_flags: u32,
    asset_flags: u32,
)
    requires
        m.wf(),
        m.find_asset(xxh3_128_of(data)) is None,
        m.new_asset_start(data.len()) + data.len() <= u64::MAX,
    ensures
        ({
            let n = m.spec_add_page(ext, data, page_flags, asset_flags).0;
            (n.assets.last().file_offset as nat) % spec_boundary(m, data.len()) == 0
        }),
{
    let b = spec_boundary(m, data.len());
    let c = m.image.len();
    assert(b > 0) by {
        vstd::arithmetic::power2::lemma_pow2_pos((m.alignment % 64) as nat);
    }
    if c % b != 0 {
        vstd::arithmetic::div_mod::lemma_fundamental_div_mod(c as int, b as int);
        let q = c as int / b as int;
        assert(c + (b - c % b) == b * (q + 1)) by (nonlinear_arith)
            requires
                c == b * q + c % b,
        ;
        vstd::arithmetic::div_mod::lemma_mod_multiples_basic(q + 1, b as int);
        vstd::arithmetic::mul::lemma_mul_is_commutative(b as int, q + 1);
    }
}

/// Each string is stored in the pool once: interning a string a second time gives the
/// offset it got the first time and changes nothing.
pub proof fn law_string_interned_once(m: BuilderModel, b: Seq<u8>)
    ensures
        ({
            let (m1, o1) = m.intern(b);
            let (m2, o2) = m1.intern(b);
            &&& m2 == m1
            &&& o2 == o1
        }),
{
    let (m1, o1) = m.intern(b);
    if find_string(m.strings, b) is None {
        let last = m.strings.len() as int;
        assert(m1.strings[last].0 == b);
        let i = choose|i: int| 0 <= i < m1.strings.len() && m1.strings[i].0 == b;
        if i < last {
            assert(m.strings[i].0 == b);
        }
        assert(find_string(m1.strings, b) == Some(o1));
    }
}

/// An interned string stands in the pool, zero-terminated, at the offset interning gives.
pub proof fn law_interned_string_stands_in_pool(m: BuilderModel, b: Seq<u8>)
    requires
        m.strings_wf(),
        m.pool.len() <= u64::MAX,
    ensures
        ({
            let (m1, o) = m.intern(b);
            &&& pool_holds(m1.pool, o as int, b)
            &&& m1.strings_wf()
        }),
{
    let (m1, o) = m.intern(b);
    if find_string(m.strings, b) is Some {
        let i = choose|i: int| 0 <= i < m.strings.len() && m.strings[i].0 == b;
        assert(pool_holds(m.pool, m.strings[i].1 as int, m.strings[i].0));
    } else {
        let p = m.pool;
        assert(m1.pool.subrange(p.len() as int, (p.len() + b.len()) as int) =~= b);
        assert(m1.pool[(p.len() + b.len()) as int] == 0);
        assert forall|i: int| 0 <= i < m1.strings.len() implies pool_holds(
            m1.pool,
            #[trigger] m1.strings[i].1 as int,
            m1.strings[i].0,
        ) by {
            if i < m.strings.len() {
                let x = m.strings[i];
                assert(pool_holds(p, x.1 as int, x.0));
                assert(m1.pool.subrange(x.1 as int, x.1 + x.0.len()) =~= p.subrange(
                    x.1 as int,
                    x.1 + x.0.len(),
                ));
                assert(m1.pool[x.1 + x.0.len()] == p[x.1 + x.0.len()]);
            } else {
                assert(m1.strings[i] == (b, p.len() as u64));
            }
        }
        assert forall|i: int, j: int|
            0 <= i < j < m1.strings.len() implies #[trigger] m1.strings[i].0
            != #[trigger] m1.strings[j].0 by {
            if j == m.strings.len() as int {
                assert(m.strings[i].0 != b);
            }
        }
    }
}

/// A window of a window: where `w` stands in `s` at `st`, its bytes from `k` stand at `st + k`.
proof fn lemma_sub_of_sub(s: Seq<u8>, st: int, w: Seq<u8>, k: int, n: int)
    requires
        0 <= st,
        0 <= k,
        0 <= n,
        k + n <= w.len(),
        st + w.len() <= s.len(),
        s.subrange(st, st + w.len()) == w,
    ensures
        s.subrange(st + k, st + k + n) == w.subrange(k, k + n),
{
    assert forall|i: int| 0 <= i < n implies #[trigger] s.subrange(st + k, st + k + n)[i]
        == w.subrange(k, k + n)[i] by {
        assert(s.subrange(st, st + w.len())[k + i] == s[st + k + i]);
    }
    assert(s.subrange(st + k, st + k + n) =~= w.subrange(k, k + n));
}

/// Linearizing keeps every header field but two: the flags gain the petrification flag
/// and keep all others, and the footer offset becomes 64, right after the header. The
/// footer that follows puts the asset table at 320, right after itself.
pub proof fn law_petrify_header_bytes(s: Seq<u8>)
    ensures
        spec_petrify(s) matches Ok(out) ==> {
            &&& out.subrange(0, 4) == s.subrange(0, 4)
            &&& u16_at(out, 4) == u16_at(s, 4)
            &&& u16_at(out, 6) == u16_at(s, 6)
            &&& u32_at(out, 8) == u32_at(s, 8) | 1u32
            &&& out[12] == s[12]
            &&& out[13] == s[13]
            &&& u16_at(out, 14) == u16_at(s, 14)
            &&& u64_at(out, 16) == 64
            &&& u64_at(out, 64) == 320
        },
{
    if let Ok(out) = spec_petrify(s) {
        let h = Header::spec_parse(s);
        let f = Footer::spec_parse(s.subrange(h.footer_offset as int, h.footer_offset + 256));
        let ph = petrified_header(h);
        let n = (h.footer_offset - f.asset_offset) as int;
        let index = s.subrange(f.asset_offset as int, f.asset_offset + n);
        let pf = petrified_footer(h, f, index);
        law_header_layout(ph);
        law_footer_layout(pf);
        law_header_decoding(s);
        let hb = ph.spec_bytes();
        let fb = pf.spec_bytes();
        let rest = petrified_index(h, f, index) + zeros(index_padding(h, f, index)) + s.subrange(
            64,
            f.asset_offset as int,
        );
        assert(out =~= hb + fb + rest);
        assert(out.subrange(0, 64) =~= hb);
        assert(out.subrange(64, 320) =~= fb);
        lemma_sub_of_sub(out, 0, hb, 0, 4);
        lemma_sub_of_sub(out, 0, hb, 4, 2);
        lemma_sub_of_sub(out, 0, hb, 6, 2);
        lemma_sub_of_sub(out, 0, hb, 8, 4);
        lemma_sub_of_sub(out, 0, hb, 14, 2);
        lemma_sub_of_sub(out, 0, hb, 16, 8);
        lemma_sub_of_sub(out, 64, fb, 0, 8);
        assert(out[12] == hb[12]);
        assert(out[13] == hb[13]);
        assert(hb.subrange(0, 4) =~= h.magic@);
        lemma_shift_in_range(f.asset_offset, 320 - f.asset_offset);
    }
}

/// A finished container begins with the header that describes it: magic "BBF3", version
/// 3, header length 64, the builder's flags and exponents, and the offset of the footer,
/// which fills the last 256 bytes.
pub proof fn law_finished_header_bytes(m: BuilderModel)
    requires
        m.wf(),
        m.finalize_fits(),
    ensures
        ({
            let s = m.final_image();
            &&& s.subrange(0, 4) == seq![0x42u8, 0x42u8, 0x46u8, 0x33u8]
            &&& u16_at(s, 4) == 3
            &&& u16_at(s, 6) == 64
            &&& u32_at(s, 8) == m.flags
            &&& s[12] == m.alignment
            &&& s[13] == m.ream_size
            &&& u16_at(s, 14) == 0
            &&& u64_at(s, 16) + 256 == s.len()
        }),
{
    lemma_final_layout(m);
    let s = m.final_image();
    let hd = m.final_header();
    let hb = hd.spec_bytes();
    law_header_layout(hd);
    lemma_sub_of_sub(s, 0, hb, 0, 4);
    lemma_sub_of_sub(s, 0, hb, 4, 2);
    lemma_sub_of_sub(s, 0, hb, 6, 2);
    lemma_sub_of_sub(s, 0, hb, 8, 4);
    lemma_sub_of_sub(s, 0, hb, 14, 2);
    lemma_sub_of_sub(s, 0, hb, 16, 8);
    assert(s[12] == s.subrange(0, 64)[12]);
    assert(s[13] == s.subrange(0, 64)[13]);
    assert(hd.magic@ =~= seq![0x42u8, 0x42u8, 0x46u8, 0x33u8]);
}

/// The footer of a finished container, in its last 256 bytes, locates each table right
/// after the one before it, starting where the payloads end; counts each table; sizes the
/// string pool; and records the XXH3-64 hash of everything from the asset table to the end
/// of the pool.
pub proof fn law_finished_footer_bytes(m: BuilderModel)
    requires
        m.wf(),
        m.finalize_fits(),
    ensures
        ({
            let s = m.final_image();
            let fo = s.len() - 256;
            let c = m.image.len();
            let a = c + 48 * m.assets.len();
            let p = a + 16 * m.pages.len();
            let sc = p + 32 * m.sections.len();
            let mt = sc + 32 * m.metadata.len();
            &&& u64_at(s, fo) == c
            &&& u64_at(s, fo + 8) == a
            &&& u64_at(s, fo + 16) == p
            &&& u64_at(s, fo + 24) == sc
            &&& u64_at(s, fo + 40) == mt
            &&& u64_at(s, fo + 48) == m.pool.len()
            &&& mt + m.pool.len() == fo
            &&& u64_at(s, fo + 56) == m.assets.len()
            &&& u64_at(s, fo + 64) == m.pages.len()
            &&& u64_at(s, fo + 72) == m.sections.len()
            &&& u64_at(s, fo + 80) == m.metadata.len()
            &&& u64_at(s, fo + 104) == xxh3_64_of(s.subrange(c as int, fo))
        }),
{
    lemma_final_layout(m);
    let s = m.final_image();
    let c = m.image.len() as int;
    let idx = m.index_bytes();
    let fo = c + idx.len();
    let ft = m.final_footer();
    let fb = ft.spec_bytes();
    law_footer_layout(ft);
    assert(s.subrange(fo, fo + 256) == fb);
    lemma_sub_of_sub(s, fo, fb, 0, 8);
    lemma_sub_of_sub(s, fo, fb, 8, 8);
    lemma_sub_of_sub(s, fo, fb, 16, 8);
    lemma_sub_of_sub(s, fo, fb, 24, 8);
    lemma_sub_of_sub(s, fo, fb, 40, 8);
    lemma_sub_of_sub(s, fo, fb, 48, 8);
    lemma_sub_of_sub(s, fo, fb, 56, 8);
    lemma_sub_of_sub(s, fo, fb, 64, 8);
    lemma_sub_of_sub(s, fo, fb, 72, 8);
    lemma_sub_of_sub(s, fo, fb, 80, 8);
    lemma_sub_of_sub(s, fo, fb, 104, 8);
    lemma_window(s, c, idx, 0, idx.len() as int);
    assert(idx.subrange(0, idx.len() as int) =~= idx);
}

/// Adding a page appends exactly one page, carrying the page flags given, and keeps every
/// earlier page and asset; the page shows an asset whose key is the one given. A key that
/// no asset has makes the payload a new asset at the end, written after everything before
/// it: the asset records the asset flags, the media type of the extension, the key as its
/// hash and the payload's size, and the payload's bytes stand at its offset, the first
/// multiple of the payload's boundary at or after the bytes written before, with zero bytes
/// in between. A key that an asset has writes no byte.
pub proof fn law_add_page_records(
    m: BuilderModel,
    ext: Option<Seq<u8>>,
    data: Seq<u8>,
    h: u128,
    page_flags: u32,
    asset_flags: u32,
)
    requires
        m.wf(),
        m.assets.len() <= u64::MAX,
    ensures
        ({
            let (n, r) = m.spec_add_hashed_page(ext, data, h, page_flags, asset_flags);
            r is Ok ==> {
                &&& n.pages.len() == m.pages.len() + 1
                &&& n.pages.subrange(0, m.pages.len() as int) == m.pages
                &&& n.pages.last().flags == page_flags
                &&& n.assets.subrange(0, m.assets.len() as int) == m.assets
                &&& n.pages.last().asset_index < n.assets.len()
                &&& n.asset_keys[n.pages.last().asset_index as int] == h
                &&& n.page_payloads.last() == data
                &&& (n.assets.len() == m.assets.len() ==> n.image == m.image)
                &&& (n.assets.len() != m.assets.len() ==> {
                    let a = n.assets.last();
                    &&& n.assets.len() == m.assets.len() + 1
                    &&& n.pages.last().asset_index == m.assets.len()
                    &&& a.flags == asset_flags
                    &&& a.asset_type == spec_media_type(ext)
                    &&& a.asset_hash[0] == low64(h)
                    &&& a.asset_hash[1] == high64(h)
                    &&& a.file_size == data.len()
                    &&& m.image.len() <= a.file_offset
                    &&& a.file_offset < m.image.len() + spec_boundary(m, data.len())
                    &&& (a.file_offset as nat) % spec_boundary(m, data.len()) == 0
                    &&& (forall|k: int| m.image.len() <= k < a.file_offset ==> #[trigger] n.image[k] == 0)
                    &&& n.image.subrange(0, m.image.len() as int) == m.image
                    &&& a.file_offset + a.file_size == n.image.len()
                    &&& n.image.subrange(a.file_offset as int, a.file_offset + a.file_size) == data
                })
            }
        }),
{
    let (n, r) = m.spec_add_hashed_page(ext, data, h, page_flags, asset_flags);
    if r is Ok {
        assert(n.pages.subrange(0, m.pages.len() as int) =~= m.pages);
        assert(n.assets.subrange(0, m.assets.len() as int) =~= m.assets);
        match m.find_asset(h) {
            Some(j) => {
                assert(0 <= j < m.asset_keys.len() && m.asset_keys[j] == h);
                assert(n.pages.last().asset_index == j as u64);
                assert(n.pages.last().asset_index as int == j);
                assert(n.assets == m.assets);
                assert(n.asset_keys == m.asset_keys);
            },
            None => {
                let start = m.new_asset_start(data.len());
                let pad = (start - m.image.len()) as nat;
                assert(start + data.len() <= u64::MAX);
                assert(n.image == m.image + zeros(pad) + data);
                assert(n.image.subrange(start as int, (start + data.len()) as int) =~= data);
                assert(n.pages.last().asset_index == m.assets.len());
                assert(n.asset_keys[m.assets.len() as int] == h);
                assert(n.assets.last().file_offset == start);
                crate::bbf::writer::lemma_boundary_pos(m, data.len());
                crate::bbf::writer::lemma_padding_aligns(m.image.len(), spec_boundary(m, data.len()));
                assert(n.image.subrange(0, m.image.len() as int) =~= m.image);
                assert forall|k: int| m.image.len() <= k < start implies #[trigger] n.image[k] == 0 by {
                    assert(n.image[k] == zeros(pad)[k - m.image.len()]);
                }
            },
        }
    }
}

/// Upper-case ASCII letters to lower case; every other byte as it is.
pub open spec fn ascii_upper(b: u8) -> u8 {
    if 97 <= b <= 122 {
        (b - 32) as u8
    } else {
        b
    }
}

/// The media type of an extension depends on its letters, not on their case: an extension,
/// its ASCII lower-case spelling and its ASCII upper-case spelling give the same type.
pub proof fn law_media_type_ignores_case(e: Seq<u8>)
    ensures
        spec_media_type(Some(e)) == spec_media_type(Some(e.map_values(|b: u8| ascii_lower(b)))),
        spec_media_type(Some(e)) == spec_media_type(Some(e.map_values(|b: u8| ascii_upper(b)))),
{
    let l = e.map_values(|b: u8| ascii_lower(b));
    let ll = l.map_values(|b: u8| ascii_lower(b));
    let u = e.map_values(|b: u8| ascii_upper(b));
    let ul = u.map_values(|b: u8| ascii_lower(b));
    assert(ll =~= l);
    assert(ul =~= l);
}

/// An opened container is at least a header and a footer long, starts with "BBF3" and
/// version 3, and holds its footer, whose offset the header gives, within its bytes; the
/// reader's footer is the 256 bytes found there.
pub proof fn law_opened_container(r: Reader)
    requires
        r.wf(),
    ensures
        r.source@.len() >= 320,
        r.source@.subrange(0, 4) == seq![0x42u8, 0x42u8, 0x46u8, 0x33u8],
        r.header.magic@ == seq![0x42u8, 0x42u8, 0x46u8, 0x33u8],
        r.header.version == 3,
        u16_at(r.source@, 4) == 3,
        r.header.footer_offset + 256 <= r.source@.len(),
        r.footer == Footer::spec_parse(
            r.source@.subrange(r.header.footer_offset as int, r.header.footer_offset + 256),
        ),
{
    law_header_decoding(r.source@);
}

/// Reading entry `i` of the asset table succeeds exactly when `i` is below the footer's
/// count and the 48 bytes at the table offset plus 48 times `i` lie in the container; the
/// entry is then what those bytes encode. Past the count the error names the table and
/// the index.
pub proof fn law_asset_entry_read(r: Reader, i: u64)
    ensures
        i >= r.footer.asset_count ==> r.spec_get_asset(i) == Err::<Asset, BbfError>(
            BbfError::IndexOutOfBounds(Table::Asset, i),
        ),
        r.spec_get_asset(i) is Ok <==> (i < r.footer.asset_count && r.footer.asset_offset + 48 * i
            <= u64::MAX && r.footer.asset_offset + 48 * i + 48 <= r.source@.len()),
        r.spec_get_asset(i) is Ok ==> r.spec_get_asset(i) == Ok::<Asset, BbfError>(
            Asset::spec_parse(
                r.source@.subrange(
                    r.footer.asset_offset + 48 * i,
                    r.footer.asset_offset + 48 * i + 48,
                ),
            ),
        ),
{
}

/// Reading entry `i` of the page table succeeds exactly when `i` is below the footer's
/// count and the 16 bytes at the table offset plus 16 times `i` lie in the container; the
/// entry is then what those bytes encode.
pub proof fn law_page_entry_read(r: Reader, i: u64)
    ensures
        i >= r.footer.page_count ==> r.spec_get_page(i) == Err::<Page, BbfError>(
            BbfError::IndexOutOfBounds(Table::Page, i),
        ),
        r.spec_get_page(i) is Ok <==> (i < r.footer.page_count && r.footer.page_offset + 16 * i
            <= u64::MAX && r.footer.page_offset + 16 * i + 16 <= r.source@.len()),
        r.spec_get_page(i) is Ok ==> r.spec_get_page(i) == Ok::<Page, BbfError>(
            Page::spec_parse(
                r.source@.subrange(
                    r.footer.page_offset + 16 * i,
                    r.footer.page_offset + 16 * i + 16,
                ),
            ),
        ),
{
}

/// Reading entry `i` of the section table succeeds exactly when `i` is below the footer's
/// count and the 32 bytes at the table offset plus 32 times `i` lie in the container; the
/// entry is then what those bytes encode.
pub proof fn law_section_entry_read(r: Reader, i: u64)
    ensures
        i >= r.footer.section_count ==> r.spec_get_section(i) == Err::<Section, BbfError>(
            BbfError::IndexOutOfBounds(Table::Section, i),
        ),
        r.spec_get_section(i) is Ok <==> (i < r.footer.section_count && r.footer.section_offset + 32 * i
            <= u64::MAX && r.footer.section_offset + 32 * i + 32 <= r.source@.len()),
        r.spec_get_section(i) is Ok ==> r.spec_get_section(i) == Ok::<Section, BbfError>(
            Section::spec_parse(
                r.source@.subrange(
                    r.footer.section_offset + 32 * i,
                    r.footer.section_offset + 32 * i + 32,
                ),
            ),
        ),
{
}

/// Reading entry `i` of the metadata table succeeds exactly when `i` is below the footer's
/// count and the 32 bytes at the table offset plus 32 times `i` lie in the container; the
/// entry is then what those bytes encode.
pub proof fn law_meta_entry_read(r: Reader, i: u64)
    ensures
        i >= r.footer.meta_count ==> r.spec_get_meta(i) == Err::<Meta, BbfError>(
            BbfError::IndexOutOfBounds(Table::Meta, i),
        ),
        r.spec_get_meta(i) is Ok <==> (i < r.footer.meta_count && r.footer.meta_offset + 32 * i
            <= u64::MAX && r.footer.meta_offset + 32 * i + 32 <= r.source@.len()),
        r.spec_get_meta(i) is Ok ==> r.spec_get_meta(i) == Ok::<Meta, BbfError>(
            Meta::spec_parse(
                r.source@.subrange(
                    r.footer.meta_offset + 32 * i,
                    r.footer.meta_offset + 32 * i + 32,
                ),
            ),
        ),
{
}

/// A string read from the pool is the bytes from the pool offset plus `o` up to the first
/// zero byte, which lies within the pool and within the scan limit: the string has no zero
/// byte, is shorter than 2048 bytes, and is followed by a zero. The null offset reads as
/// no string, and an offset past the pool as out of the pool. This holds wherever the read
/// does not scan past the container, as `get_string` requires.
pub proof fn law_string_read(s: Seq<u8>, f: Footer, o: u64)
    requires
        !spec_string_scan_overruns(s, f, o),
    ensures
        o == u64::MAX ==> spec_string_bytes(s, f, o) == Err::<Seq<u8>, BbfError>(
            BbfError::NullString,
        ),
        o != u64::MAX && o >= f.string_pool_size ==> spec_string_bytes(s, f, o) == Err::<
            Seq<u8>,
            BbfError,
        >(BbfError::StringOffsetOutOfPool { offset: o, pool_size: f.string_pool_size }),
        spec_string_bytes(s, f, o) matches Ok(b) ==> {
            let start = f.string_pool_offset + o;
            &&& o < f.string_pool_size
            &&& b.len() < 2048
            &&& start + b.len() < f.string_pool_offset + f.string_pool_size
            &&& start + b.len() < s.len()
            &&& s.subrange(start, start + b.len()) == b
            &&& s[start + b.len()] == 0
            &&& forall|k: int| 0 <= k < b.len() ==> b[k] != 0
        },
{
    if let Ok(b) = spec_string_bytes(s, f, o) {
        let start = f.string_pool_offset + o;
        let pool_end = f.string_pool_offset + f.string_pool_size;
        let scan_end = if start + 2048 < pool_end {
            start + 2048
        } else {
            pool_end
        };
        let w = s.subrange(start, scan_end);
        let p = choose|p: int| first_zero_at(w, p);
        assert(first_zero_at(w, p));
        assert(b == w.subrange(0, p));
        assert(w[p] == s[start + p]);
        assert(s.subrange(start, start + b.len()) =~= b);
        assert forall|k: int| 0 <= k < b.len() implies b[k] != 0 by {
            assert(b[k] == w[k]);
        }
    }
}

/// The two halves of a 128-bit hash: the low half is the hash modulo 2^64 and the high
/// half the hash divided by 2^64, so together they give the hash back.
pub proof fn law_hash_halves(h: u128)
    ensures
        low64(h) == h % 0x1_0000_0000_0000_0000,
        high64(h) == h / 0x1_0000_0000_0000_0000,
        low64(h) + high64(h) * 0x1_0000_0000_0000_0000 == h,
{
    assert(h as u64 == h % 0x1_0000_0000_0000_0000) by (bit_vector);
    assert((h >> 64u128) as u64 == h / 0x1_0000_0000_0000_0000) by (bit_vector);
    assert((h % 0x1_0000_0000_0000_0000) + (h / 0x1_0000_0000_0000_0000)
        * 0x1_0000_0000_0000_0000 == h) by (nonlinear_arith);
}

/// The media type codes: avif 1, png 2, webp 3, jxl 4, bmp 5, gif 7, tif or tiff 8, jpg or
/// jpeg 9, each spelled in any case; any other extension, or none, 0.
pub proof fn law_media_type_codes(e: Seq<u8>)
    ensures
        ({
            let l = e.map_values(|b: u8| ascii_lower(b));
            let t = spec_media_type(Some(e));
            &&& (t == 1) == (l =~= seq![97u8, 118u8, 105u8, 102u8])
            &&& (t == 2) == (l =~= seq![112u8, 110u8, 103u8])
            &&& (t == 3) == (l =~= seq![119u8, 101u8, 98u8, 112u8])
            &&& (t == 4) == (l =~= seq![106u8, 120u8, 108u8])
            &&& (t == 5) == (l =~= seq![98u8, 109u8, 112u8])
            &&& (t == 7) == (l =~= seq![103u8, 105u8, 102u8])
            &&& (t == 8) == (l =~= seq![116u8, 105u8, 102u8, 102u8] || l =~= seq![116u8, 105u8, 102u8])
            &&& (t == 9) == (l =~= seq![106u8, 112u8, 103u8] || l =~= seq![106u8, 112u8, 101u8, 103u8])
            &&& (t == 0 || t == 1 || t == 2 || t == 3 || t == 4 || t == 5 || t == 7 || t == 8 || t == 9)
        }),
        spec_media_type(None) == 0,
{
    let l = e.map_values(|b: u8| ascii_lower(b));
    if l.len() == 3 || l.len() == 4 {
        assert(l.len() == 3 ==> (l =~= seq![l[0], l[1], l[2]]));
        assert(l.len() == 4 ==> (l =~= seq![l[0], l[1], l[2], l[3]]));
    }
}

/// Interning keeps the pool as it was and at most appends the string and a zero to it.
proof fn lemma_intern_extends(m: BuilderModel, b: Seq<u8>)
    ensures
        ({
            let (m1, o) = m.intern(b);
            &&& m1.pool.len() <= m.pool.len() + b.len() + 1
            &&& m1.pool.subrange(0, m.pool.len() as int) == m.pool
            &&& m1.metadata == m.metadata
            &&& m1.sections == m.sections
            &&& m1.pages == m.pages
            &&& m1.assets == m.assets
            &&& m1.image == m.image
        }),
{
    let (m1, o) = m.intern(b);
    assert(m1.pool.subrange(0, m.pool.len() as int) =~= m.pool);
}

/// A string that stands in a pool still stands there once the pool grows.
proof fn lemma_pool_holds_grows(p: Seq<u8>, q: Seq<u8>, o: int, b: Seq<u8>)
    requires
        pool_holds(p, o, b),
        p.len() <= q.len(),
        q.subrange(0, p.len() as int) == p,
    ensures
        pool_holds(q, o, b),
{
    assert(q.subrange(o, o + b.len()) =~= p.subrange(o, o + b.len())) by {
        assert forall|k: int| 0 <= k < b.len() implies #[trigger] q.subrange(o, o + b.len())[k]
            == p.subrange(o, o + b.len())[k] by {
            assert(q.subrange(0, p.len() as int)[o + k] == q[o + k]);
        }
    }
    assert(q.subrange(0, p.len() as int)[o + b.len()] == q[o + b.len()]);
}

/// Interning `b` into a model whose pool fits leaves it standing at the offset given, keeps
/// the pool's earlier bytes and each string standing where it stood.
proof fn lemma_intern_places(m: BuilderModel, b: Seq<u8>) -> (r: (BuilderModel, u64))
    requires
        m.strings_wf(),
        m.pool.len() + b.len() + 1 <= u64::MAX,
    ensures
        r == m.intern(b),
        pool_holds(r.0.pool, r.1 as int, b),
        r.0.strings_wf(),
        r.0.pool.len() <= m.pool.len() + b.len() + 1,
        r.0.pool.subrange(0, m.pool.len() as int) == m.pool,
        r.0.metadata == m.metadata,
        r.0.sections == m.sections,
        r.0.pages == m.pages,
        r.0.assets == m.assets,
        r.0.image == m.image,
{
    law_interned_string_stands_in_pool(m, b);
    lemma_intern_extends(m, b);
    m.intern(b)
}

/// Recording metadata appends one entry and keeps the earlier ones, the pages, the assets,
/// the sections and every byte written. The entry's key and value offsets locate the key
/// and the value, each standing zero-terminated in the pool, which keeps its earlier
/// bytes; its parent offset locates the parent the same way, or is the null offset when
/// there is none.
pub proof fn law_add_meta_records(m: BuilderModel, key: Seq<u8>, value: Seq<u8>, parent: Option<Seq<u8>>)
    requires
        m.strings_wf(),
        m.pool.len() + key.len() + value.len() + (match parent {
            Some(p) => p.len(),
            None => 0,
        }) + 3 <= u64::MAX,
    ensures
        ({
            let n = m.spec_add_meta(key, value, parent);
            let x = n.metadata.last();
            &&& n.metadata.len() == m.metadata.len() + 1
            &&& n.metadata.subrange(0, m.metadata.len() as int) == m.metadata
            &&& pool_holds(n.pool, x.key_offset as int, key)
            &&& pool_holds(n.pool, x.value_offset as int, value)
            &&& (parent matches Some(p) ==> pool_holds(n.pool, x.parent_offset as int, p))
            &&& (parent is None ==> x.parent_offset == u64::MAX)
            &&& n.pool.subrange(0, m.pool.len() as int) == m.pool
            &&& n.strings_wf()
            &&& n.pages == m.pages
            &&& n.assets == m.assets
            &&& n.sections == m.sections
            &&& n.image == m.image
        }),
{
    let (m1, k) = lemma_intern_places(m, key);
    let (m2, v) = lemma_intern_places(m1, value);
    lemma_pool_holds_grows(m1.pool, m2.pool, k as int, key);
    let (m3, p) = match parent {
        Some(pp) => {
            let (m3, p) = lemma_intern_places(m2, pp);
            lemma_pool_holds_grows(m2.pool, m3.pool, k as int, key);
            lemma_pool_holds_grows(m2.pool, m3.pool, v as int, value);
            (m3, p)
        },
        None => (m2, u64::MAX),
    };
    assert(m3.pool.subrange(0, m.pool.len() as int) =~= m.pool) by {
        assert(m2.pool.subrange(0, m.pool.len() as int) =~= m1.pool.subrange(0, m.pool.len() as int));
        assert(m3.pool.subrange(0, m.pool.len() as int) =~= m2.pool.subrange(0, m.pool.len() as int));
    }
    let n = m.spec_add_meta(key, value, parent);
    assert(n.metadata.subrange(0, m.metadata.len() as int) =~= m.metadata);
}

/// Recording a section appends one entry and keeps the earlier ones, the pages, the assets,
/// the metadata and every byte written. The entry records the first page given; its title
/// offset locates the title, standing zero-terminated in the pool; its parent offset
/// locates the parent the same way, or is the null offset when there is none.
pub proof fn law_add_section_records(m: BuilderModel, name: Seq<u8>, start_index: u64, parent: Option<Seq<u8>>)
    requires
        m.strings_wf(),
        m.pool.len() + name.len() + (match parent {
            Some(p) => p.len(),
            None => 0,
        }) + 2 <= u64::MAX,
    ensures
        ({
            let n = m.spec_add_section(name, start_index, parent);
            let x = n.sections.last();
            &&& n.sections.len() == m.sections.len() + 1
            &&& n.sections.subrange(0, m.sections.len() as int) == m.sections
            &&& x.start_index == start_index
            &&& pool_holds(n.pool, x.title_offset as int, name)
            &&& (parent matches Some(p) ==> pool_holds(n.pool, x.parent_offset as int, p))
            &&& (parent is None ==> x.parent_offset == u64::MAX)
            &&& n.pool.subrange(0, m.pool.len() as int) == m.pool
            &&& n.strings_wf()
            &&& n.pages == m.pages
            &&& n.assets == m.assets
            &&& n.metadata == m.metadata
            &&& n.image == m.image
        }),
{
    let (m1, t) = lemma_intern_places(m, name);
    let (m2, p) = match parent {
        Some(pp) => {
            let (m2, p) = lemma_intern_places(m1, pp);
            lemma_pool_holds_grows(m1.pool, m2.pool, t as int, name);
            (m2, p)
        },
        None => (m1, u64::MAX),
    };
    assert(m2.pool.subrange(0, m.pool.len() as int) =~= m.pool) by {
        assert(m2.pool.subrange(0, m.pool.len() as int) =~= m1.pool.subrange(0, m.pool.len() as int));
    }
    let n = m.spec_add_section(name, start_index, parent);
    assert(n.sections.subrange(0, m.sections.len() as int) =~= m.sections);
}

/// Linearizing rebases the footer onto the relocated index: each table offset and the pool
/// offset move by 320 minus the old asset-table offset (wrapping at 2^64, as an unsigned
/// offset does), a non-zero expansion offset likewise; the pool size, the counts, the
/// flags and the footer length stay; and the hash is the XXH3-64 hash of the relocated
/// index, which follows the footer. The payload region is copied unchanged to the end.
pub proof fn law_petrify_footer_bytes(s: Seq<u8>)
    ensures
        spec_petrify(s) matches Ok(out) ==> {
            let fo = u64_at(s, 16) as int;
            let ao = u64_at(s, fo);
            let d = 320 - ao;
            let n = fo - ao;
            &&& u64_at(out, 64) == shift_offset(u64_at(s, fo), d)
            &&& u64_at(out, 72) == shift_offset(u64_at(s, fo + 8), d)
            &&& u64_at(out, 80) == shift_offset(u64_at(s, fo + 16), d)
            &&& u64_at(out, 88) == shift_offset(u64_at(s, fo + 24), d)
            &&& u64_at(out, 96) == (if u64_at(s, fo + 32) == 0 {
                0
            } else {
                shift_offset(u64_at(s, fo + 32), d)
            })
            &&& u64_at(out, 104) == shift_offset(u64_at(s, fo + 40), d)
            &&& u64_at(out, 112) == u64_at(s, fo + 48)
            &&& u64_at(out, 120) == u64_at(s, fo + 56)
            &&& u64_at(out, 128) == u64_at(s, fo + 64)
            &&& u64_at(out, 136) == u64_at(s, fo + 72)
            &&& u64_at(out, 144) == u64_at(s, fo + 80)
            &&& u64_at(out, 152) == u64_at(s, fo + 88)
            &&& u32_at(out, 160) == u32_at(s, fo + 96)
            &&& out[164] == s[fo + 100]
            &&& 320 + n <= out.len()
            &&& u64_at(out, 168) == xxh3_64_of(out.subrange(320, 320 + n))
            &&& 64 <= ao
            &&& out.subrange(out.len() - (ao - 64), out.len() as int) == s.subrange(64, ao as int)
        },
{
    if let Ok(out) = spec_petrify(s) {
        let h = Header::spec_parse(s);
        let fo = h.footer_offset as int;
        let fs = s.subrange(fo, fo + 256);
        let f = Footer::spec_parse(fs);
        let n = (h.footer_offset - f.asset_offset) as int;
        let index = s.subrange(f.asset_offset as int, f.asset_offset + n);
        let pf = petrified_footer(h, f, index);
        let pidx = petrified_index(h, f, index);
        law_header_decoding(s);
        law_footer_decoding(fs);
        law_footer_layout(pf);
        let hb = petrified_header(h).spec_bytes();
        let fb = pf.spec_bytes();
        let pad = zeros(index_padding(h, f, index));
        let data = s.subrange(64, f.asset_offset as int);
        assert(hb.len() == 64) by {
            law_header_layout(petrified_header(h));
        }
        let cnt = rewritten_entries(f, index.len());
        assert(48 * cnt <= index.len()) by {
            vstd::arithmetic::div_mod::lemma_fundamental_div_mod(index.len() as int, 48);
        }
        lemma_moved_index_frame(index, cnt, data_shift(h, f, index) as int);
        assert(out =~= hb + fb + pidx + pad + data);
        assert(out.subrange(64, 320) =~= fb);
        assert(out.subrange(320, 320 + n) =~= pidx);
        assert(out.subrange(out.len() - (f.asset_offset - 64), out.len() as int) =~= data);
        assert(s.subrange(fo, fo + 256) == fs);
        lemma_sub_of_sub(s, fo, fs, 0, 8);
        lemma_sub_of_sub(s, fo, fs, 8, 8);
        lemma_sub_of_sub(s, fo, fs, 16, 8);
        lemma_sub_of_sub(s, fo, fs, 24, 8);
        lemma_sub_of_sub(s, fo, fs, 32, 8);
        lemma_sub_of_sub(s, fo, fs, 40, 8);
        lemma_sub_of_sub(s, fo, fs, 48, 8);
        lemma_sub_of_sub(s, fo, fs, 56, 8);
        lemma_sub_of_sub(s, fo, fs, 64, 8);
        lemma_sub_of_sub(s, fo, fs, 72, 8);
        lemma_sub_of_sub(s, fo, fs, 80, 8);
        lemma_sub_of_sub(s, fo, fs, 88, 8);
        lemma_sub_of_sub(s, fo, fs, 96, 4);
        assert(s[fo + 100] == fs[100]);
        lemma_sub_of_sub(out, 64, fb, 0, 8);
        lemma_sub_of_sub(out, 64, fb, 8, 8);
        lemma_sub_of_sub(out, 64, fb, 16, 8);
        lemma_sub_of_sub(out, 64, fb, 24, 8);
        lemma_sub_of_sub(out, 64, fb, 32, 8);
        lemma_sub_of_sub(out, 64, fb, 40, 8);
        lemma_sub_of_sub(out, 64, fb, 48, 8);
        lemma_sub_of_sub(out, 64, fb, 56, 8);
        lemma_sub_of_sub(out, 64, fb, 64, 8);
        lemma_sub_of_sub(out, 64, fb, 72, 8);
        lemma_sub_of_sub(out, 64, fb, 80, 8);
        lemma_sub_of_sub(out, 64, fb, 88, 8);
        lemma_sub_of_sub(out, 64, fb, 96, 4);
        lemma_sub_of_sub(out, 64, fb, 104, 8);
        assert(out[164] == fb[100]);
    }
}

/// The boundary a new payload is aligned to: 2^(alignment mod 64) bytes, except that with
/// the variable-ream flag (bit 1 of the flags) a payload smaller than 2^(ream size mod 64)
/// bytes is aligned to 8 bytes.
pub proof fn law_payload_boundary(m: BuilderModel, size: nat)
    ensures
        (m.flags & 2u32 == 0 || size >= pow2((m.ream_size % 64) as nat)) ==> spec_boundary(m, size)
            == pow2((m.alignment % 64) as nat),
        (m.flags & 2u32 != 0 && size < pow2((m.ream_size % 64) as nat)) ==> spec_boundary(m, size)
            == 8,
{
}

/// Linearizing moves every payload by one amount, the distance from the old payload start
/// (64) to where the payload region now starts, at least past the footer and the index:
/// each asset entry it rewrites keeps every field but the payload offset, which moves by
/// that amount (wrapping at 2^64), and the rest of the index is copied unchanged.
pub proof fn law_petrify_moves_assets(s: Seq<u8>)
    ensures
        spec_petrify(s) matches Ok(out) ==> {
            let h = Header::spec_parse(s);
            let fo = h.footer_offset as int;
            let f = Footer::spec_parse(s.subrange(fo, fo + 256));
            let ao = f.asset_offset as int;
            let n = fo - ao;
            let d = out.len() - (ao - 64) - 64;
            let cnt = rewritten_entries(f, n as nat);
            &&& 256 + n <= d
            &&& 48 * cnt <= n
            &&& forall|i: int|
                0 <= i < cnt ==> #[trigger] Asset::spec_parse(
                    out.subrange(320 + 48 * i, 320 + 48 * i + 48),
                ) == (Asset {
                    file_offset: shift_offset(
                        Asset::spec_parse(s.subrange(ao + 48 * i, ao + 48 * i + 48)).file_offset,
                        d,
                    ),
                    ..Asset::spec_parse(s.subrange(ao + 48 * i, ao + 48 * i + 48))
                })
            &&& out.subrange(320 + 48 * cnt as int, 320 + n) == s.subrange(ao + 48 * cnt, ao + n)
        },
{
    if let Ok(out) = spec_petrify(s) {
        let h = Header::spec_parse(s);
        let fo = h.footer_offset as int;
        let f = Footer::spec_parse(s.subrange(fo, fo + 256));
        let ao = f.asset_offset as int;
        let n = fo - ao;
        let index = s.subrange(ao, ao + n);
        let dd = data_shift(h, f, index) as int;
        let pidx = petrified_index(h, f, index);
        let hb = petrified_header(h).spec_bytes();
        let fb = petrified_footer(h, f, index).spec_bytes();
        let pad = zeros(index_padding(h, f, index));
        let data = s.subrange(64, ao);
        law_header_layout(petrified_header(h));
        law_footer_layout(petrified_footer(h, f, index));
        let cnt = rewritten_entries(f, n as nat);
        assert(48 * cnt <= n) by {
            vstd::arithmetic::div_mod::lemma_fundamental_div_mod(n, 48);
        }
        lemma_moved_index_frame(index, cnt, dd);
        assert(out =~= hb + fb + pidx + pad + data);
        assert(out.len() - (ao - 64) - 64 == dd);
        assert forall|i: int| 0 <= i < cnt implies #[trigger] Asset::spec_parse(
            out.subrange(320 + 48 * i, 320 + 48 * i + 48),
        ) == (Asset {
            file_offset: shift_offset(
                Asset::spec_parse(s.subrange(ao + 48 * i, ao + 48 * i + 48)).file_offset,
                dd,
            ),
            ..Asset::spec_parse(s.subrange(ao + 48 * i, ao + 48 * i + 48))
        }) by {
            assert(48 * i + 48 <= 48 * cnt) by (nonlinear_arith)
                requires
                    i < cnt,
            ;
            lemma_moved_index_entry(index, cnt, dd, i);
            assert(out.subrange(320 + 48 * i, 320 + 48 * i + 48) =~= pidx.subrange(48 * i, 48 * i + 48));
            assert(index.subrange(48 * i, 48 * i + 48) =~= s.subrange(ao + 48 * i, ao + 48 * i + 48));
            lemma_asset_roundtrip(moved_asset(index, i, dd));
        }
        assert(out.subrange(320 + 48 * cnt as int, 320 + n) =~= pidx.subrange(48 * cnt as int, n));
        assert(index.subrange(48 * cnt as int, n) =~= s.subrange(ao + 48 * cnt, ao + n));
    }
}

} // verus!
