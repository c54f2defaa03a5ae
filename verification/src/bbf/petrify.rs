//! Linearization: moving the index ahead of the payloads so that one read from the start
//! of a container brings header, footer and every table.
use crate::bbf::bytes::{splice, u64_at, zeros};
use vstd::arithmetic::power2::pow2;
use crate::bbf::error::BbfError;
use crate::bbf::hash::{xxh3_64, xxh3_64_of};
use crate::bbf::types::{
    lemma_asset_lengths, Asset, Footer, Header, BBF_PETRIFICATION_FLAG,
};
use vstd::prelude::*;

verus! {

/// Where the index starts in a linearized container: right after header and footer.
pub const PETRIFIED_INDEX_START: u64 = 320;

/// The largest index region that linearization takes on.
pub const MAX_PETRIFY_INDEX_SIZE: u64 = 16_000_000;

/// `x` read as a two's-complement 64-bit integer.
pub open spec fn as_i64(x: u64) -> int {
    if x <= i64::MAX {
        x as int
    } else {
        x - 0x1_0000_0000_0000_0000
    }
}

/// `v` fits in a signed 64-bit integer.
pub open spec fn in_i64(v: int) -> bool {
    i64::MIN <= v <= i64::MAX
}

/// `x + delta`, wrapped to 64 bits.
pub open spec fn shift_offset(x: u64, delta: int) -> u64 {
    ((x + delta) % 0x1_0000_0000_0000_0000) as u64
}

/// The largest alignment exponent linearization keeps: that of the header, and at least 3,
/// the 8-byte boundary of small payloads.
pub open spec fn cap_exp(alignment: u8) -> nat {
    if alignment % 64 < 3 {
        3
    } else {
        (alignment % 64) as nat
    }
}

/// The largest `k <= e` with `o` a non-zero multiple of 2^k; 0 when there is none.
pub open spec fn offset_granule_exp(o: u64, e: nat) -> nat
    decreases e,
{
    if o != 0 && (o as nat) % pow2(e) == 0 {
        e
    } else if e == 0 {
        0
    } else {
        offset_granule_exp(o, (e - 1) as nat)
    }
}

/// The largest `offset_granule_exp` of the payload offsets of the first `n` asset entries.
pub open spec fn entries_granule_exp(index: Seq<u8>, n: nat, e: nat) -> nat
    decreases n,
{
    if n == 0 {
        0
    } else {
        let a = entries_granule_exp(index, (n - 1) as nat, e);
        let b = offset_granule_exp(entry_payload_offset(index, n - 1), e);
        if a < b {
            b
        } else {
            a
        }
    }
}

/// What the payload offsets need kept: the largest power of two, at most 2^cap_exp, that
/// divides some rewritten payload offset. Every offset that is a multiple of a power of two
/// up to that cap stays one when moved by a multiple of this granule.
pub open spec fn payload_granule(h: Header, f: Footer, index: Seq<u8>) -> nat {
    pow2(entries_granule_exp(index, rewritten_entries(f, index.len()), cap_exp(h.alignment)))
}

/// The zero bytes written after the relocated index so that payloads keep their alignment.
pub open spec fn index_padding(h: Header, f: Footer, index: Seq<u8>) -> nat {
    let g = payload_granule(h, f, index);
    let r = (256 + index.len()) % g;
    if r == 0 {
        0
    } else {
        (g - r) as nat
    }
}

/// How far linearization moves every payload: past the footer, the index and the padding
/// after it; a multiple of the payload granule.
pub open spec fn data_shift(h: Header, f: Footer, index: Seq<u8>) -> nat {
    256 + index.len() + index_padding(h, f, index)
}

/// A non-zero multiple of 2^k, for `k <= e`, has granule exponent at least `k`.
pub proof fn lemma_offset_granule_covers(o: u64, e: nat, k: nat)
    requires
        o != 0,
        k <= e,
        (o as nat) % pow2(k) == 0,
    ensures
        k <= offset_granule_exp(o, e),
    decreases e,
{
    if !((o as nat) % pow2(e) == 0) && e > 0 && k < e {
        lemma_offset_granule_covers(o, (e - 1) as nat, k);
    }
}

/// The granule exponent of the first `n` entries is at least that of each of them.
pub proof fn lemma_entries_granule_covers(index: Seq<u8>, n: nat, e: nat, j: int)
    requires
        0 <= j < n,
    ensures
        offset_granule_exp(entry_payload_offset(index, j), e) <= entries_granule_exp(index, n, e),
    decreases n,
{
    if j < n - 1 {
        lemma_entries_granule_covers(index, (n - 1) as nat, e, j);
    }
}

/// 2^x divides 2^y when `x <= y`.
pub proof fn lemma_pow2_divides(x: nat, y: nat)
    requires
        x <= y,
    ensures
        pow2(y) % pow2(x) == 0,
{
    vstd::arithmetic::power2::lemma_pow2_adds(x, (y - x) as nat);
    vstd::arithmetic::power2::lemma_pow2_pos(x);
    vstd::arithmetic::div_mod::lemma_mod_multiples_basic(pow2((y - x) as nat) as int, pow2(x) as int);
    vstd::arithmetic::mul::lemma_mul_is_commutative(pow2((y - x) as nat) as int, pow2(x) as int);
}

/// Why a header cannot be linearized, if it cannot.
pub open spec fn spec_petrify_header_error(h: Header) -> Option<BbfError> {
    if h.magic@ != seq![0x42u8, 0x42u8, 0x46u8, 0x33u8] {
        Some(BbfError::InvalidMagic)
    } else if h.flags & BBF_PETRIFICATION_FLAG != 0 {
        Some(BbfError::AlreadyPetrified)
    } else {
        None
    }
}

/// The size of the index region and of the payload region, or why they are unusable.
pub open spec fn spec_petrify_layout(h: Header, f: Footer) -> Result<(u64, u64), BbfError> {
    if h.footer_offset < f.asset_offset {
        Err(BbfError::InvalidFooterOffsets)
    } else if f.asset_offset < 64 {
        Err(BbfError::InvalidAssetTableOffset)
    } else if h.footer_offset - f.asset_offset > MAX_PETRIFY_INDEX_SIZE {
        Err(BbfError::IndexTooLarge)
    } else {
        Ok(((h.footer_offset - f.asset_offset) as u64, (f.asset_offset - 64) as u64))
    }
}

/// How many asset entries linearization rewrites: those counted that lie within the index.
pub open spec fn rewritten_entries(f: Footer, index_len: nat) -> nat {
    let n = (f.asset_count as usize) as nat;
    if n < index_len / 48 {
        n
    } else {
        index_len / 48
    }
}

/// The asset entry at `48 * i` of `index` with its payload offset moved by `delta`.
pub open spec fn moved_asset(index: Seq<u8>, i: int, delta: int) -> Asset {
    let a = Asset::spec_parse(index.subrange(48 * i, 48 * i + 48));
    Asset { file_offset: shift_offset(a.file_offset, delta), ..a }
}

/// `index` with its first `n` asset entries rewritten with payload offsets moved by `delta`.
pub open spec fn moved_index(index: Seq<u8>, n: nat, delta: int) -> Seq<u8>
    decreases n,
{
    if n == 0 {
        index
    } else {
        splice(
            moved_index(index, (n - 1) as nat, delta),
            48 * (n - 1),
            moved_asset(index, n - 1, delta).spec_bytes(),
        )
    }
}

/// The payload offset recorded by asset entry `i` of an index.
pub open spec fn entry_payload_offset(index: Seq<u8>, i: int) -> u64 {
    u64_at(index, 48 * i)
}

/// Linearizing with these header, footer and index computes a signed offset past 64 bits.
pub open spec fn spec_petrify_overflows(h: Header, f: Footer, index: Seq<u8>) -> bool {
    let old = f.asset_offset;
    let shift_index = 320 - as_i64(old);
    let shift_data = 256 + index.len();
    ||| !in_i64(shift_index)
    ||| !in_i64(as_i64(f.asset_offset) + shift_index)
    ||| !in_i64(as_i64(f.page_offset) + shift_index)
    ||| !in_i64(as_i64(f.section_offset) + shift_index)
    ||| !in_i64(as_i64(f.meta_offset) + shift_index)
    ||| (f.expansion_offset != 0 && !in_i64(as_i64(f.expansion_offset) + shift_index))
    ||| !in_i64(as_i64(f.string_pool_offset) + shift_index)
    ||| (f.asset_count as usize) * 48 > usize::MAX
    ||| exists|i: int|
        0 <= i < rewritten_entries(f, index.len()) && !in_i64(
            as_i64(#[trigger] entry_payload_offset(index, i)) + shift_data,
        )
}

/// The footer of the linearized container.
pub open spec fn petrified_footer(h: Header, f: Footer, index: Seq<u8>) -> Footer {
    let delta = 320 - f.asset_offset;
    Footer {
        asset_offset: shift_offset(f.asset_offset, delta),
        page_offset: shift_offset(f.page_offset, delta),
        section_offset: shift_offset(f.section_offset, delta),
        meta_offset: shift_offset(f.meta_offset, delta),
        expansion_offset: if f.expansion_offset != 0 {
            shift_offset(f.expansion_offset, delta)
        } else {
            0
        },
        string_pool_offset: shift_offset(f.string_pool_offset, delta),
        footer_hash: xxh3_64_of(petrified_index(h, f, index)),
        ..f
    }
}

/// The index of the linearized container: asset payload offsets moved by the data shift.
pub open spec fn petrified_index(h: Header, f: Footer, index: Seq<u8>) -> Seq<u8> {
    moved_index(index, rewritten_entries(f, index.len()), data_shift(h, f, index) as int)
}

/// The header of the linearized container.
pub open spec fn petrified_header(h: Header) -> Header {
    Header { flags: h.flags | BBF_PETRIFICATION_FLAG, footer_offset: 64, ..h }
}

/// Checks the first 64 bytes of a container before linearization.
pub fn petrify_check_header(bytes: &[u8]) -> (r: Result<Header, BbfError>)
    requires
        bytes@.len() >= 64,
    ensures
        match spec_petrify_header_error(Header::spec_parse(bytes@)) {
            Some(e) => r == Err::<Header, BbfError>(e),
            None => r == Ok::<Header, BbfError>(Header::spec_parse(bytes@)),
        },
{
    let header = match Header::from_bytes(bytes) {
        Some(h) => h,
        None => return Err(BbfError::UnexpectedEof),
    };
    let ghost magic = seq![0x42u8, 0x42u8, 0x46u8, 0x33u8];
    if !(header.magic[0] == 0x42 && header.magic[1] == 0x42 && header.magic[2] == 0x46
        && header.magic[3] == 0x33) {
        proof {
            if header.magic@ == magic {
                assert(header.magic@[0] == 0x42);
            }
        }
        return Err(BbfError::InvalidMagic);
    }
    assert(header.magic@ =~= magic);
    if (header.flags & BBF_PETRIFICATION_FLAG) != 0 {
        return Err(BbfError::AlreadyPetrified);
    }
    Ok(header)
}

/// The sizes of the index region and of the payload region of a container to linearize.
pub fn petrify_layout(header: &Header, footer: &Footer) -> (r: Result<(u64, u64), BbfError>)
    ensures
        r == spec_petrify_layout(*header, *footer),
{
    if header.footer_offset < footer.asset_offset {
        return Err(BbfError::InvalidFooterOffsets);
    }
    let index_size = header.footer_offset - footer.asset_offset;
    if footer.asset_offset < 64 {
        return Err(BbfError::InvalidAssetTableOffset);
    }
    let data_size = footer.asset_offset - 64;
    if index_size > MAX_PETRIFY_INDEX_SIZE {
        return Err(BbfError::IndexTooLarge);
    }
    Ok((index_size, data_size))
}

/// Rewriting entries keeps the length and leaves everything from entry `n` on unchanged.
pub proof fn lemma_moved_index_frame(index: Seq<u8>, n: nat, delta: int)
    requires
        48 * n <= index.len(),
    ensures
        moved_index(index, n, delta).len() == index.len(),
        moved_index(index, n, delta).subrange(48 * n as int, index.len() as int) == index.subrange(
            48 * n as int,
            index.len() as int,
        ),
    decreases n,
{
    lemma_asset_lengths();
    if n > 0 {
        lemma_moved_index_frame(index, (n - 1) as nat, delta);
        let prev = moved_index(index, (n - 1) as nat, delta);
        let cur = moved_index(index, n, delta);
        assert(cur.subrange(48 * n as int, index.len() as int) =~= prev.subrange(
            48 * n as int,
            index.len() as int,
        ));
        assert(prev.subrange(48 * n as int, index.len() as int) =~= prev.subrange(
            48 * (n - 1),
            index.len() as int,
        ).subrange(48, index.len() - 48 * (n - 1)));
        assert(index.subrange(48 * n as int, index.len() as int) =~= index.subrange(
            48 * (n - 1),
            index.len() as int,
        ).subrange(48, index.len() - 48 * (n - 1)));
    }
}

/// Writes `src` into `v` at `off`.
fn splice_vec(v: &mut Vec<u8>, off: usize, src: &[u8])
    requires
        off + src@.len() <= old(v)@.len(),
    ensures
        final(v)@ == splice(old(v)@, off as int, src@),
{
    let ghost start = v@;
    let vl: usize = v.len();
    let mut k: usize = 0;
    while k < src.len()
        invariant
            start.len() == vl,
            off + src@.len() <= start.len(),
            k <= src@.len(),
            v@.len() == start.len(),
            v@ == start.subrange(0, off as int) + src@.subrange(0, k as int) + start.subrange(
                off + k,
                start.len() as int,
            ),
        decreases src@.len() - k,
    {
        v.set(off + k, src[k]);
        k = k + 1;
        assert(v@ =~= start.subrange(0, off as int) + src@.subrange(0, k as int) + start.subrange(
            off + k,
            start.len() as int,
        ));
    }
    assert(src@.subrange(0, k as int) =~= src@);
    assert(v@ =~= splice(start, off as int, src@));
}

/// `x` moved by `320 - old`, wrapped to 64 bits.
fn shift_by_index(x: u64, old: u64) -> (r: u64)
    ensures
        r == shift_offset(x, 320 - old),
{
    x.wrapping_add(PETRIFIED_INDEX_START).wrapping_sub(old)
}

/// Makes the header, footer and index of the linearized container.
pub fn petrify_index(header: &Header, footer: &Footer, index_bytes: Vec<u8>) -> (r: (
    [u8; 64],
    [u8; 256],
    Vec<u8>,
))
    requires
        spec_petrify_header_error(*header) is None,
        spec_petrify_layout(*header, *footer) matches Ok((n, _)) && index_bytes@.len() == n,
        !spec_petrify_overflows(*header, *footer, index_bytes@),
    ensures
        r.0@ == petrified_header(*header).spec_bytes(),
        r.1@ == petrified_footer(*header, *footer, index_bytes@).spec_bytes(),
        r.2@ == petrified_index(*header, *footer, index_bytes@),
{
    let ghost orig = index_bytes@;
    let old = footer.asset_offset;
    let index_size = index_bytes.len() as u64;
    let shift_data: u64 = petrify_data_shift(header, footer, index_bytes.as_slice());
    let count = #[verifier::truncate] (footer.asset_count as usize);
    let mut idx = index_bytes;
    let mut i: usize = 0;
    let ghost n = rewritten_entries(*footer, orig.len());
    proof {
        lemma_asset_lengths();
    }
    while i < count && i * 48 + 48 <= idx.len()
        invariant
            count == #[verifier::truncate] (footer.asset_count as usize),
            count * 48 <= usize::MAX,
            n == rewritten_entries(*footer, orig.len()),
            i <= n,
            idx@ == moved_index(orig, i as nat, shift_data as int),
            shift_data == data_shift(*header, *footer, orig),
            orig.len() <= MAX_PETRIFY_INDEX_SIZE,
        decreases n - i,
    {
        proof {
            lemma_moved_index_frame(orig, i as nat, shift_data as int);
            assert(i * 48 <= count * 48) by (nonlinear_arith)
                requires i <= count;
        }
        let e = i * 48;
        let a = match Asset::from_bytes(&idx[e..e + 48]) {
            Some(a) => a,
            None => Asset {
                file_offset: 0,
                asset_hash: [0, 0],
                file_size: 0,
                flags: 0,
                reserved_value: 0,
                asset_type: 0,
            },
        };
        let moved = Asset { file_offset: a.file_offset.wrapping_add(shift_data), ..a };
        proof {
            assert(idx@.subrange(e as int, e + 48) =~= orig.subrange(e as int, e + 48)) by {
                assert(idx@.subrange(e as int, orig.len() as int) == orig.subrange(
                    e as int,
                    orig.len() as int,
                ));
                assert(idx@.subrange(e as int, e + 48) =~= idx@.subrange(e as int, orig.len() as int).subrange(0, 48));
                assert(orig.subrange(e as int, e + 48) =~= orig.subrange(e as int, orig.len() as int).subrange(0, 48));
            }
            assert(moved == moved_asset(orig, i as int, shift_data as int));
        }
        let b = moved.to_bytes();
        splice_vec(&mut idx, e, b.as_slice());
        i = i + 1;
    }
    assert(i == n) by {
        vstd::arithmetic::div_mod::lemma_fundamental_div_mod(orig.len() as int, 48);
        assert(48 * (orig.len() / 48) <= orig.len());
        lemma_moved_index_frame(orig, i as nat, shift_data as int);
        assert(idx@.len() == orig.len());
        if i < n {
            assert(i < count);
            assert(i < orig.len() / 48);
            assert(i * 48 + 48 <= idx@.len());
        }
    }
    let footer_hash = xxh3_64(idx.as_slice());
    let mut f = *footer;
    f.asset_offset = shift_by_index(footer.asset_offset, old);
    f.page_offset = shift_by_index(footer.page_offset, old);
    f.section_offset = shift_by_index(footer.section_offset, old);
    f.meta_offset = shift_by_index(footer.meta_offset, old);
    if footer.expansion_offset != 0 {
        f.expansion_offset = shift_by_index(footer.expansion_offset, old);
    }
    f.string_pool_offset = shift_by_index(footer.string_pool_offset, old);
    f.footer_hash = footer_hash;
    let mut h = *header;
    h.flags = h.flags | BBF_PETRIFICATION_FLAG;
    h.footer_offset = 64;
    proof {
        assert(f == petrified_footer(*header, *footer, orig));
        assert(h == petrified_header(*header));
    }
    (h.to_bytes(), f.to_bytes(), idx)
}

/// 2^e as a 64-bit integer.
fn pow2_u64(e: u64) -> (r: u64)
    requires
        e < 64,
    ensures
        r == pow2(e as nat),
        r > 0,
{
    proof {
        vstd::arithmetic::power2::lemma_pow2_pos(e as nat);
        vstd::bits::lemma_u64_pow2_no_overflow(e as nat);
        vstd::bits::lemma_u64_shl_is_mul(1, e);
    }
    1u64 << e
}

/// `offset_granule_exp(o, e)`, computed.
fn offset_granule_exp_of(o: u64, e: u64) -> (r: u64)
    requires
        e < 64,
    ensures
        r == offset_granule_exp(o, e as nat),
        r <= e,
{
    let mut k = e;
    loop
        invariant
            k <= e < 64,
            offset_granule_exp(o, k as nat) == offset_granule_exp(o, e as nat),
        decreases k,
    {
        let p = pow2_u64(k);
        if o != 0 && o % p == 0 {
            return k;
        }
        if k == 0 {
            return 0;
        }
        k = k - 1;
    }
}

/// The exponent of the payload granule, `entries_granule_exp` over the rewritten entries.
fn entries_granule_exp_of(footer: &Footer, index: &[u8], e: u64) -> (r: u64)
    requires
        e < 64,
    ensures
        r == entries_granule_exp(index@, rewritten_entries(*footer, index@.len()), e as nat),
        r <= e,
{
    let count = #[verifier::truncate] (footer.asset_count as usize);
    let ghost n = rewritten_entries(*footer, index@.len());
    let whole = index.len() / 48;
    let mut i: usize = 0;
    let mut g: u64 = 0;
    while i < count && i < whole
        invariant
            count == #[verifier::truncate] (footer.asset_count as usize),
            whole == index@.len() / 48,
            n == rewritten_entries(*footer, index@.len()),
            i <= n,
            e < 64,
            g == entries_granule_exp(index@, i as nat, e as nat),
            g <= e,
        decreases n - i,
    {
        proof {
            vstd::arithmetic::div_mod::lemma_fundamental_div_mod(index@.len() as int, 48);
            assert(index.len() == index@.len());
            assert(i * 48 + 48 <= index@.len()) by (nonlinear_arith)
                requires
                    i < whole,
                    whole == index@.len() / 48,
                    48 * (index@.len() / 48) <= index@.len(),
            ;
        }
        let x = crate::bbf::bytes::get_u64(index, i * 48);
        assert(x == entry_payload_offset(index@, i as int));
        let k = offset_granule_exp_of(x, e);
        if g < k {
            g = k;
        }
        i = i + 1;
    }
    g
}

/// The zero padding of a linearized container, given the exponent of its payload granule.
fn padding_for(base: u64, ge: u64) -> (r: u64)
    requires
        ge < 64,
        base <= 256 + MAX_PETRIFY_INDEX_SIZE,
    ensures
        ({
            let g = pow2(ge as nat);
            let rem = base as nat % g;
            r == if rem == 0 {
                0
            } else {
                (g - rem) as nat
            }
        }),
        r < pow2(ge as nat),
{
    let g = pow2_u64(ge);
    proof {
        vstd::arithmetic::power2::lemma_pow2_pos(ge as nat);
    }
    let rem = base % g;
    if rem == 0 {
        0
    } else {
        g - rem
    }
}

/// How far linearization moves every payload, as `data_shift` states it.
pub fn petrify_data_shift(header: &Header, footer: &Footer, index: &[u8]) -> (r: u64)
    requires
        index@.len() <= MAX_PETRIFY_INDEX_SIZE,
    ensures
        r == data_shift(*header, *footer, index@),
        (r as nat) % payload_granule(*header, *footer, index@) == 0,
{
    let e: u64 = if header.alignment % 64 < 3 {
        3
    } else {
        (header.alignment % 64) as u64
    };
    let ge = entries_granule_exp_of(footer, index, e);
    let base: u64 = 256 + index.len() as u64;
    let pad = padding_for(base, ge);
    proof {
        vstd::arithmetic::power2::lemma_pow2_pos(ge as nat);
        if ge < 63 {
            vstd::arithmetic::power2::lemma_pow2_strictly_increases(ge as nat, 63);
        }
        vstd::arithmetic::power2::lemma2_to64_rest();
        crate::bbf::writer::lemma_padding_aligns(base as nat, pow2(ge as nat));
    }
    base + pad
}

/// `x` read as a two's-complement 64-bit integer.
fn exec_as_i64(x: u64) -> (r: i128)
    ensures
        r == as_i64(x),
{
    if x <= i64::MAX as u64 {
        x as i128
    } else {
        x as i128 - 0x1_0000_0000_0000_0000i128
    }
}

/// Whether `v` fits in a signed 64-bit integer.
fn exec_in_i64(v: i128) -> (r: bool)
    ensures
        r == in_i64(v as int),
{
    i64::MIN as i128 <= v && v <= i64::MAX as i128
}

/// Whether linearizing with these header, footer and index computes a signed offset past
/// 64 bits, as `spec_petrify_overflows` states it.
pub fn petrify_overflows(header: &Header, footer: &Footer, index: &[u8]) -> (r: bool)
    requires
        index@.len() <= MAX_PETRIFY_INDEX_SIZE,
    ensures
        r == spec_petrify_overflows(*header, *footer, index@),
{
    let shift_index: i128 = 320 - exec_as_i64(footer.asset_offset);
    if !exec_in_i64(shift_index) {
        return true;
    }
    if !exec_in_i64(exec_as_i64(footer.asset_offset) + shift_index) || !exec_in_i64(
        exec_as_i64(footer.page_offset) + shift_index,
    ) || !exec_in_i64(exec_as_i64(footer.section_offset) + shift_index) || !exec_in_i64(
        exec_as_i64(footer.meta_offset) + shift_index,
    ) || (footer.expansion_offset != 0 && !exec_in_i64(
        exec_as_i64(footer.expansion_offset) + shift_index,
    )) || !exec_in_i64(exec_as_i64(footer.string_pool_offset) + shift_index) {
        return true;
    }
    let count = #[verifier::truncate] (footer.asset_count as usize);
    if count.checked_mul(48).is_none() {
        return true;
    }
    let shift_data: i128 = 256 + index.len() as i128;
    let ghost n = rewritten_entries(*footer, index@.len());
    let mut i: usize = 0;
    while i < count && i * 48 + 48 <= index.len()
        invariant
            count == #[verifier::truncate] (footer.asset_count as usize),
            count * 48 <= usize::MAX,
            shift_data == 256 + index@.len(),
            n == rewritten_entries(*footer, index@.len()),
            i <= n,
            forall|j: int|
                0 <= j < i ==> in_i64(as_i64(#[trigger] entry_payload_offset(index@, j)) + shift_data),
        decreases n - i,
    {
        proof {
            assert(i * 48 <= count * 48) by (nonlinear_arith)
                requires i <= count;
        }
        let x = crate::bbf::bytes::get_u64(index, i * 48);
        assert(x == entry_payload_offset(index@, i as int));
        if !exec_in_i64(exec_as_i64(x) + shift_data) {
            return true;
        }
        i = i + 1;
    }
    proof {
        vstd::arithmetic::div_mod::lemma_fundamental_div_mod(index@.len() as int, 48);
        if i < n {
            assert(i < count);
            assert(i < index@.len() / 48);
        }
    }
    false
}

/// Linearizing whole container bytes `s`: the bytes of the linearized container, or why
/// there are none.
pub open spec fn spec_petrify(s: Seq<u8>) -> Result<Seq<u8>, BbfError> {
    if s.len() < 64 {
        Err(BbfError::UnexpectedEof)
    } else {
        let h = Header::spec_parse(s);
        match spec_petrify_header_error(h) {
            Some(e) => Err(e),
            None => if h.footer_offset + 256 > s.len() {
                Err(BbfError::UnexpectedEof)
            } else {
                let f = Footer::spec_parse(
                    s.subrange(h.footer_offset as int, h.footer_offset + 256),
                );
                match spec_petrify_layout(h, f) {
                    Err(e) => Err(e),
                    Ok((n, _)) => {
                        let index = s.subrange(f.asset_offset as int, f.asset_offset + n);
                        Ok(
                            petrified_header(h).spec_bytes() + petrified_footer(h, f, index).spec_bytes()
                                + petrified_index(h, f, index) + zeros(
                                index_padding(h, f, index),
                            ) + s.subrange(64, f.asset_offset as int),
                        )
                    },
                }
            },
        }
    }
}

/// Linearizing `s` would get past every check and then compute a signed offset past 64 bits.
pub open spec fn spec_petrify_bytes_overflows(s: Seq<u8>) -> bool {
    let h = Header::spec_parse(s);
    let f = Footer::spec_parse(s.subrange(h.footer_offset as int, h.footer_offset + 256));
    &&& s.len() >= 64
    &&& spec_petrify_header_error(h) is None
    &&& h.footer_offset + 256 <= s.len()
    &&& spec_petrify_layout(h, f) is Ok
    &&& spec_petrify_overflows(
        h,
        f,
        s.subrange(f.asset_offset as int, h.footer_offset as int),
    )
}

/// Linearizes a container held in memory: header, footer, relocated index, zero padding,
/// then the payloads, each moved by `data_shift` so that it keeps its alignment.
pub fn petrify_bytes(input: &[u8]) -> (r: Result<Vec<u8>, BbfError>)
    requires
        !spec_petrify_bytes_overflows(input@),
    ensures
        match spec_petrify(input@) {
            Ok(out) => r matches Ok(v) && v@ == out,
            Err(e) => r == Err::<Vec<u8>, BbfError>(e),
        },
{
    let len: usize = input.len();
    if len < 64 {
        return Err(BbfError::UnexpectedEof);
    }
    let header = match petrify_check_header(&input[0..64]) {
        Ok(h) => h,
        Err(e) => {
            proof {
                assert(input@.subrange(0, 64).subrange(0, 64) =~= input@.subrange(0, 64));
                crate::bbf::types::lemma_header_parse_prefix(input@.subrange(0, 64), input@);
            }
            return Err(e);
        },
    };
    proof {
        assert(input@.subrange(0, 64).subrange(0, 64) =~= input@.subrange(0, 64));
        crate::bbf::types::lemma_header_parse_prefix(input@.subrange(0, 64), input@);
    }
    let fo = header.footer_offset;
    if fo > len as u64 || (len as u64) - fo < 256 {
        return Err(BbfError::UnexpectedEof);
    }
    let fo = fo as usize;
    let footer = match Footer::from_bytes(&input[fo..fo + 256]) {
        Some(f) => f,
        None => return Err(BbfError::UnexpectedEof),
    };
    let (index_size, data_size) = match petrify_layout(&header, &footer) {
        Ok(p) => p,
        Err(e) => return Err(e),
    };
    let old = footer.asset_offset as usize;
    let index_vec = vstd::slice::slice_to_vec(&input[old..old + index_size as usize]);
    let (hb, fb, idx) = petrify_index(&header, &footer, index_vec);
    let mut out: Vec<u8> = Vec::new();
    crate::bbf::writer::append_bytes(&mut out, hb.as_slice());
    crate::bbf::writer::append_bytes(&mut out, fb.as_slice());
    crate::bbf::writer::append_bytes(&mut out, idx.as_slice());
    let shift = petrify_data_shift(&header, &footer, &input[old..old + index_size as usize]);
    crate::bbf::writer::append_zeros(&mut out, shift - 256 - index_size);
    crate::bbf::writer::append_bytes(&mut out, &input[64..old]);
    Ok(out)
}

/// Entry `j` of the rewritten index is the moved asset entry.
pub proof fn lemma_moved_index_entry(index: Seq<u8>, n: nat, delta: int, j: int)
    requires
        48 * n <= index.len(),
        0 <= j < n,
    ensures
        moved_index(index, n, delta).subrange(48 * j, 48 * j + 48) == moved_asset(
            index,
            j,
            delta,
        ).spec_bytes(),
    decreases n,
{
    lemma_asset_lengths();
    let prev = moved_index(index, (n - 1) as nat, delta);
    lemma_moved_index_frame(index, (n - 1) as nat, delta);
    let cur = moved_index(index, n, delta);
    let k = 48 * (n - 1);
    if j == n - 1 {
        assert(cur.subrange(48 * j, 48 * j + 48) =~= moved_asset(index, j, delta).spec_bytes());
    } else {
        lemma_moved_index_entry(index, (n - 1) as nat, delta, j);
        assert(48 * j + 48 <= k);
        assert(cur.subrange(48 * j, 48 * j + 48) =~= prev.subrange(48 * j, 48 * j + 48));
    }
}

} // verus!
