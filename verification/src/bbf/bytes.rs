//! Little-endian field access on byte sequences.
use vstd::bytes::*;
use vstd::prelude::*;

verus! {

/// `n` zero bytes.
pub open spec fn zeros(n: nat) -> Seq<u8> {
    Seq::new(n, |i: int| 0u8)
}

/// `s` with the bytes at `off..off + b.len()` replaced by `b`.
pub open spec fn splice(s: Seq<u8>, off: int, b: Seq<u8>) -> Seq<u8> {
    s.subrange(0, off) + b + s.subrange(off + b.len(), s.len() as int)
}

/// The little-endian `u16` stored at `off`.
pub open spec fn u16_at(s: Seq<u8>, off: int) -> u16 {
    spec_u16_from_le_bytes(s.subrange(off, off + 2))
}

/// The little-endian `u32` stored at `off`.
pub open spec fn u32_at(s: Seq<u8>, off: int) -> u32 {
    spec_u32_from_le_bytes(s.subrange(off, off + 4))
}

/// The little-endian `u64` stored at `off`.
pub open spec fn u64_at(s: Seq<u8>, off: int) -> u64 {
    spec_u64_from_le_bytes(s.subrange(off, off + 8))
}

/// The little-endian encodings have their widths.
pub proof fn lemma_le_bytes_lengths()
    ensures
        forall|x: u16| #[trigger] spec_u16_to_le_bytes(x).len() == 2,
        forall|x: u32| #[trigger] spec_u32_to_le_bytes(x).len() == 4,
        forall|x: u64| #[trigger] spec_u64_to_le_bytes(x).len() == 8,
{
    lemma_auto_spec_u16_to_from_le_bytes();
    lemma_auto_spec_u32_to_from_le_bytes();
    lemma_auto_spec_u64_to_from_le_bytes();
}

/// Little-endian encoding and decoding undo each other.
pub proof fn lemma_le_bytes_roundtrip()
    ensures
        forall|x: u16|
            #![trigger spec_u16_to_le_bytes(x)]
            spec_u16_to_le_bytes(x).len() == 2 && spec_u16_from_le_bytes(spec_u16_to_le_bytes(x))
                == x,
        forall|x: u32|
            #![trigger spec_u32_to_le_bytes(x)]
            spec_u32_to_le_bytes(x).len() == 4 && spec_u32_from_le_bytes(spec_u32_to_le_bytes(x))
                == x,
        forall|x: u64|
            #![trigger spec_u64_to_le_bytes(x)]
            spec_u64_to_le_bytes(x).len() == 8 && spec_u64_from_le_bytes(spec_u64_to_le_bytes(x))
                == x,
        forall|s: Seq<u8>|
            #![trigger spec_u16_to_le_bytes(spec_u16_from_le_bytes(s))]
            s.len() == 2 ==> spec_u16_to_le_bytes(spec_u16_from_le_bytes(s)) == s,
        forall|s: Seq<u8>|
            #![trigger spec_u32_to_le_bytes(spec_u32_from_le_bytes(s))]
            s.len() == 4 ==> spec_u32_to_le_bytes(spec_u32_from_le_bytes(s)) == s,
        forall|s: Seq<u8>|
            #![trigger spec_u64_to_le_bytes(spec_u64_from_le_bytes(s))]
            s.len() == 8 ==> spec_u64_to_le_bytes(spec_u64_from_le_bytes(s)) == s,
{
    lemma_auto_spec_u16_to_from_le_bytes();
    lemma_auto_spec_u32_to_from_le_bytes();
    lemma_auto_spec_u64_to_from_le_bytes();
}

/// Copies `src` into `buf` at `off`.
pub fn put_bytes<const N: usize>(buf: &mut [u8; N], off: usize, src: &[u8])
    requires
        off + src@.len() <= N,
    ensures
        final(buf)@ == splice(old(buf)@, off as int, src@),
{
    let ghost start = buf@;
    let mut k: usize = 0;
    while k < src.len()
        invariant
            off + src@.len() <= N,
            k <= src@.len(),
            buf@.len() == N,
            start.len() == N,
            buf@ == start.subrange(0, off as int) + src@.subrange(0, k as int) + start.subrange(
                off + k,
                N as int,
            ),
        decreases src@.len() - k,
    {
        let ghost before = buf@;
        buf[off + k] = src[k];
        assert(buf@ == before.update(off + k, src@[k as int]));
        k = k + 1;
        assert(buf@ =~= start.subrange(0, off as int) + src@.subrange(0, k as int) + start.subrange(
            off + k,
            N as int,
        ));
    }
    assert(src@.subrange(0, k as int) =~= src@);
    assert(buf@ =~= splice(start, off as int, src@));
}

/// Writes `x` little-endian into `buf` at `off`.
pub fn put_u16<const N: usize>(buf: &mut [u8; N], off: usize, x: u16)
    requires
        off + 2 <= N,
    ensures
        final(buf)@ == splice(old(buf)@, off as int, spec_u16_to_le_bytes(x)),
{
    let b = u16_to_le_bytes(x);
    put_bytes(buf, off, b.as_slice());
}

/// Writes `x` little-endian into `buf` at `off`.
pub fn put_u32<const N: usize>(buf: &mut [u8; N], off: usize, x: u32)
    requires
        off + 4 <= N,
    ensures
        final(buf)@ == splice(old(buf)@, off as int, spec_u32_to_le_bytes(x)),
{
    let b = u32_to_le_bytes(x);
    put_bytes(buf, off, b.as_slice());
}

/// Writes `x` little-endian into `buf` at `off`.
pub fn put_u64<const N: usize>(buf: &mut [u8; N], off: usize, x: u64)
    requires
        off + 8 <= N,
    ensures
        final(buf)@ == splice(old(buf)@, off as int, spec_u64_to_le_bytes(x)),
{
    let b = u64_to_le_bytes(x);
    put_bytes(buf, off, b.as_slice());
}

/// Reads the little-endian `u64` at `off`.
pub fn get_u64(s: &[u8], off: usize) -> (x: u64)
    requires
        off + 8 <= s@.len(),
    ensures
        x == u64_at(s@, off as int),
{
    let n: usize = s.len();
    u64_from_le_bytes(&s[off..off + 8])
}

/// Reads the little-endian `u32` at `off`.
pub fn get_u32(s: &[u8], off: usize) -> (x: u32)
    requires
        off + 4 <= s@.len(),
    ensures
        x == u32_at(s@, off as int),
{
    let n: usize = s.len();
    u32_from_le_bytes(&s[off..off + 4])
}

/// Reads the little-endian `u16` at `off`.
pub fn get_u16(s: &[u8], off: usize) -> (x: u16)
    requires
        off + 2 <= s@.len(),
    ensures
        x == u16_at(s@, off as int),
{
    let n: usize = s.len();
    u16_from_le_bytes(&s[off..off + 2])
}

/// The encodings of the entries of `s`, one after another.
pub open spec fn concat_entries<T>(s: Seq<T>, enc: spec_fn(T) -> Seq<u8>) -> Seq<u8>
    decreases s.len(),
{
    if s.len() == 0 {
        Seq::empty()
    } else {
        concat_entries(s.drop_last(), enc) + enc(s.last())
    }
}

/// With encodings of `n` bytes each, entry `i` stands at `n * i`.
pub proof fn lemma_concat_entries<T>(s: Seq<T>, enc: spec_fn(T) -> Seq<u8>, n: nat)
    requires
        forall|x: T| #[trigger] enc(x).len() == n,
    ensures
        concat_entries(s, enc).len() == n * s.len(),
        forall|i: int|
            0 <= i < s.len() ==> concat_entries(s, enc).subrange(n * i, n * i + n) == #[trigger] enc(
                s[i],
            ),
    decreases s.len(),
{
    if s.len() > 0 {
        let k = (s.len() - 1) as nat;
        lemma_concat_entries(s.drop_last(), enc, n);
        let c = concat_entries(s.drop_last(), enc);
        let t = concat_entries(s, enc);
        assert(n * s.len() == n * k + n) by (nonlinear_arith)
            requires
                s.len() == k + 1,
        ;
        assert forall|i: int| 0 <= i < s.len() implies t.subrange(n * i, n * i + n) == #[trigger] enc(
            s[i],
        ) by {
            if i < k {
                assert(n * i + n <= n * k) by (nonlinear_arith)
                    requires
                        i < k,
                        0 <= i,
                ;
                assert(0 <= n * i) by (nonlinear_arith)
                    requires
                        0 <= i,
                ;
                assert(s.drop_last()[i] == s[i]);
                assert(t.subrange(n * i, n * i + n) =~= c.subrange(n * i, n * i + n));
            } else {
                assert(n * i == n * k);
                assert(t.subrange(n * i, n * i + n) =~= enc(s.last()));
            }
        }
    }
}

/// Appending an entry's encoding extends the concatenation of a prefix by one entry.
pub proof fn lemma_concat_entries_step<T>(s: Seq<T>, enc: spec_fn(T) -> Seq<u8>, k: int)
    requires
        0 <= k < s.len(),
    ensures
        concat_entries(s.subrange(0, k + 1), enc) == concat_entries(s.subrange(0, k), enc) + enc(
            s[k],
        ),
{
    assert(s.subrange(0, k + 1).drop_last() =~= s.subrange(0, k));
}

} // verus!
