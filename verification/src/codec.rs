//! Byte-level primitives shared by the whole engine: lexicographic comparison
//! of byte strings, big-endian integer encoding, and LEB128 varints.

use vstd::prelude::*;

verus! {

// ---------------------------------------------------------------------------
// Lexicographic order on byte strings
// ---------------------------------------------------------------------------

/// Mathematical lexicographic comparison of two byte sequences.
pub open spec fn lex_cmp(a: Seq<u8>, b: Seq<u8>) -> core::cmp::Ordering
    decreases a.len(),
{
    if a.len() == 0 && b.len() == 0 {
        core::cmp::Ordering::Equal
    } else if a.len() == 0 {
        core::cmp::Ordering::Less
    } else if b.len() == 0 {
        core::cmp::Ordering::Greater
    } else if a[0] < b[0] {
        core::cmp::Ordering::Less
    } else if a[0] > b[0] {
        core::cmp::Ordering::Greater
    } else {
        lex_cmp(a.skip(1), b.skip(1))
    }
}

/// Two sequences compare `Equal` exactly when they are the same sequence.
pub proof fn lemma_lex_cmp_eq(a: Seq<u8>, b: Seq<u8>)
    ensures
        lex_cmp(a, b) == core::cmp::Ordering::Equal <==> a =~= b,
    decreases a.len(),
{
    if a.len() != 0 && b.len() != 0 && a[0] == b[0] {
        lemma_lex_cmp_eq(a.skip(1), b.skip(1));
        if a.skip(1) =~= b.skip(1) {
            assert forall|i: int| 0 <= i < a.len() implies a[i] == b[i] by {
                if i >= 1 {
                    assert(a[i] == a.skip(1)[i - 1]);
                    assert(b[i] == b.skip(1)[i - 1]);
                }
            }
            assert(a =~= b);
        } else {
            assert(!(a =~= b)) by {
                if a =~= b {
                    assert(a.skip(1) =~= b.skip(1));
                }
            }
        }
    }
}

/// Swapping the arguments swaps `Less` and `Greater`.
pub proof fn lemma_lex_cmp_antisym(a: Seq<u8>, b: Seq<u8>)
    ensures
        lex_cmp(a, b) == core::cmp::Ordering::Less <==> lex_cmp(b, a)
            == core::cmp::Ordering::Greater,
    decreases a.len(),
{
    if a.len() != 0 && b.len() != 0 && a[0] == b[0] {
        lemma_lex_cmp_antisym(a.skip(1), b.skip(1));
    }
}

/// Lexicographic order is transitive.
pub proof fn lemma_lex_cmp_trans(a: Seq<u8>, b: Seq<u8>, c: Seq<u8>)
    requires
        lex_cmp(a, b) != core::cmp::Ordering::Greater,
        lex_cmp(b, c) != core::cmp::Ordering::Greater,
    ensures
        lex_cmp(a, c) != core::cmp::Ordering::Greater,
        lex_cmp(a, b) == core::cmp::Ordering::Less || lex_cmp(b, c) == core::cmp::Ordering::Less
            ==> lex_cmp(a, c) == core::cmp::Ordering::Less,
    decreases a.len(),
{
    if a.len() != 0 && b.len() != 0 && c.len() != 0 {
        if a[0] == b[0] && b[0] == c[0] {
            lemma_lex_cmp_trans(a.skip(1), b.skip(1), c.skip(1));
        }
    }
}

/// Copies a slice into a fresh vector.
pub fn copy_slice(s: &[u8]) -> (r: Vec<u8>)
    ensures
        r@ =~= s@,
{
    let mut v: Vec<u8> = Vec::new();
    let n = s.len();
    let mut i: usize = 0;
    while i < n
        invariant
            i <= n,
            n == s@.len(),
            v@ =~= s@.subrange(0, i as int),
        decreases n - i,
    {
        v.push(s[i]);
        i = i + 1;
    }
    proof {
        assert(v@ =~= s@);
    }
    v
}

/// Appends a slice to a vector.
pub fn extend_from_slice(out: &mut Vec<u8>, s: &[u8])
    ensures
        final(out)@ =~= old(out)@ + s@,
{
    let n = s.len();
    let mut i: usize = 0;
    while i < n
        invariant
            i <= n,
            n == s@.len(),
            out@ =~= old(out)@ + s@.subrange(0, i as int),
        decreases n - i,
    {
        out.push(s[i]);
        i = i + 1;
    }
    proof {
        assert(out@ =~= old(out)@ + s@);
    }
}

/// Executable lexicographic comparison, exact against `lex_cmp`.
pub fn cmp_bytes(a: &[u8], b: &[u8]) -> (r: core::cmp::Ordering)
    ensures
        r == lex_cmp(a@, b@),
{
    let a_len = a.len();
    let b_len = b.len();
    let mut i: usize = 0;
    proof {
        assert(a@.skip(0) =~= a@);
        assert(b@.skip(0) =~= b@);
    }
    loop
        invariant
            i <= a_len,
            i <= b_len,
            a_len == a@.len(),
            b_len == b@.len(),
            lex_cmp(a@, b@) == lex_cmp(a@.skip(i as int), b@.skip(i as int)),
        decreases a_len - i,
    {
        if i >= a_len || i >= b_len {
            proof {
                assert(a@.skip(i as int).len() == a_len - i);
                assert(b@.skip(i as int).len() == b_len - i);
            }
            if a_len == b_len {
                return core::cmp::Ordering::Equal;
            } else if a_len < b_len {
                return core::cmp::Ordering::Less;
            } else {
                return core::cmp::Ordering::Greater;
            }
        }
        let x = a[i];
        let y = b[i];
        proof {
            assert(a@.skip(i as int)[0] == a@[i as int]);
            assert(b@.skip(i as int)[0] == b@[i as int]);
        }
        if x < y {
            return core::cmp::Ordering::Less;
        } else if x > y {
            return core::cmp::Ordering::Greater;
        }
        proof {
            assert(a@.skip(i as int).skip(1) =~= a@.skip(i + 1));
            assert(b@.skip(i as int).skip(1) =~= b@.skip(i + 1));
        }
        i = i + 1;
    }
}

// ---------------------------------------------------------------------------
// Big-endian fixed-width integers
// ---------------------------------------------------------------------------

/// The eight bytes of `v` in big-endian order.
pub open spec fn u64_be_bytes(v: u64) -> Seq<u8> {
    seq![
        (v >> 56) as u8,
        (v >> 48) as u8,
        (v >> 40) as u8,
        (v >> 32) as u8,
        (v >> 24) as u8,
        (v >> 16) as u8,
        (v >> 8) as u8,
        v as u8,
    ]
}

/// The value read big-endian from the first eight bytes of `s`.
pub open spec fn u64_from_be_spec(s: Seq<u8>) -> u64
    recommends
        s.len() >= 8,
{
    ((s[0] as u64) << 56) | ((s[1] as u64) << 48) | ((s[2] as u64) << 40) | ((s[3] as u64) << 32)
        | ((s[4] as u64) << 24) | ((s[5] as u64) << 16) | ((s[6] as u64) << 8) | (s[7] as u64)
}

/// Reading back the big-endian bytes of `v` gives `v`.
pub proof fn lemma_u64_be_roundtrip(v: u64)
    ensures
        u64_from_be_spec(u64_be_bytes(v)) == v,
{
    assert((((v >> 56) as u8 as u64) << 56) | (((v >> 48) as u8 as u64) << 48) | (((v
        >> 40) as u8 as u64) << 40) | (((v >> 32) as u8 as u64) << 32) | (((v
        >> 24) as u8 as u64) << 24) | (((v >> 16) as u8 as u64) << 16) | (((v >> 8) as u8 as u64)
        << 8) | (v as u8 as u64) == v) by (bit_vector);
}

/// Appends the big-endian bytes of `v`.
pub fn push_u64_be(out: &mut Vec<u8>, v: u64)
    ensures
        final(out)@ =~= old(out)@ + u64_be_bytes(v),
{
    out.push((v >> 56) as u8);
    out.push((v >> 48) as u8);
    out.push((v >> 40) as u8);
    out.push((v >> 32) as u8);
    out.push((v >> 24) as u8);
    out.push((v >> 16) as u8);
    out.push((v >> 8) as u8);
    out.push(v as u8);
}

/// Reads a big-endian `u64` at `pos`.
pub fn read_u64_be(data: &[u8], pos: usize) -> (r: u64)
    requires
        pos + 8 <= data@.len(),
    ensures
        r == u64_from_be_spec(data@.skip(pos as int)),
{
    let r = ((data[pos] as u64) << 56) | ((data[pos + 1] as u64) << 48) | ((data[pos
        + 2] as u64) << 40) | ((data[pos + 3] as u64) << 32) | ((data[pos + 4] as u64) << 24) | ((
    data[pos + 5] as u64) << 16) | ((data[pos + 6] as u64) << 8) | (data[pos + 7] as u64);
    proof {
        let s = data@.skip(pos as int);
        assert(s[0] == data@[pos as int]);
        assert(s[1] == data@[pos + 1]);
        assert(s[2] == data@[pos + 2]);
        assert(s[3] == data@[pos + 3]);
        assert(s[4] == data@[pos + 4]);
        assert(s[5] == data@[pos + 5]);
        assert(s[6] == data@[pos + 6]);
        assert(s[7] == data@[pos + 7]);
    }
    r
}

/// The four bytes of `v` in big-endian order.
pub open spec fn u32_be_bytes(v: u32) -> Seq<u8> {
    seq![(v >> 24) as u8, (v >> 16) as u8, (v >> 8) as u8, v as u8]
}

/// The value read big-endian from the first four bytes of `s`.
pub open spec fn u32_from_be_spec(s: Seq<u8>) -> u32
    recommends
        s.len() >= 4,
{
    ((s[0] as u32) << 24) | ((s[1] as u32) << 16) | ((s[2] as u32) << 8) | (s[3] as u32)
}

/// Reading back the big-endian bytes of `v` gives `v`.
pub proof fn lemma_u32_be_roundtrip(v: u32)
    ensures
        u32_from_be_spec(u32_be_bytes(v)) == v,
{
    assert((((v >> 24) as u8 as u32) << 24) | (((v >> 16) as u8 as u32) << 16) | (((v
        >> 8) as u8 as u32) << 8) | (v as u8 as u32) == v) by (bit_vector);
}

/// Appends the big-endian bytes of `v`.
pub fn push_u32_be(out: &mut Vec<u8>, v: u32)
    ensures
        final(out)@ =~= old(out)@ + u32_be_bytes(v),
{
    out.push((v >> 24) as u8);
    out.push((v >> 16) as u8);
    out.push((v >> 8) as u8);
    out.push(v as u8);
}

/// Reads a big-endian `u32` at `pos`.
pub fn read_u32_be(data: &[u8], pos: usize) -> (r: u32)
    requires
        pos + 4 <= data@.len(),
    ensures
        r == u32_from_be_spec(data@.skip(pos as int)),
{
    let r = ((data[pos] as u32) << 24) | ((data[pos + 1] as u32) << 16) | ((data[pos
        + 2] as u32) << 8) | (data[pos + 3] as u32);
    proof {
        let s = data@.skip(pos as int);
        assert(s[0] == data@[pos as int]);
        assert(s[1] == data@[pos + 1]);
        assert(s[2] == data@[pos + 2]);
        assert(s[3] == data@[pos + 3]);
    }
    r
}

/// The two bytes of `v` in big-endian order.
pub open spec fn u16_be_bytes(v: u16) -> Seq<u8> {
    seq![(v >> 8) as u8, v as u8]
}

/// The value read big-endian from the first two bytes of `s`.
pub open spec fn u16_from_be_spec(s: Seq<u8>) -> u16
    recommends
        s.len() >= 2,
{
    ((s[0] as u16) << 8) | (s[1] as u16)
}

/// Appends the big-endian bytes of `v`.
pub fn push_u16_be(out: &mut Vec<u8>, v: u16)
    ensures
        final(out)@ =~= old(out)@ + u16_be_bytes(v),
{
    out.push((v >> 8) as u8);
    out.push(v as u8);
}

/// Reads a big-endian `u16` at `pos`.
pub fn read_u16_be(data: &[u8], pos: usize) -> (r: u16)
    requires
        pos + 2 <= data@.len(),
    ensures
        r == u16_from_be_spec(data@.skip(pos as int)),
{
    let r = ((data[pos] as u16) << 8) | (data[pos + 1] as u16);
    proof {
        let s = data@.skip(pos as int);
        assert(s[0] == data@[pos as int]);
        assert(s[1] == data@[pos + 1]);
    }
    r
}

// ---------------------------------------------------------------------------
// LEB128 varints (low seven bits first, high bit marks continuation)
// ---------------------------------------------------------------------------

/// The varint encoding of `v`.
pub open spec fn varint_enc(v: u64) -> Seq<u8>
    decreases v,
{
    if v < 128 {
        seq![v as u8]
    } else {
        seq![(v % 128 + 128) as u8] + varint_enc(v / 128)
    }
}

/// The number of bytes `varint_enc(v)` takes.
pub open spec fn varint_len(v: u64) -> int {
    varint_enc(v).len() as int
}

/// Decodes a varint from the front of `s`: the value (as an unbounded
/// integer) and the number of bytes consumed.
pub open spec fn varint_dec(s: Seq<u8>) -> Option<(int, int)>
    decreases s.len(),
{
    if s.len() == 0 {
        None
    } else if s[0] < 128 {
        Some((s[0] as int, 1))
    } else {
        match varint_dec(s.skip(1)) {
            None => None,
            Some((v, n)) => Some((v * 128 + (s[0] - 128), n + 1)),
        }
    }
}

/// Decoding an encoding, with anything after it, gives the value back.
pub proof fn lemma_varint_roundtrip(v: u64, rest: Seq<u8>)
    ensures
        varint_dec(varint_enc(v) + rest) == Some((v as int, varint_len(v))),
    decreases v,
{
    let s = varint_enc(v) + rest;
    if v < 128 {
        assert(s[0] == v as u8);
    } else {
        assert(s[0] == (v % 128 + 128) as u8);
        assert(s.skip(1) =~= varint_enc(v / 128) + rest);
        lemma_varint_roundtrip(v / 128, rest);
        assert((v / 128) * 128 + (v % 128) == v) by (nonlinear_arith);
    }
}

/// The encoding never takes more than ten bytes.
pub proof fn lemma_varint_len_le_10(v: u64)
    ensures
        1 <= varint_len(v) <= 10,
{
    reveal_with_fuel(pow128, 11);
    assert((v as int) < pow128(10));
    lemma_varint_len_at_most(v, 10);
}

/// If `v < 128^k` then the encoding takes at most `k` bytes.
proof fn lemma_varint_len_at_most(v: u64, k: int)
    requires
        k >= 1,
        (v as int) < pow128(k),
    ensures
        varint_len(v) <= k,
    decreases k,
{
    if v < 128 {
    } else {
        reveal_with_fuel(pow128, 2);
        assert(pow128(k) == 128 * pow128(k - 1));
        lemma_pow128_pos(k - 1);
        assert((v as int) / 128 < pow128(k - 1)) by (nonlinear_arith)
            requires
                (v as int) < 128 * pow128(k - 1),
                v >= 128,
                pow128(k - 1) >= 1,
        ;
        assert(k >= 2) by {
            if k == 1 {
                assert(pow128(1) == 128 * pow128(0));
            }
        }
        lemma_varint_len_at_most(v / 128, k - 1);
    }
}

proof fn lemma_pow128_pos(k: int)
    ensures
        pow128(k) >= 1,
    decreases k,
{
    if k > 0 {
        lemma_pow128_pos(k - 1);
    }
}

pub open spec fn pow128(k: int) -> int
    decreases k,
{
    if k <= 0 {
        1
    } else {
        128 * pow128(k - 1)
    }
}

/// Appends the varint encoding of `v`.
pub fn push_varint(out: &mut Vec<u8>, v: u64)
    ensures
        final(out)@ =~= old(out)@ + varint_enc(v),
    decreases v,
{
    if v < 128 {
        out.push(v as u8);
    } else {
        out.push((v % 128 + 128) as u8);
        push_varint(out, v / 128);
    }
}

/// Reads a varint at `pos`; `None` when the bytes do not hold one that fits
/// in a `u64`.
pub fn read_varint(data: &[u8], pos: usize) -> (r: Option<(u64, usize)>)
    requires
        pos <= data@.len(),
    ensures
        ({
            let dec = varint_dec(data@.skip(pos as int));
            &&& (r is Some <==> (dec is Some && dec.unwrap().0 <= u64::MAX as int))
            &&& (r is Some ==> r.unwrap().0 as int == dec.unwrap().0 && r.unwrap().1 as int
                == dec.unwrap().1)
        }),
    decreases data@.len() - pos,
{
    let ghost s = data@.skip(pos as int);
    proof {
        lemma_varint_dec_len(s);
    }
    if pos == data.len() {
        return None;
    }
    let b = data[pos];
    proof {
        assert(s[0] == data@[pos as int]);
    }
    if b < 128 {
        return Some((b as u64, 1));
    }
    proof {
        assert(s.skip(1) =~= data@.skip(pos + 1));
    }
    match read_varint(data, pos + 1) {
        None => None,
        Some((v, n)) => {
            let ghost dec_tail = varint_dec(s.skip(1));
            let ghost tv = dec_tail.unwrap().0;
            let ghost tn = dec_tail.unwrap().1;
            if v <= (u64::MAX - 127) / 128 {
                let hi = v * 128;
                proof {
                    assert(hi + 127 <= u64::MAX) by (nonlinear_arith)
                        requires
                            v <= (u64::MAX - 127) / 128,
                            hi == v * 128,
                    ;
                    assert(tv * 128 + (s[0] - 128) == hi + (b - 128) as int) by (nonlinear_arith)
                        requires
                            tv == v as int,
                            hi == v * 128,
                            s[0] == b,
                    ;
                }
                let value = hi + (b as u64 - 128);
                Some((value, n + 1))
            } else {
                proof {
                    assert(tv * 128 + (s[0] - 128) > u64::MAX as int) by (nonlinear_arith)
                        requires
                            tv > ((u64::MAX - 127) / 128) as int,
                            s[0] >= 128,
                    ;
                }
                None
            }
        },
    }
}

/// A successful decode consumes no more bytes than the sequence holds.
pub proof fn lemma_varint_dec_len(s: Seq<u8>)
    ensures
        match varint_dec(s) {
            Some((v, n)) => 1 <= n <= s.len(),
            None => true,
        },
    decreases s.len(),
{
    if s.len() > 0 && s[0] >= 128 {
        lemma_varint_dec_len(s.skip(1));
    }
}

// ---------------------------------------------------------------------------
// Decimal rendering
// ---------------------------------------------------------------------------

/// The ASCII decimal digits of `v`, most significant first.
pub open spec fn u64_dec_digits(v: u64) -> Seq<u8>
    decreases v,
{
    if v < 10 {
        seq![(48 + v) as u8]
    } else {
        u64_dec_digits(v / 10) + seq![(48 + v % 10) as u8]
    }
}

/// The decimal rendering never takes more than twenty digits.
pub proof fn lemma_dec_len_le_20(v: u64)
    ensures
        1 <= u64_dec_digits(v).len() <= 20,
{
    reveal_with_fuel(pow10, 21);
    assert((v as int) < pow10(20));
    lemma_dec_len_at_most(v, 20);
}

/// If `v < 10^k` then the rendering takes at most `k` digits.
proof fn lemma_dec_len_at_most(v: u64, k: int)
    requires
        k >= 1,
        (v as int) < pow10(k),
    ensures
        u64_dec_digits(v).len() <= k,
    decreases k,
{
    if v < 10 {
    } else {
        reveal_with_fuel(pow10, 2);
        assert(pow10(k) == 10 * pow10(k - 1));
        lemma_pow10_pos(k - 1);
        assert((v as int) / 10 < pow10(k - 1)) by (nonlinear_arith)
            requires
                (v as int) < 10 * pow10(k - 1),
                v >= 10,
                pow10(k - 1) >= 1,
        ;
        assert(k >= 2) by {
            if k == 1 {
                assert(pow10(1) == 10 * pow10(0));
            }
        }
        lemma_dec_len_at_most(v / 10, k - 1);
    }
}

pub open spec fn pow10(k: int) -> int
    decreases k,
{
    if k <= 0 {
        1
    } else {
        10 * pow10(k - 1)
    }
}

proof fn lemma_pow10_pos(k: int)
    ensures
        pow10(k) >= 1,
    decreases k,
{
    if k > 0 {
        lemma_pow10_pos(k - 1);
    }
}

/// Renders `v` as ASCII decimal digits.
pub fn u64_to_decimal(v: u64) -> (r: Vec<u8>)
    ensures
        r@ =~= u64_dec_digits(v),
    decreases v,
{
    if v < 10 {
        let mut out: Vec<u8> = Vec::new();
        out.push(48 + v as u8);
        out
    } else {
        let mut out = u64_to_decimal(v / 10);
        out.push(48 + (v % 10) as u8);
        out
    }
}

} // verus!
