//! Little-endian integers and byte runs: the pieces every on-disk layout of
//! this crate is built from.
use vstd::prelude::*;

verus! {

/// The two bytes of `x`, least significant first.
pub open spec fn le16(x: u16) -> Seq<u8> {
    seq![(x & 0xff) as u8, ((x >> 8u16) & 0xff) as u8]
}

/// The four bytes of `x`, least significant first.
pub open spec fn le32(x: u32) -> Seq<u8> {
    seq![
        (x & 0xff) as u8,
        ((x >> 8u32) & 0xff) as u8,
        ((x >> 16u32) & 0xff) as u8,
        ((x >> 24u32) & 0xff) as u8,
    ]
}

/// The eight bytes of `x`, least significant first.
pub open spec fn le64(x: u64) -> Seq<u8> {
    le32((x & 0xffff_ffff) as u32) + le32((x >> 32u64) as u32)
}

/// The `u16` whose little-endian bytes are `b[0], b[1]`.
pub open spec fn from_le16(b0: u8, b1: u8) -> u16 {
    ((b0 as u16) | ((b1 as u16) << 8u16)) as u16
}

/// The `u32` whose little-endian bytes are `b[0..4]`.
pub open spec fn from_le32(b0: u8, b1: u8, b2: u8, b3: u8) -> u32 {
    ((b0 as u32) | ((b1 as u32) << 8u32) | ((b2 as u32) << 16u32) | ((b3 as u32) << 24u32)) as u32
}

/// The `u32` read at `at` in `s`.
pub open spec fn u32_at(s: Seq<u8>, at: int) -> u32 {
    from_le32(s[at], s[at + 1], s[at + 2], s[at + 3])
}

/// The `u64` read at `at` in `s`.
pub open spec fn u64_at(s: Seq<u8>, at: int) -> u64 {
    ((u32_at(s, at) as u64) | ((u32_at(s, at + 4) as u64) << 32u64)) as u64
}

pub proof fn lemma_le16(x: u16)
    ensures
        from_le16(le16(x)[0], le16(x)[1]) == x,
{
    let b0 = (x & 0xff) as u8;
    let b1 = ((x >> 8u16) & 0xff) as u8;
    assert(((b0 as u16) | ((b1 as u16) << 8u16)) == x) by (bit_vector)
        requires
            b0 == (x & 0xff) as u8,
            b1 == ((x >> 8u16) & 0xff) as u8,
    ;
}

pub proof fn lemma_le32(x: u32)
    ensures
        u32_at(le32(x), 0) == x,
{
    let b0 = (x & 0xff) as u8;
    let b1 = ((x >> 8u32) & 0xff) as u8;
    let b2 = ((x >> 16u32) & 0xff) as u8;
    let b3 = ((x >> 24u32) & 0xff) as u8;
    assert(((b0 as u32) | ((b1 as u32) << 8u32) | ((b2 as u32) << 16u32) | ((b3 as u32)
        << 24u32)) == x) by (bit_vector)
        requires
            b0 == (x & 0xff) as u8,
            b1 == ((x >> 8u32) & 0xff) as u8,
            b2 == ((x >> 16u32) & 0xff) as u8,
            b3 == ((x >> 24u32) & 0xff) as u8,
    ;
}

pub proof fn lemma_le32_at(x: u32, s: Seq<u8>, at: int)
    requires
        0 <= at,
        at + 4 <= s.len(),
        s.subrange(at, at + 4) == le32(x),
    ensures
        u32_at(s, at) == x,
{
    lemma_le32(x);
    assert(s[at] == le32(x)[0]);
    assert(s[at + 1] == le32(x)[1]);
    assert(s[at + 2] == le32(x)[2]);
    assert(s[at + 3] == le32(x)[3]);
}

/// Appends the little-endian bytes of `x` to `out`.
pub fn push_u16(out: &mut Vec<u8>, x: u16)
    ensures
        final(out)@ == old(out)@ + le16(x),
{
    out.push((x & 0xff) as u8);
    out.push(((x >> 8u16) & 0xff) as u8);
    assert(final(out)@ =~= old(out)@ + le16(x));
}

/// Appends the little-endian bytes of `x` to `out`.
pub fn push_u32(out: &mut Vec<u8>, x: u32)
    ensures
        final(out)@ == old(out)@ + le32(x),
{
    out.push((x & 0xff) as u8);
    out.push(((x >> 8u32) & 0xff) as u8);
    out.push(((x >> 16u32) & 0xff) as u8);
    out.push(((x >> 24u32) & 0xff) as u8);
    assert(final(out)@ =~= old(out)@ + le32(x));
}

/// Appends the little-endian bytes of `x` to `out`.
pub fn push_u64(out: &mut Vec<u8>, x: u64)
    ensures
        final(out)@ == old(out)@ + le64(x),
{
    push_u32(out, (x & 0xffff_ffff) as u32);
    push_u32(out, (x >> 32u64) as u32);
    assert(final(out)@ =~= old(out)@ + le64(x));
}

/// Appends every byte of `src` to `out`, in order.
pub fn push_bytes(out: &mut Vec<u8>, src: &[u8])
    ensures
        final(out)@ == old(out)@ + src@,
{
    let mut i: usize = 0;
    while i < src.len()
        invariant
            i <= src@.len(),
            out@ == old(out)@ + src@.subrange(0, i as int),
        decreases src@.len() - i,
    {
        out.push(src[i]);
        i = i + 1;
        assert(out@ =~= old(out)@ + src@.subrange(0, i as int));
    }
    assert(src@.subrange(0, i as int) =~= src@);
}

/// The `u16` stored little-endian at `at`.
pub fn read_u16(s: &[u8], at: usize) -> (r: u16)
    requires
        at + 2 <= s@.len(),
    ensures
        r == from_le16(s@[at as int], s@[at + 1]),
{
    (s[at] as u16) | ((s[at + 1] as u16) << 8u16)
}

/// The `u32` stored little-endian at `at`.
pub fn read_u32(s: &[u8], at: usize) -> (r: u32)
    requires
        at + 4 <= s@.len(),
    ensures
        r == u32_at(s@, at as int),
{
    (s[at] as u32) | ((s[at + 1] as u32) << 8u32) | ((s[at + 2] as u32) << 16u32) | ((s[at
        + 3] as u32) << 24u32)
}

/// The `u64` stored little-endian at `at`.
pub fn read_u64(s: &[u8], at: usize) -> (r: u64)
    requires
        at + 8 <= s@.len(),
    ensures
        r == u64_at(s@, at as int),
{
    let _n = s.len();
    let lo = read_u32(s, at);
    let hi = read_u32(s, at + 4);
    (lo as u64) | ((hi as u64) << 32u64)
}

/// A copy of `s[from..to]`.
pub fn copy_range(s: &[u8], from: usize, to: usize) -> (r: Vec<u8>)
    requires
        from <= to <= s@.len(),
    ensures
        r@ == s@.subrange(from as int, to as int),
{
    let mut r: Vec<u8> = Vec::with_capacity(to - from);
    let mut i: usize = from;
    while i < to
        invariant
            from <= i <= to <= s@.len(),
            r@ == s@.subrange(from as int, i as int),
        decreases to - i,
    {
        r.push(s[i]);
        i = i + 1;
        assert(r@ =~= s@.subrange(from as int, i as int));
    }
    r
}

/// A vector of `n` zero bytes.
pub fn zeros(n: usize) -> (r: Vec<u8>)
    ensures
        r@ == Seq::new(n as nat, |i: int| 0u8),
{
    let mut r: Vec<u8> = Vec::with_capacity(n);
    let mut i: usize = 0;
    while i < n
        invariant
            i <= n,
            r@ == Seq::new(i as nat, |j: int| 0u8),
        decreases n - i,
    {
        r.push(0u8);
        i = i + 1;
        assert(r@ =~= Seq::new(i as nat, |j: int| 0u8));
    }
    r
}

} // verus!

verus! {

pub proof fn lemma_u32_at_le32(s: Seq<u8>, at: int)
    requires
        0 <= at,
        at + 4 <= s.len(),
    ensures
        le32(u32_at(s, at)) == s.subrange(at, at + 4),
{
    let b0 = s[at];
    let b1 = s[at + 1];
    let b2 = s[at + 2];
    let b3 = s[at + 3];
    let x = u32_at(s, at);
    assert((x & 0xff) as u8 == b0 && ((x >> 8u32) & 0xff) as u8 == b1 && ((x >> 16u32) & 0xff) as u8
        == b2 && ((x >> 24u32) & 0xff) as u8 == b3) by (bit_vector)
        requires
            x == ((b0 as u32) | ((b1 as u32) << 8u32) | ((b2 as u32) << 16u32) | ((b3 as u32)
                << 24u32)) as u32,
    ;
    assert(le32(x) =~= s.subrange(at, at + 4));
}

pub proof fn lemma_u64_at_le64(s: Seq<u8>, at: int)
    requires
        0 <= at,
        at + 8 <= s.len(),
    ensures
        le64(u64_at(s, at)) == s.subrange(at, at + 8),
{
    let lo = u32_at(s, at);
    let hi = u32_at(s, at + 4);
    let x = u64_at(s, at);
    lemma_u32_at_le32(s, at);
    lemma_u32_at_le32(s, at + 4);
    assert((x & 0xffff_ffff) as u32 == lo && (x >> 32u64) as u32 == hi) by (bit_vector)
        requires
            x == ((lo as u64) | ((hi as u64) << 32u64)) as u64,
    ;
    assert(le64(x) =~= s.subrange(at, at + 8));
}

/// A length-prefixed string: its UTF-8 byte count as four little-endian
/// bytes, then the bytes.
pub open spec fn enc_str(k: Seq<char>) -> Seq<u8> {
    le32(vstd::utf8::encode_utf8(k).len() as u32) + vstd::utf8::encode_utf8(k)
}

/// The string fits a length prefix.
pub open spec fn str_fits(k: Seq<char>) -> bool {
    vstd::utf8::encode_utf8(k).len() <= u32::MAX
}

/// Relies on `String::from_utf8`: the string that the bytes encode, where
/// they are valid UTF-8.
#[verifier::external_body]
pub(crate) fn utf8_string(b: &[u8]) -> (r: Option<String>)
    ensures
        r is Some <==> vstd::utf8::valid_utf8(b@),
        r matches Some(s) ==> s@ == vstd::utf8::decode_utf8(b@),
{
    String::from_utf8(b.to_vec()).ok()
}

/// Appends `s` with its length prefix.
pub fn push_str(out: &mut Vec<u8>, s: &str)
    requires
        str_fits(s@),
    ensures
        final(out)@ == old(out)@ + enc_str(s@),
{
    let b = s.as_bytes();
    push_u32(out, b.len() as u32);
    push_bytes(out, b);
    assert(final(out)@ =~= old(out)@ + enc_str(s@));
}

/// Reads a length-prefixed string at `at`: the string and the position after
/// it, where the bytes there hold one.
pub fn read_str(b: &[u8], at: usize) -> (r: Option<(String, usize)>)
    requires
        at <= b@.len(),
    ensures
        r matches Some(p) ==> at <= p.1 <= b@.len() && b@.subrange(at as int, p.1 as int)
            == enc_str(p.0@) && str_fits(p.0@),
        forall|k: Seq<char>|
            #![trigger enc_str(k)]
            str_fits(k) && at + enc_str(k).len() <= b@.len() && b@.subrange(
                at as int,
                at + enc_str(k).len(),
            ) == enc_str(k) ==> r is Some,
{
    broadcast use vstd::utf8::decode_utf8_encode_utf8;

    if b.len() - at < 4 {
        return None;
    }
    let n = read_u32(b, at) as usize;
    proof {
        assert forall|k: Seq<char>|
            #![trigger enc_str(k)]
            str_fits(k) && at + enc_str(k).len() <= b@.len() && b@.subrange(
                at as int,
                at + enc_str(k).len(),
            ) == enc_str(k) implies n == vstd::utf8::encode_utf8(k).len() && b@.subrange(
                at + 4,
                at + 4 + n,
            ) == vstd::utf8::encode_utf8(k) && vstd::utf8::valid_utf8(
                b@.subrange(at + 4, at + 4 + n),
            ) by {
            let e = vstd::utf8::encode_utf8(k);
            let w = b@.subrange(at as int, at + enc_str(k).len());
            assert(w.subrange(0, 4) =~= le32(e.len() as u32));
            assert(b@.subrange(at as int, at + 4) =~= w.subrange(0, 4));
            lemma_u32_at_le32(b@, at as int);
            lemma_le32_injective(u32_at(b@, at as int), e.len() as u32);
            assert(b@.subrange(at + 4, at + 4 + n) =~= w.subrange(4, 4 + n));
            assert(w.subrange(4, 4 + n) =~= e);
            vstd::utf8::encode_utf8_valid_utf8(k);
        }
    }
    if b.len() - at - 4 < n {
        return None;
    }
    let start = at + 4;
    let end = start + n;
    let raw = vstd::slice::slice_subrange(b, start, end);
    match utf8_string(raw) {
        None => None,
        Some(s) => {
            proof {
                lemma_u32_at_le32(b@, at as int);
                assert(vstd::utf8::encode_utf8(s@) == raw@);
                assert(b@.subrange(at as int, end as int) =~= b@.subrange(at as int, at + 4)
                    + raw@);
            }
            Some((s, end))
        },
    }
}

} // verus!

verus! {

pub proof fn lemma_le32_injective(x: u32, y: u32)
    requires
        le32(x) == le32(y),
    ensures
        x == y,
{
    lemma_le32(x);
    lemma_le32(y);
}

pub proof fn lemma_le64_injective(x: u64, y: u64)
    requires
        le64(x) == le64(y),
    ensures
        x == y,
{
    let xl = (x & 0xffff_ffff) as u32;
    let xh = (x >> 32u64) as u32;
    let yl = (y & 0xffff_ffff) as u32;
    let yh = (y >> 32u64) as u32;
    assert(le64(x).subrange(0, 4) =~= le32(xl));
    assert(le64(x).subrange(4, 8) =~= le32(xh));
    assert(le64(y).subrange(0, 4) =~= le32(yl));
    assert(le64(y).subrange(4, 8) =~= le32(yh));
    lemma_le32_injective(xl, yl);
    lemma_le32_injective(xh, yh);
    assert(x == y) by (bit_vector)
        requires
            (x & 0xffff_ffff) as u32 == (y & 0xffff_ffff) as u32,
            (x >> 32u64) as u32 == (y >> 32u64) as u32,
    ;
}

/// A length-prefixed string is read back unambiguously from the front of
/// any byte sequence that starts with it.
pub proof fn lemma_str_prefix_free(a: Seq<char>, b: Seq<char>, t1: Seq<u8>, t2: Seq<u8>)
    requires
        str_fits(a),
        str_fits(b),
        enc_str(a) + t1 == enc_str(b) + t2,
    ensures
        a == b,
        t1 == t2,
{
    let s = enc_str(a) + t1;
    let ea = vstd::utf8::encode_utf8(a);
    let eb = vstd::utf8::encode_utf8(b);
    assert(s.subrange(0, 4) =~= le32(ea.len() as u32));
    assert((enc_str(b) + t2).subrange(0, 4) =~= le32(eb.len() as u32));
    lemma_le32_injective(ea.len() as u32, eb.len() as u32);
    assert(ea.len() == eb.len());
    assert(s.subrange(4, 4 + ea.len() as int) =~= ea);
    assert((enc_str(b) + t2).subrange(4, 4 + eb.len() as int) =~= eb);
    assert(vstd::utf8::decode_utf8(ea) == a) by {
        vstd::utf8::encode_utf8_decode_utf8(a);
    }
    assert(vstd::utf8::decode_utf8(eb) == b) by {
        vstd::utf8::encode_utf8_decode_utf8(b);
    }
    assert(t1 =~= s.subrange(4 + ea.len() as int, s.len() as int));
    assert(t2 =~= (enc_str(b) + t2).subrange(4 + eb.len() as int, s.len() as int));
}

} // verus!
