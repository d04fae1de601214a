//! Fixed-width integers as bytes.
use vstd::prelude::*;

verus! {

/// `x` as two bytes, least significant first.
pub open spec fn le16(x: u16) -> Seq<u8> {
    seq![(x & 0xff) as u8, ((x >> 8) & 0xff) as u8]
}

/// `x` as four bytes, least significant first.
pub open spec fn le32(x: u32) -> Seq<u8> {
    seq![
        (x & 0xff) as u8,
        ((x >> 8) & 0xff) as u8,
        ((x >> 16) & 0xff) as u8,
        ((x >> 24) & 0xff) as u8,
    ]
}

/// `x` as eight bytes, least significant first.
pub open spec fn le64(x: u64) -> Seq<u8> {
    seq![
        (x & 0xff) as u8,
        ((x >> 8) & 0xff) as u8,
        ((x >> 16) & 0xff) as u8,
        ((x >> 24) & 0xff) as u8,
        ((x >> 32) & 0xff) as u8,
        ((x >> 40) & 0xff) as u8,
        ((x >> 48) & 0xff) as u8,
        ((x >> 56) & 0xff) as u8,
    ]
}

/// `x` as sixteen bytes, least significant first.
pub open spec fn le128(x: u128) -> Seq<u8> {
    le64((x & 0xffff_ffff_ffff_ffff) as u64) + le64((x >> 64) as u64)
}

/// `x` as four bytes, most significant first.
pub open spec fn be32(x: u32) -> Seq<u8> {
    le32(x).reverse()
}

/// Appends `x` as two bytes, least significant first.
pub fn put_le16(out: &mut Vec<u8>, x: u16)
    ensures
        final(out)@ == old(out)@ + le16(x),
{
    out.push((x & 0xff) as u8);
    out.push(((x >> 8) & 0xff) as u8);
    assert(out@ =~= old(out)@ + le16(x));
}

/// Appends `x` as four bytes, least significant first.
pub fn put_le32(out: &mut Vec<u8>, x: u32)
    ensures
        final(out)@ == old(out)@ + le32(x),
{
    out.push((x & 0xff) as u8);
    out.push(((x >> 8) & 0xff) as u8);
    out.push(((x >> 16) & 0xff) as u8);
    out.push(((x >> 24) & 0xff) as u8);
    assert(out@ =~= old(out)@ + le32(x));
}

/// Appends `x` as eight bytes, least significant first.
pub fn put_le64(out: &mut Vec<u8>, x: u64)
    ensures
        final(out)@ == old(out)@ + le64(x),
{
    out.push((x & 0xff) as u8);
    out.push(((x >> 8) & 0xff) as u8);
    out.push(((x >> 16) & 0xff) as u8);
    out.push(((x >> 24) & 0xff) as u8);
    out.push(((x >> 32) & 0xff) as u8);
    out.push(((x >> 40) & 0xff) as u8);
    out.push(((x >> 48) & 0xff) as u8);
    out.push(((x >> 56) & 0xff) as u8);
    assert(out@ =~= old(out)@ + le64(x));
}

/// Appends `x` as sixteen bytes, least significant first.
pub fn put_le128(out: &mut Vec<u8>, x: u128)
    ensures
        final(out)@ == old(out)@ + le128(x),
{
    put_le64(out, (x & 0xffff_ffff_ffff_ffff) as u64);
    put_le64(out, (x >> 64) as u64);
    assert(out@ =~= old(out)@ + le128(x));
}

/// Appends `x` as four bytes, most significant first.
pub fn put_be32(out: &mut Vec<u8>, x: u32)
    ensures
        final(out)@ == old(out)@ + be32(x),
{
    out.push(((x >> 24) & 0xff) as u8);
    out.push(((x >> 16) & 0xff) as u8);
    out.push(((x >> 8) & 0xff) as u8);
    out.push((x & 0xff) as u8);
    assert(out@ =~= old(out)@ + be32(x));
}

/// The number that four bytes, most significant first, stand for.
pub open spec fn be32_value(s: Seq<u8>) -> u32 {
    ((s[0] as u32) << 24) | ((s[1] as u32) << 16) | ((s[2] as u32) << 8) | (s[3] as u32)
}

/// Reads the four bytes at `at`, most significant first.
pub fn get_be32(data: &[u8], at: usize) -> (x: u32)
    requires
        at + 4 <= data@.len(),
    ensures
        x == be32_value(data@.subrange(at as int, at + 4)),
        be32(x) == data@.subrange(at as int, at + 4),
{
    let x = ((data[at] as u32) << 24) | ((data[at + 1] as u32) << 16) | ((data[at + 2] as u32) << 8)
        | (data[at + 3] as u32);
    proof {
        let s = data@.subrange(at as int, at + 4);
        lemma_be32_round(s[0], s[1], s[2], s[3]);
        assert(be32(x) =~= s);
    }
    x
}

proof fn lemma_be32_round(a: u8, b: u8, c: u8, d: u8)
    ensures
        ({
            let x = ((a as u32) << 24) | ((b as u32) << 16) | ((c as u32) << 8) | (d as u32);
            &&& ((x >> 24) & 0xff) as u8 == a
            &&& ((x >> 16) & 0xff) as u8 == b
            &&& ((x >> 8) & 0xff) as u8 == c
            &&& (x & 0xff) as u8 == d
        }),
{
    let x = ((a as u32) << 24) | ((b as u32) << 16) | ((c as u32) << 8) | (d as u32);
    assert(((x >> 24) & 0xff) as u8 == a && ((x >> 16) & 0xff) as u8 == b && ((x >> 8) & 0xff) as u8
        == c && (x & 0xff) as u8 == d) by (bit_vector)
        requires
            x == ((a as u32) << 24) | ((b as u32) << 16) | ((c as u32) << 8) | (d as u32),
    ;
}

/// Four bytes read back the number that was written into them.
pub proof fn lemma_be32_value(x: u32)
    ensures
        be32_value(be32(x)) == x,
        be32(x).len() == 4,
{
    let s = be32(x);
    let a = s[0];
    let b = s[1];
    let c = s[2];
    let d = s[3];
    assert(a == ((x >> 24) & 0xff) as u8);
    assert(b == ((x >> 16) & 0xff) as u8);
    assert(c == ((x >> 8) & 0xff) as u8);
    assert(d == (x & 0xff) as u8);
    assert(((a as u32) << 24) | ((b as u32) << 16) | ((c as u32) << 8) | (d as u32) == x)
        by (bit_vector)
        requires
            a == ((x >> 24) & 0xff) as u8,
            b == ((x >> 16) & 0xff) as u8,
            c == ((x >> 8) & 0xff) as u8,
            d == (x & 0xff) as u8,
    ;
}

/// Four bytes tell which number was written into them.
pub proof fn lemma_le32_inj(x: u32, y: u32)
    requires
        le32(x) == le32(y),
    ensures
        x == y,
{
    let (s, t) = (le32(x), le32(y));
    let (a, b, c, d) = (s[0], s[1], s[2], s[3]);
    assert(t[0] == a && t[1] == b && t[2] == c && t[3] == d);
    assert(x == y) by (bit_vector)
        requires
            a == (x & 0xff) as u8,
            b == ((x >> 8) & 0xff) as u8,
            c == ((x >> 16) & 0xff) as u8,
            d == ((x >> 24) & 0xff) as u8,
            a == (y & 0xff) as u8,
            b == ((y >> 8) & 0xff) as u8,
            c == ((y >> 16) & 0xff) as u8,
            d == ((y >> 24) & 0xff) as u8,
    ;
}

/// Eight bytes tell which number was written into them.
pub proof fn lemma_le64_inj(x: u64, y: u64)
    requires
        le64(x) == le64(y),
    ensures
        x == y,
{
    let (s, t) = (le64(x), le64(y));
    let (a, b, c, d) = (s[0], s[1], s[2], s[3]);
    let (e, f, g, h) = (s[4], s[5], s[6], s[7]);
    assert(t[0] == a && t[1] == b && t[2] == c && t[3] == d);
    assert(t[4] == e && t[5] == f && t[6] == g && t[7] == h);
    assert(x == y) by (bit_vector)
        requires
            a == (x & 0xff) as u8,
            b == ((x >> 8) & 0xff) as u8,
            c == ((x >> 16) & 0xff) as u8,
            d == ((x >> 24) & 0xff) as u8,
            e == ((x >> 32) & 0xff) as u8,
            f == ((x >> 40) & 0xff) as u8,
            g == ((x >> 48) & 0xff) as u8,
            h == ((x >> 56) & 0xff) as u8,
            a == (y & 0xff) as u8,
            b == ((y >> 8) & 0xff) as u8,
            c == ((y >> 16) & 0xff) as u8,
            d == ((y >> 24) & 0xff) as u8,
            e == ((y >> 32) & 0xff) as u8,
            f == ((y >> 40) & 0xff) as u8,
            g == ((y >> 48) & 0xff) as u8,
            h == ((y >> 56) & 0xff) as u8,
    ;
}

// ---- laws

/// Bytes, least significant first, are worth 256 times as much place by place.
pub proof fn lemma_little_endian(a: u16, b: u32, c: u64)
    ensures
        le16(a).len() == 2,
        a == le16(a)[0] + 0x100 * le16(a)[1],
        le32(b).len() == 4,
        b == le32(b)[0] + 0x100 * le32(b)[1] + 0x1_0000 * le32(b)[2] + 0x100_0000 * le32(b)[3],
        le64(c).len() == 8,
        c == le64(c)[0] + 0x100 * le64(c)[1] + 0x1_0000 * le64(c)[2] + 0x100_0000 * le64(c)[3]
            + 0x1_0000_0000 * le64(c)[4] + 0x100_0000_0000 * le64(c)[5] + 0x1_0000_0000_0000
            * le64(c)[6] + 0x100_0000_0000_0000 * le64(c)[7],
{
    assert(a == ((a & 0xff) as u8) + 0x100 * (((a >> 8) & 0xff) as u8)) by (bit_vector);
    assert(b == ((b & 0xff) as u8) + 0x100 * (((b >> 8) & 0xff) as u8) + 0x1_0000 * (((b >> 16)
        & 0xff) as u8) + 0x100_0000 * (((b >> 24) & 0xff) as u8)) by (bit_vector);
    assert(c == ((c & 0xff) as u8) + 0x100 * (((c >> 8) & 0xff) as u8) + 0x1_0000 * (((c >> 16)
        & 0xff) as u8) + 0x100_0000 * (((c >> 24) & 0xff) as u8) + 0x1_0000_0000 * (((c >> 32)
        & 0xff) as u8) + 0x100_0000_0000 * (((c >> 40) & 0xff) as u8) + 0x1_0000_0000_0000 * (((c
        >> 48) & 0xff) as u8) + 0x100_0000_0000_0000 * (((c >> 56) & 0xff) as u8)) by (bit_vector);
}

/// Bytes, most significant first, are worth 256 times as much place by place, and read back as the
/// number.
pub proof fn lemma_big_endian(x: u32)
    ensures
        be32(x).len() == 4,
        x == 0x100_0000 * be32(x)[0] + 0x1_0000 * be32(x)[1] + 0x100 * be32(x)[2] + be32(x)[3],
        be32_value(be32(x)) == x,
{
    lemma_little_endian(0, x, 0);
    lemma_be32_value(x);
}

/// Four bytes are those of the number that they are read as.
pub proof fn lemma_be32_of_value(s: Seq<u8>)
    requires
        s.len() == 4,
    ensures
        be32(be32_value(s)) == s,
{
    lemma_be32_round(s[0], s[1], s[2], s[3]);
    assert(be32(be32_value(s)) =~= s);
}

/// Any four bytes are those of a number, least significant first.
pub proof fn lemma_le32_of_bytes(s: Seq<u8>) -> (x: u32)
    requires
        s.len() == 4,
    ensures
        le32(x) == s,
{
    let x = be32_value(s.reverse());
    lemma_be32_of_value(s.reverse());
    assert(le32(x) =~= be32(x).reverse());
    assert(s =~= s.reverse().reverse());
    x
}

/// A number of sixteen bytes is its low half and then its high half.
pub proof fn lemma_little_endian_halves(x: u128, low: u64, high: u64)
    requires
        x == low + 0x1_0000_0000_0000_0000 * high,
    ensures
        le128(x) == le64(low) + le64(high),
{
    let y: u128 = low as u128;
    let z: u128 = high as u128;
    assert((x & 0xffff_ffff_ffff_ffff) as u64 == y as u64 && (x >> 64) as u64 == z as u64)
        by (bit_vector)
        requires
            x == y + 0x1_0000_0000_0000_0000 * z,
            y <= 0xffff_ffff_ffff_ffff,
            z <= 0xffff_ffff_ffff_ffff,
    ;
}

} // verus!
